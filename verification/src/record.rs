//! The SREC record model: fixed-width address and count wrapper types, the
//! payload of a data record, and the nine record kinds.

use vstd::prelude::*;
use vstd::utf8::encode_utf8;

verus! {

/// `256` to the power `w`: one more than the largest value whose big-endian
/// encoding fits in `w` bytes.
pub open spec fn be_limit(w: int) -> int
    decreases w,
{
    if w <= 0 {
        1
    } else {
        256 * be_limit(w - 1)
    }
}

/// True when `v` can be encoded big-endian in `w` bytes.
pub open spec fn fits_width(v: int, w: int) -> bool {
    0 <= v < be_limit(w)
}

/// The big-endian encoding of `v` in exactly `w` bytes.
pub open spec fn be_bytes(v: int, w: int) -> Seq<u8>
    decreases w,
{
    if w <= 0 {
        seq![]
    } else {
        be_bytes(v / 256, w - 1) + seq![(v % 256) as u8]
    }
}

/// The value read big-endian from a byte sequence.
pub open spec fn be_value(bytes: Seq<u8>) -> int
    decreases bytes.len(),
{
    if bytes.len() == 0 {
        0
    } else {
        be_value(bytes.drop_last()) * 256 + bytes.last()
    }
}

/// A big-endian encoding always has exactly `w` bytes.
pub proof fn lemma_be_bytes_len(v: int, w: int)
    requires
        w >= 0,
    ensures
        be_bytes(v, w).len() == w,
    decreases w,
{
    if w > 0 {
        lemma_be_bytes_len(v / 256, w - 1);
    }
}

/// The limit of a width is always positive.
proof fn lemma_be_limit_pos(w: int)
    ensures
        be_limit(w) >= 1,
    decreases w,
{
    if w > 0 {
        lemma_be_limit_pos(w - 1);
    }
}

/// Byte `i` of the big-endian encoding of `v` holds the `i`-th highest
/// base-256 digit of `v`.
proof fn lemma_be_bytes_index(v: int, w: int, i: int)
    requires
        v >= 0,
        0 <= i < w,
    ensures
        be_bytes(v, w).len() == w,
        be_bytes(v, w)[i] == ((v / be_limit(w - 1 - i)) % 256) as u8,
    decreases w,
{
    lemma_be_bytes_len(v, w);
    lemma_be_bytes_len(v / 256, w - 1);
    if i == w - 1 {
        assert(v / be_limit(0) == v);
    } else {
        lemma_be_bytes_index(v / 256, w - 1, i);
        lemma_be_limit_pos(w - 2 - i);
        vstd::arithmetic::div_mod::lemma_div_denominator(v, 256, be_limit(w - 2 - i));
        assert(be_limit(w - 1 - i) == 256 * be_limit(w - 2 - i));
    }
}

/// Reading back a big-endian encoding recovers the value it was made from.
pub proof fn lemma_be_bytes_value(v: int, w: int)
    requires
        fits_width(v, w),
    ensures
        be_value(be_bytes(v, w)) == v,
    decreases w,
{
    if w <= 0 {
    } else {
        lemma_be_bytes_len(v / 256, w - 1);
        assert(be_bytes(v, w).drop_last() =~= be_bytes(v / 256, w - 1));
        assert(0 <= v / 256 < be_limit(w - 1)) by {
            assert(256 * (v / 256) <= v < 256 * be_limit(w - 1)) by {
                vstd::arithmetic::div_mod::lemma_fundamental_div_mod(v, 256);
            }
        }
        lemma_be_bytes_value(v / 256, w - 1);
        vstd::arithmetic::div_mod::lemma_fundamental_div_mod(v, 256);
    }
}

/// Allows conversion of an address into a vector of big-endian bytes.
pub trait Address {
    /// The numeric value of the address.
    spec fn addr_value(&self) -> int;

    /// The width of the address encoding, in bytes.
    spec fn addr_width(&self) -> int;

    /// Returns the bytes of the address value in big-endian order.
    fn to_be_bytes(&self) -> (r: Vec<u8>)
        requires
            1 <= self.addr_width(),
            fits_width(self.addr_value(), self.addr_width()),
        ensures
            r@ == be_bytes(self.addr_value(), self.addr_width()),
            r@.len() == self.addr_width(),
    ;
}

/// 16-bit address.
#[derive(Debug, Copy, Clone, Hash, PartialEq, PartialOrd, Eq, Ord)]
pub struct Address16(pub u16);

/// 24-bit address.
///
/// The value is held in a 32-bit integer; operations that encode it require
/// that the top byte is zero rather than truncating silently.
#[derive(Debug, Copy, Clone, Hash, PartialEq, PartialOrd, Eq, Ord)]
pub struct Address24(pub u32);

/// 32-bit address.
#[derive(Debug, Copy, Clone, Hash, PartialEq, PartialOrd, Eq, Ord)]
pub struct Address32(pub u32);

/// 16-bit data record count.
#[derive(Debug, Copy, Clone, Hash, PartialEq, PartialOrd, Eq, Ord)]
pub struct Count16(pub u16);

/// 24-bit data record count.
///
/// As with [`Address24`], the top byte of the stored value must be zero when
/// the count is encoded.
#[derive(Debug, Copy, Clone, Hash, PartialEq, PartialOrd, Eq, Ord)]
pub struct Count24(pub u32);

impl Address for Address16 {
    open spec fn addr_value(&self) -> int {
        self.0 as int
    }

    open spec fn addr_width(&self) -> int {
        2
    }

    fn to_be_bytes(&self) -> (r: Vec<u8>) {
        let mut r: Vec<u8> = Vec::new();
        r.push((self.0 / 256) as u8);
        r.push((self.0 % 256) as u8);
        proof {
            let x = self.0 as int;
            lemma_unfold_be_limit();
            lemma_be_bytes_index(x, 2, 0);
            lemma_be_bytes_index(x, 2, 1);
            assert(x / be_limit(0) == x);
            assert(r@ =~= be_bytes(x, 2));
        }
        r
    }
}

impl Address for Address24 {
    open spec fn addr_value(&self) -> int {
        self.0 as int
    }

    open spec fn addr_width(&self) -> int {
        3
    }

    fn to_be_bytes(&self) -> (r: Vec<u8>) {
        let ghost x = self.0 as int;
        proof {
            lemma_unfold_be_limit();
        }
        assert(self.0 / 65536 < 256) by (nonlinear_arith)
            requires
                0 <= self.0 < 0x1000000,
        ;
        let mut r: Vec<u8> = Vec::new();
        r.push((self.0 / 65536) as u8);
        r.push((self.0 / 256 % 256) as u8);
        r.push((self.0 % 256) as u8);
        proof {
            lemma_be_bytes_index(x, 3, 0);
            lemma_be_bytes_index(x, 3, 1);
            lemma_be_bytes_index(x, 3, 2);
            assert(x / be_limit(0) == x);
            assert(be_limit(1) == 256);
            assert(be_limit(2) == 0x10000);
            assert(r@ =~= be_bytes(x, 3));
        }
        r
    }
}

impl Address for Address32 {
    open spec fn addr_value(&self) -> int {
        self.0 as int
    }

    open spec fn addr_width(&self) -> int {
        4
    }

    fn to_be_bytes(&self) -> (r: Vec<u8>) {
        let ghost x = self.0 as int;
        assert(self.0 / 16777216 < 256) by (nonlinear_arith)
            requires
                0 <= self.0 < 0x100000000,
        ;
        let mut r: Vec<u8> = Vec::new();
        r.push((self.0 / 16777216) as u8);
        r.push((self.0 / 65536 % 256) as u8);
        r.push((self.0 / 256 % 256) as u8);
        r.push((self.0 % 256) as u8);
        proof {
            lemma_be_bytes_index(x, 4, 0);
            lemma_be_bytes_index(x, 4, 1);
            lemma_be_bytes_index(x, 4, 2);
            lemma_be_bytes_index(x, 4, 3);
            assert(x / be_limit(0) == x);
            assert(be_limit(1) == 256);
            assert(be_limit(2) == 0x10000);
            assert(be_limit(3) == 0x1000000);
            assert(r@ =~= be_bytes(x, 4));
        }
        r
    }
}

/// Unfolds [`be_limit`] at the widths the record kinds use.
pub proof fn lemma_unfold_be_limit()
    ensures
        be_limit(0) == 1,
        be_limit(1) == 256,
        be_limit(2) == 0x10000,
        be_limit(3) == 0x1000000,
        be_limit(4) == 0x100000000,
{
    assert(be_limit(0) == 1);
    assert(be_limit(1) == 256);
    assert(be_limit(2) == 0x10000);
    assert(be_limit(3) == 0x1000000);
    assert(be_limit(4) == 0x100000000);
}

impl From<Address16> for u32 {
    fn from(addr: Address16) -> (r: u32) {
        addr.0 as u32
    }
}

impl vstd::std_specs::convert::FromSpecImpl<Address16> for u32 {
    open spec fn obeys_from_spec() -> bool {
        true
    }

    open spec fn from_spec(addr: Address16) -> u32 {
        addr.0 as u32
    }
}

impl<'a> From<&'a Address16> for u32 {
    fn from(addr: &'a Address16) -> (r: u32) {
        addr.0 as u32
    }
}

impl<'a> vstd::std_specs::convert::FromSpecImpl<&'a Address16> for u32 {
    open spec fn obeys_from_spec() -> bool {
        true
    }

    open spec fn from_spec(addr: &'a Address16) -> u32 {
        addr.0 as u32
    }
}

impl From<Address24> for u32 {
    fn from(addr: Address24) -> (r: u32) {
        addr.0
    }
}

impl vstd::std_specs::convert::FromSpecImpl<Address24> for u32 {
    open spec fn obeys_from_spec() -> bool {
        true
    }

    open spec fn from_spec(addr: Address24) -> u32 {
        addr.0
    }
}

impl<'a> From<&'a Address24> for u32 {
    fn from(addr: &'a Address24) -> (r: u32) {
        addr.0
    }
}

impl<'a> vstd::std_specs::convert::FromSpecImpl<&'a Address24> for u32 {
    open spec fn obeys_from_spec() -> bool {
        true
    }

    open spec fn from_spec(addr: &'a Address24) -> u32 {
        addr.0
    }
}

impl From<Address32> for u32 {
    fn from(addr: Address32) -> (r: u32) {
        addr.0
    }
}

impl vstd::std_specs::convert::FromSpecImpl<Address32> for u32 {
    open spec fn obeys_from_spec() -> bool {
        true
    }

    open spec fn from_spec(addr: Address32) -> u32 {
        addr.0
    }
}

impl<'a> From<&'a Address32> for u32 {
    fn from(addr: &'a Address32) -> (r: u32) {
        addr.0
    }
}

impl<'a> vstd::std_specs::convert::FromSpecImpl<&'a Address32> for u32 {
    open spec fn obeys_from_spec() -> bool {
        true
    }

    open spec fn from_spec(addr: &'a Address32) -> u32 {
        addr.0
    }
}

impl From<Count16> for u32 {
    fn from(count: Count16) -> (r: u32) {
        count.0 as u32
    }
}

impl vstd::std_specs::convert::FromSpecImpl<Count16> for u32 {
    open spec fn obeys_from_spec() -> bool {
        true
    }

    open spec fn from_spec(count: Count16) -> u32 {
        count.0 as u32
    }
}

impl<'a> From<&'a Count16> for u32 {
    fn from(count: &'a Count16) -> (r: u32) {
        count.0 as u32
    }
}

impl<'a> vstd::std_specs::convert::FromSpecImpl<&'a Count16> for u32 {
    open spec fn obeys_from_spec() -> bool {
        true
    }

    open spec fn from_spec(count: &'a Count16) -> u32 {
        count.0 as u32
    }
}

impl From<Count24> for u32 {
    fn from(count: Count24) -> (r: u32) {
        count.0
    }
}

impl vstd::std_specs::convert::FromSpecImpl<Count24> for u32 {
    open spec fn obeys_from_spec() -> bool {
        true
    }

    open spec fn from_spec(count: Count24) -> u32 {
        count.0
    }
}

impl<'a> From<&'a Count24> for u32 {
    fn from(count: &'a Count24) -> (r: u32) {
        count.0
    }
}

impl<'a> vstd::std_specs::convert::FromSpecImpl<&'a Count24> for u32 {
    open spec fn obeys_from_spec() -> bool {
        true
    }

    open spec fn from_spec(count: &'a Count24) -> u32 {
        count.0
    }
}

/// Record data field: a start address paired with the payload bytes.
#[derive(Debug, Clone, Hash, PartialEq, PartialOrd, Eq, Ord)]
pub struct Data<T> {
    /// Start address.
    pub address: T,
    /// Data bytes.
    pub data: Vec<u8>,
}

/// An SREC record, one of the nine kinds the format defines.
///
/// `S4` is reserved and never produced or accepted.
#[derive(Debug, Clone, Hash, PartialEq, PartialOrd, Eq, Ord)]
pub enum Record {
    /// Header.
    S0(String),
    /// Data with 16-bit address.
    S1(Data<Address16>),
    /// Data with 24-bit address.
    S2(Data<Address24>),
    /// Data with 32-bit address.
    S3(Data<Address32>),
    /// 16-bit data record count.
    S5(Count16),
    /// 24-bit data record count.
    S6(Count24),
    /// 32-bit start address.
    S7(Address32),
    /// 24-bit start address.
    S8(Address24),
    /// 16-bit start address.
    S9(Address16),
}

/// The mathematical abstraction of a [`Record`]: plain integers and sequences
/// in place of the wrapper types.
pub enum RecordModel {
    /// Header text.
    S0(Seq<char>),
    /// Data at a 16-bit address.
    S1 { address: u16, data: Seq<u8> },
    /// Data at a 24-bit address.
    S2 { address: u32, data: Seq<u8> },
    /// Data at a 32-bit address.
    S3 { address: u32, data: Seq<u8> },
    /// 16-bit record count.
    S5(u16),
    /// 24-bit record count.
    S6(u32),
    /// 32-bit start address.
    S7(u32),
    /// 24-bit start address.
    S8(u32),
    /// 16-bit start address.
    S9(u16),
}

impl View for Record {
    type V = RecordModel;

    open spec fn view(&self) -> RecordModel {
        match self {
            Record::S0(s) => RecordModel::S0(s@),
            Record::S1(d) => RecordModel::S1 { address: d.address.0, data: d.data@ },
            Record::S2(d) => RecordModel::S2 { address: d.address.0, data: d.data@ },
            Record::S3(d) => RecordModel::S3 { address: d.address.0, data: d.data@ },
            Record::S5(c) => RecordModel::S5(c.0),
            Record::S6(c) => RecordModel::S6(c.0),
            Record::S7(a) => RecordModel::S7(a.0),
            Record::S8(a) => RecordModel::S8(a.0),
            Record::S9(a) => RecordModel::S9(a.0),
        }
    }
}

impl RecordModel {
    /// A record is well formed when its fields fit the wire format: 24-bit
    /// values have a zero top byte, and the payload is short enough that the
    /// byte count (one count byte plus address and payload bytes) stays
    /// within its single-byte field.
    pub open spec fn wf(self) -> bool {
        match self {
            RecordModel::S0(text) => encode_utf8(text).len() <= 252,
            RecordModel::S1 { data, .. } => data.len() <= 252,
            RecordModel::S2 { address, data } => address <= 0xFFFFFF && data.len() <= 251,
            RecordModel::S3 { data, .. } => data.len() <= 250,
            RecordModel::S5(_) => true,
            RecordModel::S6(count) => count <= 0xFFFFFF,
            RecordModel::S7(_) => true,
            RecordModel::S8(address) => address <= 0xFFFFFF,
            RecordModel::S9(_) => true,
        }
    }
}

} // verus!
