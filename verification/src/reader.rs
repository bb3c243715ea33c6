//! Parsing of SREC records and files.

use crate::checksum::{checksum_of, spec_checksum};
use crate::record::{
    be_value, Address16, Address24, Address32, Count16, Count24, Data, Record, RecordModel,
};
use vstd::prelude::*;
use vstd::string::StrSliceExecFns;
use vstd::utf8::{decode_utf8, valid_utf8};

verus! {

/// Errors which may occur during reading.
///
/// A header record whose text bytes are not valid UTF-8 is reported as
/// [`Error::InvalidUtf8`] rather than ending the whole read: every line
/// yields a result, and a bad line never stops the lines after it.
#[derive(Debug, PartialEq, Eq, Structural)]
pub enum Error {
    /// String did not have enough characters.
    NotEnoughData,
    /// Next character was unexpected.
    UnexpectedCharacter,
    /// Record byte count field was zero (must be >= 1).
    ByteCountZero,
    /// Record checksum did not match calculated checksum.
    ChecksumMismatch,
    /// Header text was not valid UTF-8.
    InvalidUtf8,
}

/// An undecoded record: the type digit together with the address, payload and
/// count bytes that followed the byte-count field.  The trailing checksum
/// byte has already been checked and removed.
#[derive(Debug, PartialEq, Eq)]
pub struct RawRecord {
    /// The record type digit.
    pub t: u8,
    /// The record bytes, checksum excluded.
    pub bytes: Vec<u8>,
}

/// The mathematical abstraction of a [`RawRecord`].
pub struct RawRecordModel {
    /// The record type digit.
    pub t: u8,
    /// The record bytes, checksum excluded.
    pub bytes: Seq<u8>,
}

impl View for RawRecord {
    type V = RawRecordModel;

    open spec fn view(&self) -> RawRecordModel {
        RawRecordModel { t: self.t, bytes: self.bytes@ }
    }
}

/// True for the characters `0` through `9`.
pub open spec fn is_dec_digit(c: char) -> bool {
    0x30 <= c as u32 <= 0x39
}

/// True for the characters `0`-`9`, `A`-`F` and `a`-`f`.
pub open spec fn is_hex_digit(c: char) -> bool {
    is_dec_digit(c) || 0x41 <= c as u32 <= 0x46 || 0x61 <= c as u32 <= 0x66
}

/// The numeric value of a hexadecimal digit character.
pub open spec fn hex_value(c: char) -> int {
    let v = c as u32 as int;
    if 0x30 <= v <= 0x39 {
        v - 0x30
    } else if 0x41 <= v <= 0x46 {
        v - 0x37
    } else if 0x61 <= v <= 0x66 {
        v - 0x57
    } else {
        0
    }
}

/// The result of reading `n` bytes, two hexadecimal digits each, from `s`
/// starting at index `i`.  A truncated field is reported before a malformed
/// one, pair by pair from the left, as the reader scans.
pub open spec fn spec_parse_hex_bytes(s: Seq<char>, i: int, n: int) -> Result<Seq<u8>, Error>
    decreases n,
{
    if n <= 0 {
        Ok(seq![])
    } else if s.len() < i + 2 {
        Err(Error::NotEnoughData)
    } else if !(is_hex_digit(s[i]) && is_hex_digit(s[i + 1])) {
        Err(Error::UnexpectedCharacter)
    } else {
        match spec_parse_hex_bytes(s, i + 2, n - 1) {
            Ok(rest) => Ok(seq![(hex_value(s[i]) * 16 + hex_value(s[i + 1])) as u8] + rest),
            Err(e) => Err(e),
        }
    }
}

/// The raw parse of one record line: the `S` marker, the decimal type digit,
/// the two-digit byte count, `count` bytes of hexadecimal, and the checksum
/// test over the byte-count byte and all record bytes but the last.
pub open spec fn spec_parse_raw(s: Seq<char>) -> Result<RawRecordModel, Error> {
    if s.len() < 1 {
        Err(Error::NotEnoughData)
    } else if s[0] != 'S' {
        Err(Error::UnexpectedCharacter)
    } else if s.len() < 2 {
        Err(Error::NotEnoughData)
    } else if !is_dec_digit(s[1]) {
        Err(Error::UnexpectedCharacter)
    } else if s.len() < 4 {
        Err(Error::NotEnoughData)
    } else if !(is_hex_digit(s[2]) && is_hex_digit(s[3])) {
        Err(Error::UnexpectedCharacter)
    } else {
        let count = hex_value(s[2]) * 16 + hex_value(s[3]);
        if count == 0 {
            Err(Error::ByteCountZero)
        } else {
            match spec_parse_hex_bytes(s, 4, count) {
                Err(e) => Err(e),
                Ok(bytes) => if bytes.last() == spec_checksum(
                    seq![count as u8] + bytes.drop_last(),
                ) {
                    Ok(RawRecordModel { t: hex_value(s[1]) as u8, bytes: bytes.drop_last() })
                } else {
                    Err(Error::ChecksumMismatch)
                },
            }
        }
    }
}

/// The text with every trailing NUL character removed.
pub open spec fn strip_trailing_nuls(s: Seq<char>) -> Seq<char>
    decreases s.len(),
{
    if s.len() > 0 && s.last() == '\0' {
        strip_trailing_nuls(s.drop_last())
    } else {
        s
    }
}

/// Decoding of a raw record's bytes into a record, by type tag.
///
/// Data tags take an address of their fixed width and any remainder as
/// payload; count and start-address tags demand exactly their width.  Tag 4
/// is reserved and rejected.
pub open spec fn spec_decode_body(t: u8, bytes: Seq<u8>) -> Result<RecordModel, Error> {
    if t == 0 {
        if bytes.len() < 2 {
            Err(Error::NotEnoughData)
        } else if !valid_utf8(bytes.skip(2)) {
            Err(Error::InvalidUtf8)
        } else {
            Ok(RecordModel::S0(strip_trailing_nuls(decode_utf8(bytes.skip(2)))))
        }
    } else if t == 1 {
        if bytes.len() < 2 {
            Err(Error::NotEnoughData)
        } else {
            Ok(
                RecordModel::S1 {
                    address: be_value(bytes.take(2)) as u16,
                    data: bytes.skip(2),
                },
            )
        }
    } else if t == 2 {
        if bytes.len() < 3 {
            Err(Error::NotEnoughData)
        } else {
            Ok(
                RecordModel::S2 {
                    address: be_value(bytes.take(3)) as u32,
                    data: bytes.skip(3),
                },
            )
        }
    } else if t == 3 {
        if bytes.len() < 4 {
            Err(Error::NotEnoughData)
        } else {
            Ok(
                RecordModel::S3 {
                    address: be_value(bytes.take(4)) as u32,
                    data: bytes.skip(4),
                },
            )
        }
    } else if t == 5 {
        if bytes.len() != 2 {
            Err(Error::NotEnoughData)
        } else {
            Ok(RecordModel::S5(be_value(bytes) as u16))
        }
    } else if t == 6 {
        if bytes.len() != 3 {
            Err(Error::NotEnoughData)
        } else {
            Ok(RecordModel::S6(be_value(bytes) as u32))
        }
    } else if t == 7 {
        if bytes.len() != 4 {
            Err(Error::NotEnoughData)
        } else {
            Ok(RecordModel::S7(be_value(bytes) as u32))
        }
    } else if t == 8 {
        if bytes.len() != 3 {
            Err(Error::NotEnoughData)
        } else {
            Ok(RecordModel::S8(be_value(bytes) as u32))
        }
    } else if t == 9 {
        if bytes.len() != 2 {
            Err(Error::NotEnoughData)
        } else {
            Ok(RecordModel::S9(be_value(bytes) as u16))
        }
    } else {
        Err(Error::UnexpectedCharacter)
    }
}

/// The parse of one record line.
pub open spec fn spec_parse_record(s: Seq<char>) -> Result<RecordModel, Error> {
    match spec_parse_raw(s) {
        Err(e) => Err(e),
        Ok(rr) => spec_decode_body(rr.t, rr.bytes),
    }
}

/// The abstraction of a raw parse result.
pub open spec fn raw_result_view(r: Result<RawRecord, Error>) -> Result<RawRecordModel, Error> {
    match r {
        Ok(rr) => Ok(rr@),
        Err(e) => Err(e),
    }
}

/// The abstraction of a record parse result.
pub open spec fn record_result_view(r: Result<Record, Error>) -> Result<RecordModel, Error> {
    match r {
        Ok(rec) => Ok(rec@),
        Err(e) => Err(e),
    }
}

/// Returns the value of a hexadecimal digit character, or `None` when the
/// character is not one.
fn hex_digit_value(c: char) -> (r: Option<u8>)
    ensures
        r is Some <==> is_hex_digit(c),
        r is Some ==> r->0 == hex_value(c),
{
    let v = c as u32;
    if 0x30 <= v && v <= 0x39 {
        Some((v - 0x30) as u8)
    } else if 0x41 <= v && v <= 0x46 {
        Some((v - 0x37) as u8)
    } else if 0x61 <= v && v <= 0x66 {
        Some((v - 0x57) as u8)
    } else {
        None
    }
}

/// Parses the raw fields of one record line: marker, type digit, byte count,
/// bytes and checksum, without decoding the bytes by tag.
#[verifier::loop_isolation(false)]
pub fn raw_record_from_str(s: &str) -> (r: Result<RawRecord, Error>)
    ensures
        raw_result_view(r) == spec_parse_raw(s@),
{
    let len = s.unicode_len();
    if len < 1 {
        return Err(Error::NotEnoughData);
    }
    if s.get_char(0) != 'S' {
        return Err(Error::UnexpectedCharacter);
    }
    if len < 2 {
        return Err(Error::NotEnoughData);
    }
    let t_v = s.get_char(1) as u32;
    if !(0x30 <= t_v && t_v <= 0x39) {
        return Err(Error::UnexpectedCharacter);
    }
    let t = (t_v - 0x30) as u8;
    if len < 4 {
        return Err(Error::NotEnoughData);
    }
    let hi = match hex_digit_value(s.get_char(2)) {
        Some(d) => d,
        None => {
            return Err(Error::UnexpectedCharacter);
        },
    };
    let lo = match hex_digit_value(s.get_char(3)) {
        Some(d) => d,
        None => {
            return Err(Error::UnexpectedCharacter);
        },
    };
    let count: usize = hi as usize * 16 + lo as usize;
    if count == 0 {
        return Err(Error::ByteCountZero);
    }
    let ghost n = count as int;
    let mut bytes: Vec<u8> = Vec::new();
    let mut k: usize = 0;
    while k < count
        invariant
            k <= count,
            count == n,
            count <= 255,
            len == s@.len(),
            bytes@.len() == k,
            match spec_parse_hex_bytes(s@, 4 + 2 * k, n - k) {
                Ok(rest) => spec_parse_hex_bytes(s@, 4, n) == Ok::<Seq<u8>, Error>(
                    bytes@ + rest,
                ),
                Err(e) => spec_parse_hex_bytes(s@, 4, n) == Err::<Seq<u8>, Error>(e),
            },
        decreases count - k,
    {
        let i = 4 + 2 * k;
        if len < i + 2 {
            return Err(Error::NotEnoughData);
        }
        let a = match hex_digit_value(s.get_char(i)) {
            Some(d) => d,
            None => {
                return Err(Error::UnexpectedCharacter);
            },
        };
        let b = match hex_digit_value(s.get_char(i + 1)) {
            Some(d) => d,
            None => {
                return Err(Error::UnexpectedCharacter);
            },
        };
        let ghost bytes0 = bytes@;
        bytes.push(a * 16 + b);
        k = k + 1;
        proof {
            let j = 4 + 2 * (k - 1);
            let m = n - (k - 1);
            let byte = (hex_value(s@[j]) * 16 + hex_value(s@[j + 1])) as u8;
            assert(m > 0 && s@.len() >= j + 2 && is_hex_digit(s@[j]) && is_hex_digit(s@[j + 1]));
            assert(bytes@ == bytes0.push(byte));
            match spec_parse_hex_bytes(s@, j + 2, m - 1) {
                Ok(rest) => {
                    assert(spec_parse_hex_bytes(s@, j, m) == Ok::<Seq<u8>, Error>(
                        seq![byte] + rest,
                    ));
                    assert(bytes@ + rest =~= bytes0 + (seq![byte] + rest));
                },
                Err(e) => {
                    assert(spec_parse_hex_bytes(s@, j, m) == Err::<Seq<u8>, Error>(e));
                },
            }
            assert(4 + 2 * k == j + 2 && n - k == m - 1);
        }
    }
    proof {
        assert(spec_parse_hex_bytes(s@, 4 + 2 * k, 0) == Ok::<Seq<u8>, Error>(seq![]));
        assert(bytes@ + seq![] =~= bytes@);
    }
    let checksum = match bytes.pop() {
        Some(b) => b,
        None => {
            return Err(Error::NotEnoughData);
        },
    };
    let mut checksum_bytes: Vec<u8> = Vec::new();
    checksum_bytes.push(count as u8);
    checksum_bytes.extend_from_slice(bytes.as_slice());
    let computed = checksum_of(checksum_bytes.as_slice());
    proof {
        assert(checksum_bytes@ =~= seq![n as u8] + bytes@);
    }
    if checksum == computed {
        Ok(RawRecord { t, bytes })
    } else {
        Err(Error::ChecksumMismatch)
    }
}

/// Copies the bytes of `v` from index `from` to the end into a fresh vector.
fn tail_bytes(v: &Vec<u8>, from: usize) -> (r: Vec<u8>)
    requires
        from <= v@.len(),
    ensures
        r@ == v@.skip(from as int),
{
    let mut r: Vec<u8> = Vec::new();
    let n = v.len();
    let mut i = from;
    while i < n
        invariant
            from <= i <= n,
            n == v@.len(),
            r@ == v@.subrange(from as int, i as int),
        decreases n - i,
    {
        r.push(v[i]);
        i = i + 1;
        proof {
            assert(r@ =~= v@.subrange(from as int, i as int));
        }
    }
    proof {
        assert(r@ =~= v@.skip(from as int));
    }
    r
}

/// Relies on `String::from_utf8`: it succeeds exactly on valid UTF-8 input
/// and decodes the bytes to the characters they encode, per the UTF-8 scheme
/// that `vstd::utf8` specifies for `str`.
#[verifier::external_body]
fn string_from_utf8(bytes: Vec<u8>) -> (r: Option<String>)
    ensures
        r is Some <==> valid_utf8(bytes@),
        r is Some ==> r->0@ == decode_utf8(bytes@),
{
    String::from_utf8(bytes).ok()
}

/// Removes every trailing NUL character from `text`.
#[verifier::loop_isolation(false)]
fn strip_nuls(text: String) -> (r: String)
    ensures
        r@ == strip_trailing_nuls(text@),
{
    let mut end = text.as_str().unicode_len();
    proof {
        assert(text@.take(text@.len() as int) =~= text@);
    }
    while end > 0 && text.as_str().get_char(end - 1) == '\0'
        invariant
            end <= text@.len(),
            strip_trailing_nuls(text@.take(end as int)) == strip_trailing_nuls(text@),
        decreases end,
    {
        proof {
            assert(text@.take(end as int).last() == text@[end - 1]);
            assert(text@.take(end as int).drop_last() =~= text@.take(end - 1));
        }
        end = end - 1;
    }
    let r = text.as_str().substring_char(0, end).to_owned();
    proof {
        assert(text@.take(end as int) =~= text@.subrange(0, end as int));
        assert(strip_trailing_nuls(text@.take(end as int)) == text@.take(end as int));
    }
    r
}

/// Unfolds [`be_value`] on short prefixes of a byte sequence.
proof fn lemma_be_value_prefix(bytes: Seq<u8>)
    ensures
        bytes.len() >= 1 ==> be_value(bytes.take(1)) == bytes[0],
        bytes.len() >= 2 ==> be_value(bytes.take(2)) == bytes[0] * 256 + bytes[1],
        bytes.len() >= 3 ==> be_value(bytes.take(3)) == (bytes[0] * 256 + bytes[1]) * 256
            + bytes[2],
        bytes.len() >= 4 ==> be_value(bytes.take(4)) == ((bytes[0] * 256 + bytes[1]) * 256
            + bytes[2]) * 256 + bytes[3],
{
    if bytes.len() >= 1 {
        assert(bytes.take(1).drop_last() =~= bytes.take(0));
        assert(bytes.take(0).len() == 0);
        assert(be_value(bytes.take(0)) == 0);
        assert(be_value(bytes.take(1)) == bytes[0]);
    }
    if bytes.len() >= 2 {
        assert(bytes.take(2).drop_last() =~= bytes.take(1));
        assert(be_value(bytes.take(2)) == bytes[0] * 256 + bytes[1]);
    }
    if bytes.len() >= 3 {
        assert(bytes.take(3).drop_last() =~= bytes.take(2));
        assert(be_value(bytes.take(3)) == (bytes[0] * 256 + bytes[1]) * 256 + bytes[2]);
    }
    if bytes.len() >= 4 {
        assert(bytes.take(4).drop_last() =~= bytes.take(3));
    }
}

/// Decodes the bytes of a raw record into a record, by type tag.
fn decode_record_body(rr: RawRecord) -> (r: Result<Record, Error>)
    ensures
        record_result_view(r) == spec_decode_body(rr@.t, rr@.bytes),
{
    proof {
        lemma_be_value_prefix(rr.bytes@);
        if rr.bytes@.len() == 2 {
            assert(rr.bytes@.take(2) =~= rr.bytes@);
        }
        if rr.bytes@.len() == 3 {
            assert(rr.bytes@.take(3) =~= rr.bytes@);
        }
        if rr.bytes@.len() == 4 {
            assert(rr.bytes@.take(4) =~= rr.bytes@);
        }
    }
    if rr.t == 0 {
        if rr.bytes.len() < 2 {
            return Err(Error::NotEnoughData);
        }
        let tail = tail_bytes(&rr.bytes, 2);
        match string_from_utf8(tail) {
            None => Err(Error::InvalidUtf8),
            Some(text) => Ok(Record::S0(strip_nuls(text))),
        }
    } else if rr.t == 1 {
        if rr.bytes.len() < 2 {
            return Err(Error::NotEnoughData);
        }
        let address = rr.bytes[0] as u16 * 256 + rr.bytes[1] as u16;
        let data = tail_bytes(&rr.bytes, 2);
        Ok(Record::S1(Data { address: Address16(address), data }))
    } else if rr.t == 2 {
        if rr.bytes.len() < 3 {
            return Err(Error::NotEnoughData);
        }
        let address = (rr.bytes[0] as u32 * 256 + rr.bytes[1] as u32) * 256 + rr.bytes[2] as u32;
        let data = tail_bytes(&rr.bytes, 3);
        Ok(Record::S2(Data { address: Address24(address), data }))
    } else if rr.t == 3 {
        if rr.bytes.len() < 4 {
            return Err(Error::NotEnoughData);
        }
        let address = ((rr.bytes[0] as u32 * 256 + rr.bytes[1] as u32) * 256 + rr.bytes[2] as u32)
            * 256 + rr.bytes[3] as u32;
        let data = tail_bytes(&rr.bytes, 4);
        Ok(Record::S3(Data { address: Address32(address), data }))
    } else if rr.t == 5 {
        if rr.bytes.len() != 2 {
            return Err(Error::NotEnoughData);
        }
        let count = rr.bytes[0] as u16 * 256 + rr.bytes[1] as u16;
        Ok(Record::S5(Count16(count)))
    } else if rr.t == 6 {
        if rr.bytes.len() != 3 {
            return Err(Error::NotEnoughData);
        }
        let count = (rr.bytes[0] as u32 * 256 + rr.bytes[1] as u32) * 256 + rr.bytes[2] as u32;
        Ok(Record::S6(Count24(count)))
    } else if rr.t == 7 {
        if rr.bytes.len() != 4 {
            return Err(Error::NotEnoughData);
        }
        let address = ((rr.bytes[0] as u32 * 256 + rr.bytes[1] as u32) * 256 + rr.bytes[2] as u32)
            * 256 + rr.bytes[3] as u32;
        Ok(Record::S7(Address32(address)))
    } else if rr.t == 8 {
        if rr.bytes.len() != 3 {
            return Err(Error::NotEnoughData);
        }
        let address = (rr.bytes[0] as u32 * 256 + rr.bytes[1] as u32) * 256 + rr.bytes[2] as u32;
        Ok(Record::S8(Address24(address)))
    } else if rr.t == 9 {
        if rr.bytes.len() != 2 {
            return Err(Error::NotEnoughData);
        }
        let address = rr.bytes[0] as u16 * 256 + rr.bytes[1] as u16;
        Ok(Record::S9(Address16(address)))
    } else {
        Err(Error::UnexpectedCharacter)
    }
}

impl Record {
    /// Parses one SREC line into a record.
    pub fn from_str(s: &str) -> (r: Result<Record, Error>)
        ensures
            record_result_view(r) == spec_parse_record(s@),
    {
        let rr = match raw_record_from_str(s) {
            Ok(rr) => rr,
            Err(e) => {
                return Err(e);
            },
        };
        decode_record_body(rr)
    }
}

impl core::str::FromStr for Record {
    type Err = Error;

    fn from_str(s: &str) -> Result<Record, Error> {
        Record::from_str(s)
    }
}

/// True for the characters that trimming removes: the Unicode White_Space
/// set, written out by code point.
pub open spec fn is_whitespace(c: char) -> bool {
    let v = c as u32;
    v == 0x09 || v == 0x0A || v == 0x0B || v == 0x0C || v == 0x0D || v == 0x20 || v == 0x85
        || v == 0xA0 || v == 0x1680 || (0x2000 <= v && v <= 0x200A) || v == 0x2028 || v == 0x2029
        || v == 0x202F || v == 0x205F || v == 0x3000
}

/// Decides [`is_whitespace`].
fn is_whitespace_char(c: char) -> (r: bool)
    ensures
        r == is_whitespace(c),
{
    let v = c as u32;
    v == 0x09 || v == 0x0A || v == 0x0B || v == 0x0C || v == 0x0D || v == 0x20 || v == 0x85
        || v == 0xA0 || v == 0x1680 || (0x2000 <= v && v <= 0x200A) || v == 0x2028 || v == 0x2029
        || v == 0x202F || v == 0x205F || v == 0x3000
}

/// The text with leading whitespace removed.
pub open spec fn spec_trim_start(s: Seq<char>) -> Seq<char>
    decreases s.len(),
{
    if s.len() > 0 && is_whitespace(s[0]) {
        spec_trim_start(s.drop_first())
    } else {
        s
    }
}

/// The text with trailing whitespace removed.
pub open spec fn spec_trim_end(s: Seq<char>) -> Seq<char>
    decreases s.len(),
{
    if s.len() > 0 && is_whitespace(s.last()) {
        spec_trim_end(s.drop_last())
    } else {
        s
    }
}

/// The text with whitespace removed from both ends.
pub open spec fn spec_trim(s: Seq<char>) -> Seq<char> {
    spec_trim_end(spec_trim_start(s))
}

/// The index of the first line feed in `s`, or the length of `s` when it has
/// none.
pub open spec fn line_break(s: Seq<char>) -> int
    decreases s.len(),
{
    if s.len() == 0 {
        0
    } else if s[0] == '\n' {
        0
    } else {
        1 + line_break(s.drop_first())
    }
}

/// Bounds and characterisation of [`line_break`].
proof fn lemma_line_break(s: Seq<char>)
    ensures
        0 <= line_break(s) <= s.len(),
        line_break(s) < s.len() ==> s[line_break(s)] == '\n',
        forall|j: int| 0 <= j < line_break(s) ==> s[j] != '\n',
    decreases s.len(),
{
    if s.len() == 0 {
    } else if s[0] == '\n' {
    } else {
        lemma_line_break(s.drop_first());
        let e = line_break(s);
        assert forall|j: int| 0 <= j < e implies s[j] != '\n' by {
            if j > 0 {
                assert(s.drop_first()[j - 1] == s[j]);
            }
        }
        if e < s.len() {
            assert(s.drop_first()[e - 1] == s[e]);
        }
    }
}

/// A position before which no line feed stands, and which holds one or ends
/// the text, is where [`line_break`] points.
pub proof fn lemma_line_break_is(s: Seq<char>, e: int)
    requires
        0 <= e <= s.len(),
        forall|j: int| 0 <= j < e ==> s[j] != '\n',
        e < s.len() ==> s[e] == '\n',
    ensures
        line_break(s) == e,
    decreases e,
{
    if e == 0 {
    } else {
        assert(s[0] != '\n');
        assert forall|j: int| 0 <= j < e - 1 implies s.drop_first()[j] != '\n' by {
            assert(s.drop_first()[j] == s[j + 1]);
        }
        if e - 1 < s.drop_first().len() {
            assert(s.drop_first()[e - 1] == s[e]);
        }
        lemma_line_break_is(s.drop_first(), e - 1);
    }
}

/// The lines of the text, split at each line feed.  The line feeds are not
/// part of any line; text after the last line feed forms a final line, and
/// text that ends with a line feed produces no line after it.
pub open spec fn spec_split_lines(s: Seq<char>) -> Seq<Seq<char>>
    decreases s.len(),
    via spec_split_lines_decreases
{
    if s.len() == 0 {
        seq![]
    } else {
        let e = line_break(s);
        if e == s.len() {
            seq![s]
        } else {
            seq![s.take(e)] + spec_split_lines(s.skip(e + 1))
        }
    }
}

#[via_fn]
proof fn spec_split_lines_decreases(s: Seq<char>) {
    lemma_line_break(s);
}

/// The parse results of a sequence of lines: each line is trimmed of
/// whitespace, blank lines are dropped, and every other line contributes the
/// result of parsing it as a record.
pub open spec fn spec_read_lines(lines: Seq<Seq<char>>) -> Seq<Result<RecordModel, Error>>
    decreases lines.len(),
{
    if lines.len() == 0 {
        seq![]
    } else {
        let t = spec_trim(lines[0]);
        let rest = spec_read_lines(lines.drop_first());
        if t.len() == 0 {
            rest
        } else {
            seq![spec_parse_record(t)] + rest
        }
    }
}

/// The parse results of a whole SREC text, one per non-blank line.
pub open spec fn spec_read(s: Seq<char>) -> Seq<Result<RecordModel, Error>> {
    spec_read_lines(spec_split_lines(s))
}

/// The abstraction of a sequence of record parse results.
pub open spec fn results_view(rs: Seq<Result<Record, Error>>) -> Seq<Result<RecordModel, Error>> {
    rs.map_values(|x: Result<Record, Error>| record_result_view(x))
}

/// Removing the whitespace prefix of length `a` trims the start.
proof fn lemma_trim_start_at(s: Seq<char>, a: int)
    requires
        0 <= a <= s.len(),
        forall|j: int| 0 <= j < a ==> is_whitespace(s[j]),
        a < s.len() ==> !is_whitespace(s[a]),
    ensures
        spec_trim_start(s) == s.skip(a),
    decreases a,
{
    if a == 0 {
        assert(s.skip(0) =~= s);
    } else {
        assert(is_whitespace(s[0]));
        assert forall|j: int| 0 <= j < a - 1 implies is_whitespace(s.drop_first()[j]) by {
            assert(s.drop_first()[j] == s[j + 1]);
        }
        if a - 1 < s.drop_first().len() {
            assert(s.drop_first()[a - 1] == s[a]);
        }
        lemma_trim_start_at(s.drop_first(), a - 1);
        assert(s.drop_first().skip(a - 1) =~= s.skip(a));
    }
}

/// Removing the whitespace suffix that starts at `b` trims the end.
proof fn lemma_trim_end_at(s: Seq<char>, b: int)
    requires
        0 <= b <= s.len(),
        forall|j: int| b <= j < s.len() ==> is_whitespace(s[j]),
        b > 0 ==> !is_whitespace(s[b - 1]),
    ensures
        spec_trim_end(s) == s.take(b),
    decreases s.len(),
{
    if b == s.len() {
        assert(s.take(b) =~= s);
    } else {
        assert(is_whitespace(s[s.len() - 1]));
        assert forall|j: int| b <= j < s.drop_last().len() implies is_whitespace(
            s.drop_last()[j],
        ) by {
            assert(s.drop_last()[j] == s[j]);
        }
        lemma_trim_end_at(s.drop_last(), b);
        assert(s.drop_last().take(b) =~= s.take(b));
    }
}

/// Reads records from a newline separated (either `\n` or `\r\n`) string.
///
/// Each non-blank line, trimmed of surrounding whitespace, yields one
/// element: the record it encodes, or the error that parsing it produced.  A
/// bad line never stops the lines after it from being read.  Does not
/// validate file consistency as a whole: data records may overlap and start
/// address records may be duplicated.
#[verifier::loop_isolation(false)]
#[verifier::rlimit(60)]
pub fn read_records(s: &str) -> (records: Vec<Result<Record, Error>>)
    ensures
        results_view(records@) == spec_read(s@),
{
    let len = s.unicode_len();
    let mut records: Vec<Result<Record, Error>> = Vec::new();
    proof {
        assert(s@.skip(0) =~= s@);
        assert(results_view(records@) + spec_read_lines(spec_split_lines(s@)) =~= spec_read(
            s@,
        ));
    }
    let mut pos: usize = 0;
    while pos < len
        invariant
            pos <= len,
            results_view(records@) + spec_read_lines(spec_split_lines(s@.skip(pos as int)))
                == spec_read(s@),
        decreases len - pos,
    {
        let ghost tail = s@.skip(pos as int);
        let mut e = pos;
        while e < len && s.get_char(e) != '\n'
            invariant
                pos <= e <= len,
                forall|j: int| pos <= j < e ==> s@[j] != '\n',
            decreases len - e,
        {
            e = e + 1;
        }
        proof {
            assert forall|j: int| 0 <= j < e - pos implies tail[j] != '\n' by {
                assert(tail[j] == s@[pos + j]);
            }
            if e < len {
                assert(tail[e - pos] == s@[e as int]);
            }
            lemma_line_break_is(tail, e - pos);
        }
        let mut a = pos;
        while a < e && is_whitespace_char(s.get_char(a))
            invariant
                pos <= a <= e,
                forall|j: int| pos <= j < a ==> is_whitespace(s@[j]),
            decreases e - a,
        {
            a = a + 1;
        }
        let mut b = e;
        while b > a && is_whitespace_char(s.get_char(b - 1))
            invariant
                a <= b <= e,
                forall|j: int| b <= j < e ==> is_whitespace(s@[j]),
            decreases b,
        {
            b = b - 1;
        }
        let ghost line = s@.subrange(pos as int, e as int);
        proof {
            assert forall|j: int| 0 <= j < a - pos implies is_whitespace(line[j]) by {
                assert(line[j] == s@[pos + j]);
            }
            if a - pos < line.len() {
                assert(line[a - pos] == s@[a as int]);
            }
            lemma_trim_start_at(line, a - pos);
            assert(line.skip(a - pos) =~= s@.subrange(a as int, e as int));
            let mid = s@.subrange(a as int, e as int);
            assert forall|j: int| b - a <= j < mid.len() implies is_whitespace(mid[j]) by {
                assert(mid[j] == s@[a + j]);
            }
            if b - a > 0 {
                assert(mid[b - a - 1] == s@[b - 1]);
            }
            lemma_trim_end_at(mid, b - a);
            assert(mid.take(b - a) =~= s@.subrange(a as int, b as int));
            assert(spec_trim(line) == s@.subrange(a as int, b as int));
        }
        let ghost records0 = records@;
        if a < b {
            let line_str = s.substring_char(a, b);
            let rec = Record::from_str(line_str);
            records.push(rec);
            proof {
                assert(results_view(records@) =~= results_view(records0).push(
                    record_result_view(rec),
                ));
            }
        }
        let next = if e < len {
            e + 1
        } else {
            len
        };
        proof {
            let trimmed = spec_trim(line);
            let lines = spec_split_lines(tail);
            if e < len {
                assert(tail.take(e - pos) =~= line);
                assert(tail.skip(e - pos + 1) =~= s@.skip(next as int));
                assert(lines =~= seq![line] + spec_split_lines(s@.skip(next as int)));
                assert(lines[0] == line);
                assert(lines.drop_first() =~= spec_split_lines(s@.skip(next as int)));
            } else {
                assert(tail =~= line);
                assert(lines =~= seq![line]);
                assert(lines[0] == line);
                assert(lines.drop_first() =~= Seq::<Seq<char>>::empty());
                assert(s@.skip(next as int) =~= Seq::<char>::empty());
            }
            let rest = spec_read_lines(spec_split_lines(s@.skip(next as int)));
            assert(spec_read_lines(lines) == if trimmed.len() == 0 {
                rest
            } else {
                seq![spec_parse_record(trimmed)] + rest
            });
            if trimmed.len() == 0 {
                assert(b == a);
                assert(records@ == records0);
            } else {
                assert(a < b);
                assert(results_view(records@) + rest =~= results_view(records0) + (seq![
                    spec_parse_record(trimmed),
                ] + rest));
            }
            assert(results_view(records@) + rest == spec_read(s@));
        }
        pos = next;
    }
    proof {
        assert(s@.skip(len as int) =~= Seq::<char>::empty());
        assert(spec_read_lines(spec_split_lines(Seq::<char>::empty())) =~= Seq::<
            Result<RecordModel, Error>,
        >::empty());
        assert(results_view(records@) + Seq::<Result<RecordModel, Error>>::empty() =~= results_view(
            records@,
        ));
    }
    records
}

} // verus!
