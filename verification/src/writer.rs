//! Generation of SREC records and files.

use crate::checksum::{checksum_of, spec_checksum};
use crate::record::{
    be_bytes, fits_width, lemma_unfold_be_limit, Address, Address16, Address24, Record,
    RecordModel,
};
use vstd::prelude::*;
use vstd::string::{StrSliceExecFns, StringExecFns};
use vstd::utf8::encode_utf8;

verus! {

/// The uppercase hexadecimal digit for a value below 16.
pub open spec fn hex_digit(v: int) -> char {
    if v < 10 {
        ((0x30 + v) as u8) as char
    } else {
        ((0x37 + v) as u8) as char
    }
}

/// The two hexadecimal digits of one byte, high digit first.
pub open spec fn hex_byte(b: u8) -> Seq<char> {
    seq![hex_digit(b as int / 16), hex_digit(b as int % 16)]
}

/// The hexadecimal digits of a byte sequence, two per byte.
pub open spec fn hex_bytes(bytes: Seq<u8>) -> Seq<char>
    decreases bytes.len(),
{
    if bytes.len() == 0 {
        seq![]
    } else {
        hex_bytes(bytes.drop_last()) + hex_byte(bytes.last())
    }
}

/// The text of one record line, without its terminating newline: the `S`
/// marker, the type digit, and the hex digits of the byte-count byte, the
/// big-endian address field, the payload, and the checksum.
pub open spec fn spec_make_record(t: int, addr: int, w: int, data: Seq<u8>) -> Seq<char> {
    let full = seq![(1 + w + data.len()) as u8] + be_bytes(addr, w) + data;
    seq!['S', hex_digit(t)] + hex_bytes(full) + hex_byte(spec_checksum(full))
}

/// The canonical line text of a record, without its terminating newline.
pub open spec fn spec_encode_record(m: RecordModel) -> Seq<char> {
    match m {
        RecordModel::S0(text) => spec_make_record(0, 0, 2, encode_utf8(text)),
        RecordModel::S1 { address, data } => spec_make_record(1, address as int, 2, data),
        RecordModel::S2 { address, data } => spec_make_record(2, address as int, 3, data),
        RecordModel::S3 { address, data } => spec_make_record(3, address as int, 4, data),
        RecordModel::S5(count) => spec_make_record(5, count as int, 2, seq![]),
        RecordModel::S6(count) => spec_make_record(6, count as int, 3, seq![]),
        RecordModel::S7(address) => spec_make_record(7, address as int, 4, seq![]),
        RecordModel::S8(address) => spec_make_record(8, address as int, 3, seq![]),
        RecordModel::S9(address) => spec_make_record(9, address as int, 2, seq![]),
    }
}

/// The text of a whole SREC file: one line per record, each terminated by a
/// line feed, the last included.
pub open spec fn spec_generate(ms: Seq<RecordModel>) -> Seq<char>
    decreases ms.len(),
{
    if ms.len() == 0 {
        seq![]
    } else {
        spec_encode_record(ms[0]) + seq!['\n'] + spec_generate(ms.drop_first())
    }
}

/// Relies on `String::push`: appends exactly the one character.
#[verifier::external_body]
fn push_char(s: &mut String, c: char)
    ensures
        final (s)@ == old(s)@.push(c),
{
    s.push(c);
}

/// Appends the two hexadecimal digits of `b` to `out`.
fn push_hex_byte(out: &mut String, b: u8)
    ensures
        final (out)@ == old(out)@ + hex_byte(b),
{
    let hi = b / 16;
    let lo = b % 16;
    let hi_c: char = if hi < 10 {
        (0x30 + hi) as char
    } else {
        (0x37 + hi) as char
    };
    let lo_c: char = if lo < 10 {
        (0x30 + lo) as char
    } else {
        (0x37 + lo) as char
    };
    push_char(out, hi_c);
    push_char(out, lo_c);
    proof {
        assert(final (out)@ =~= old(out)@ + hex_byte(b));
    }
}

/// Encodes one record line from its parts: the type digit, the address field,
/// and the payload bytes.  The byte count and checksum are computed here.
pub fn make_record<A: Address>(t: u8, address: &A, data: &Vec<u8>) -> (r: String)
    requires
        t < 10,
        1 <= address.addr_width(),
        fits_width(address.addr_value(), address.addr_width()),
        1 + address.addr_width() + data@.len() <= 255,
    ensures
        r@ == spec_make_record(t as int, address.addr_value(), address.addr_width(), data@),
{
    let addr_bytes = address.to_be_bytes();
    let count: u8 = (1 + addr_bytes.len() + data.len()) as u8;
    let mut full: Vec<u8> = Vec::new();
    full.push(count);
    full.extend_from_slice(addr_bytes.as_slice());
    full.extend_from_slice(data.as_slice());
    proof {
        assert(full@ =~= seq![
            (1 + address.addr_width() + data@.len()) as u8,
        ] + be_bytes(address.addr_value(), address.addr_width()) + data@);
    }
    let mut r = String::new();
    push_char(&mut r, 'S');
    let t_c: char = (0x30 + t) as char;
    push_char(&mut r, t_c);
    proof {
        assert(r@ =~= seq!['S', hex_digit(t as int)] + hex_bytes(full@.take(0)));
    }
    let n = full.len();
    for i in 0..n
        invariant
            n == full@.len(),
            r@ == seq!['S', hex_digit(t as int)] + hex_bytes(full@.take(i as int)),
    {
        push_hex_byte(&mut r, full[i]);
        proof {
            assert(full@.take(i + 1).drop_last() =~= full@.take(i as int));
            assert(full@.take(i + 1).last() == full@[i as int]);
            assert(r@ =~= seq!['S', hex_digit(t as int)] + hex_bytes(full@.take(i + 1)));
        }
    }
    proof {
        assert(full@.take(n as int) =~= full@);
    }
    let ck = checksum_of(full.as_slice());
    push_hex_byte(&mut r, ck);
    proof {
        assert(r@ =~= spec_make_record(
            t as int,
            address.addr_value(),
            address.addr_width(),
            data@,
        ));
    }
    r
}

impl Record {
    /// Encodes the record as one SREC line, without a terminating newline.
    pub fn encode(&self) -> (r: String)
        requires
            self@.wf(),
        ensures
            r@ == spec_encode_record(self@),
    {
        proof {
            lemma_unfold_be_limit();
        }
        match self {
            Record::S0(s) => {
                let data = s.as_str().as_bytes_vec();
                make_record(0, &Address16(0), &data)
            },
            Record::S1(d) => make_record(1, &d.address, &d.data),
            Record::S2(d) => make_record(2, &d.address, &d.data),
            Record::S3(d) => make_record(3, &d.address, &d.data),
            Record::S5(c) => {
                let empty: Vec<u8> = Vec::new();
                make_record(5, &Address16(c.0), &empty)
            },
            Record::S6(c) => {
                let empty: Vec<u8> = Vec::new();
                make_record(6, &Address24(c.0), &empty)
            },
            Record::S7(a) => {
                let empty: Vec<u8> = Vec::new();
                make_record(7, a, &empty)
            },
            Record::S8(a) => {
                let empty: Vec<u8> = Vec::new();
                make_record(8, a, &empty)
            },
            Record::S9(a) => {
                let empty: Vec<u8> = Vec::new();
                make_record(9, a, &empty)
            },
        }
    }
}

/// Converts each record to its line text and joins the lines, terminating
/// every line, the last included, with a line feed.
///
/// Does not validate the records against one another: overlapping data,
/// duplicated start records and record order are the caller's responsibility.
pub fn generate_srec_file(records: &[Record]) -> (r: String)
    requires
        forall|i: int| 0 <= i < records@.len() ==> (#[trigger] records@[i])@.wf(),
    ensures
        r@ == spec_generate(records@.map_values(|rec: Record| rec@)),
{
    let ghost models = records@.map_values(|rec: Record| rec@);
    let mut r = String::new();
    proof {
        assert(models.skip(0) =~= models);
        assert(r@ + spec_generate(models) =~= spec_generate(models));
    }
    let n = records.len();
    for i in 0..n
        invariant
            n == records@.len(),
            models == records@.map_values(|rec: Record| rec@),
            forall|j: int| 0 <= j < records@.len() ==> (#[trigger] records@[j])@.wf(),
            r@ + spec_generate(models.skip(i as int)) == spec_generate(models),
    {
        let line = records[i].encode();
        r.append(line.as_str());
        push_char(&mut r, '\n');
        proof {
            assert(models.skip(i as int).drop_first() =~= models.skip(i + 1));
            assert(models.skip(i as int)[0] == models[i as int]);
            assert(r@ + spec_generate(models.skip(i + 1)) =~= spec_generate(models));
        }
    }
    proof {
        assert(models.skip(n as int) =~= Seq::<RecordModel>::empty());
        assert(r@ =~= spec_generate(models));
    }
    r
}

} // verus!
