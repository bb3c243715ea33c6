//! The laws relating the writer and the reader: a generated record line
//! parses back to the record it came from, and a generated file reads back to
//! the records it came from.

use crate::checksum::spec_checksum;
use crate::reader::{
    hex_value, is_dec_digit, is_hex_digit, is_whitespace, lemma_line_break_is,
    spec_parse_hex_bytes, spec_parse_raw, spec_parse_record, spec_read, spec_read_lines,
    spec_split_lines, spec_trim, spec_trim_end, spec_trim_start, strip_trailing_nuls, Error,
    RawRecordModel,
};
use crate::record::{
    be_bytes, fits_width, lemma_be_bytes_len, lemma_be_bytes_value, lemma_unfold_be_limit,
    RecordModel,
};
use crate::writer::{
    hex_byte, hex_bytes, hex_digit, spec_encode_record, spec_generate, spec_make_record,
};
use vstd::prelude::*;
use vstd::utf8::encode_utf8;

verus! {

/// True when the header text of an `S0` record does not end in a NUL
/// character.  The reader strips trailing NULs from a header, so a header
/// that ends in one cannot survive a round trip.
pub open spec fn header_keeps_nul_free(m: RecordModel) -> bool {
    match m {
        RecordModel::S0(text) => text.len() == 0 || text.last() != '\0',
        _ => true,
    }
}

/// The digit of a value below 16 is a hexadecimal digit with that value, is
/// not whitespace and is not a line feed; below 10 it is a decimal digit.
proof fn lemma_hex_digit(d: int)
    requires
        0 <= d < 16,
    ensures
        is_hex_digit(hex_digit(d)),
        hex_value(hex_digit(d)) == d,
        !is_whitespace(hex_digit(d)),
        hex_digit(d) != '\n',
        d < 10 ==> is_dec_digit(hex_digit(d)),
{
}

/// Both digits of a byte are hexadecimal digits, and together they read back
/// as the byte.
proof fn lemma_hex_byte(b: u8)
    ensures
        hex_byte(b).len() == 2,
        is_hex_digit(hex_byte(b)[0]),
        is_hex_digit(hex_byte(b)[1]),
        hex_value(hex_byte(b)[0]) * 16 + hex_value(hex_byte(b)[1]) == b,
        !is_whitespace(hex_byte(b)[0]),
        !is_whitespace(hex_byte(b)[1]),
        hex_byte(b)[0] != '\n',
        hex_byte(b)[1] != '\n',
{
    lemma_hex_digit(b as int / 16);
    lemma_hex_digit(b as int % 16);
}

/// The digit text of a byte sequence has two characters per byte.
proof fn lemma_hex_bytes_len(bs: Seq<u8>)
    ensures
        hex_bytes(bs).len() == 2 * bs.len(),
    decreases bs.len(),
{
    if bs.len() > 0 {
        lemma_hex_bytes_len(bs.drop_last());
    }
}

/// The digit text of a byte sequence can be peeled from the front as well as
/// from the back.
proof fn lemma_hex_bytes_unfold_first(bs: Seq<u8>)
    requires
        bs.len() > 0,
    ensures
        hex_bytes(bs) == hex_byte(bs[0]) + hex_bytes(bs.drop_first()),
    decreases bs.len(),
{
    if bs.len() == 1 {
        assert(bs.drop_last() =~= Seq::<u8>::empty());
        assert(bs.drop_first() =~= Seq::<u8>::empty());
        assert(hex_bytes(bs) =~= hex_byte(bs[0]) + hex_bytes(bs.drop_first()));
    } else {
        lemma_hex_bytes_unfold_first(bs.drop_last());
        assert(bs.drop_last()[0] == bs[0]);
        assert(bs.drop_last().drop_first() =~= bs.drop_first().drop_last());
        assert(bs.drop_first().last() == bs.last());
        assert(hex_bytes(bs) =~= hex_byte(bs[0]) + hex_bytes(bs.drop_first()));
    }
}

/// Every character of the digit text of a byte sequence is a hexadecimal
/// digit.
proof fn lemma_hex_bytes_digits(bs: Seq<u8>)
    ensures
        forall|j: int|
            0 <= j < hex_bytes(bs).len() ==> is_hex_digit(#[trigger] hex_bytes(bs)[j])
                && !is_whitespace(hex_bytes(bs)[j]) && hex_bytes(bs)[j] != '\n',
    decreases bs.len(),
{
    lemma_hex_bytes_len(bs);
    if bs.len() > 0 {
        lemma_hex_bytes_digits(bs.drop_last());
        lemma_hex_bytes_len(bs.drop_last());
        lemma_hex_byte(bs.last());
        assert forall|j: int|
            0 <= j < hex_bytes(bs).len() implies is_hex_digit(#[trigger] hex_bytes(bs)[j])
            && !is_whitespace(hex_bytes(bs)[j]) && hex_bytes(bs)[j] != '\n' by {
            if j < 2 * bs.len() - 2 {
                assert(hex_bytes(bs)[j] == hex_bytes(bs.drop_last())[j]);
            } else {
                assert(hex_bytes(bs)[j] == hex_byte(bs.last())[j - (2 * bs.len() - 2)]);
            }
        }
    }
}

/// The digit text of concatenated bytes is the concatenation of their digit
/// texts.
proof fn lemma_hex_bytes_concat(b1: Seq<u8>, b2: Seq<u8>)
    ensures
        hex_bytes(b1 + b2) == hex_bytes(b1) + hex_bytes(b2),
    decreases b2.len(),
{
    if b2.len() == 0 {
        assert(b1 + b2 =~= b1);
        assert(hex_bytes(b1) + hex_bytes(b2) =~= hex_bytes(b1));
    } else {
        lemma_hex_bytes_concat(b1, b2.drop_last());
        assert((b1 + b2).drop_last() =~= b1 + b2.drop_last());
        assert((b1 + b2).last() == b2.last());
        assert(hex_bytes(b1 + b2) =~= hex_bytes(b1) + hex_bytes(b2));
    }
}

/// Reading digit pairs from a place where the digit text of `bs` stands
/// yields exactly `bs`.
proof fn lemma_parse_hex_bytes_exact(s: Seq<char>, i: int, bs: Seq<u8>)
    requires
        0 <= i,
        i + 2 * bs.len() <= s.len(),
        s.subrange(i, i + 2 * bs.len()) == hex_bytes(bs),
    ensures
        spec_parse_hex_bytes(s, i, bs.len() as int) == Ok::<Seq<u8>, Error>(bs),
    decreases bs.len(),
{
    lemma_hex_bytes_len(bs);
    if bs.len() == 0 {
        assert(bs =~= Seq::<u8>::empty());
    } else {
        lemma_hex_bytes_unfold_first(bs);
        lemma_hex_byte(bs[0]);
        lemma_hex_bytes_len(bs.drop_first());
        assert(s[i] == s.subrange(i, i + 2 * bs.len())[0]);
        assert(s[i + 1] == s.subrange(i, i + 2 * bs.len())[1]);
        assert(s[i] == hex_byte(bs[0])[0]);
        assert(s[i + 1] == hex_byte(bs[0])[1]);
        assert(hex_value(s[i]) * 16 + hex_value(s[i + 1]) == bs[0]);
        assert(s.subrange(i + 2, i + 2 + 2 * bs.drop_first().len()) =~= s.subrange(
            i,
            i + 2 * bs.len(),
        ).skip(2));
        assert(s.subrange(i, i + 2 * bs.len()).skip(2) =~= hex_bytes(bs.drop_first()));
        lemma_parse_hex_bytes_exact(s, i + 2, bs.drop_first());
        assert(seq![(hex_value(s[i]) * 16 + hex_value(s[i + 1])) as u8] + bs.drop_first() =~= bs);
    }
}

/// The shape of a generated line: its length, its characters, and how it
/// decomposes around the byte-count digits.
proof fn lemma_make_record_shape(t: u8, addr: int, w: int, data: Seq<u8>)
    requires
        t < 10,
        1 <= w <= 4,
        fits_width(addr, w),
        1 + w + data.len() <= 255,
    ensures
        ({
            let body = be_bytes(addr, w) + data;
            let count = 1 + w + data.len() as int;
            let full = seq![count as u8] + body;
            let ck = spec_checksum(full);
            let s = spec_make_record(t as int, addr, w, data);
            &&& s.len() == 4 + 2 * count
            &&& s == seq!['S', hex_digit(t as int)] + hex_byte(count as u8) + hex_bytes(
                body + seq![ck],
            )
        }),
{
    let body = be_bytes(addr, w) + data;
    let count = 1 + w + data.len() as int;
    let full = seq![count as u8] + body;
    let ck = spec_checksum(full);
    let s = spec_make_record(t as int, addr, w, data);
    lemma_be_bytes_len(addr, w);
    assert(seq![(1 + w + data.len()) as u8] + be_bytes(addr, w) + data =~= full);
    lemma_hex_bytes_len(full);
    lemma_hex_bytes_unfold_first(full);
    assert(full[0] == count as u8);
    assert(full.drop_first() =~= body);
    lemma_hex_bytes_concat(body, seq![ck]);
    assert(hex_bytes(seq![ck]) =~= hex_byte(ck)) by {
        assert(seq![ck].drop_last() =~= Seq::<u8>::empty());
        assert(hex_bytes(Seq::<u8>::empty()) =~= Seq::<char>::empty());
        assert(seq![ck].last() == ck);
    }
    lemma_hex_bytes_len(body);
    assert(hex_bytes(full) == hex_byte(count as u8) + hex_bytes(body));
    assert(hex_bytes(body + seq![ck]) == hex_bytes(body) + hex_byte(ck));
    assert(s =~= seq!['S', hex_digit(t as int)] + hex_byte(count as u8) + hex_bytes(
        body + seq![ck],
    ));
    lemma_hex_bytes_len(body + seq![ck]);
}

/// Parsing the raw fields of a generated line yields the type digit it was
/// generated with and the address and payload bytes, with the checksum
/// accepted and removed.
proof fn lemma_parse_raw_of_make(t: u8, addr: int, w: int, data: Seq<u8>)
    requires
        t < 10,
        1 <= w <= 4,
        fits_width(addr, w),
        1 + w + data.len() <= 255,
    ensures
        spec_parse_raw(spec_make_record(t as int, addr, w, data)) == Ok::<RawRecordModel, Error>(
            RawRecordModel { t, bytes: be_bytes(addr, w) + data },
        ),
{
    let body = be_bytes(addr, w) + data;
    let count = 1 + w + data.len() as int;
    let full = seq![count as u8] + body;
    let ck = spec_checksum(full);
    let s = spec_make_record(t as int, addr, w, data);
    lemma_make_record_shape(t, addr, w, data);
    lemma_be_bytes_len(addr, w);
    lemma_hex_bytes_len(body + seq![ck]);
    lemma_hex_digit(t as int);
    lemma_hex_byte(count as u8);
    assert(s[0] == 'S');
    assert(s[1] == hex_digit(t as int));
    assert(s[2] == hex_byte(count as u8)[0]);
    assert(s[3] == hex_byte(count as u8)[1]);
    assert(hex_value(s[2]) * 16 + hex_value(s[3]) == count);
    assert(s.subrange(4, 4 + 2 * (body + seq![ck]).len() as int) =~= hex_bytes(body + seq![ck]));
    lemma_parse_hex_bytes_exact(s, 4, body + seq![ck]);
    assert((body + seq![ck]).len() == count);
    let bytes = body + seq![ck];
    assert(bytes.last() == ck);
    assert(bytes.drop_last() =~= body);
    assert(seq![count as u8] + bytes.drop_last() =~= full);
    assert(hex_value(s[1]) as u8 == t);
}

/// A generated record line parses back to the record it encodes.
///
/// This is the round-trip law for one record.  It asks only that the record
/// is well formed and, for a header record, that the header text does not end
/// in a NUL character, since the reader strips trailing NULs.
pub proof fn lemma_record_round_trip(m: RecordModel)
    requires
        m.wf(),
        header_keeps_nul_free(m),
    ensures
        spec_parse_record(spec_encode_record(m)) == Ok::<RecordModel, Error>(m),
{
    lemma_unfold_be_limit();
    match m {
        RecordModel::S0(text) => {
            let data = encode_utf8(text);
            vstd::utf8::encode_utf8_valid_utf8(text);
            vstd::utf8::encode_utf8_decode_utf8(text);
            lemma_parse_raw_of_make(0, 0, 2, data);
            let body = be_bytes(0, 2) + data;
            lemma_be_bytes_len(0, 2);
            assert(body.skip(2) =~= data);
            assert(strip_trailing_nuls(text) == text);
        },
        RecordModel::S1 { address, data } => {
            lemma_parse_raw_of_make(1, address as int, 2, data);
            let body = be_bytes(address as int, 2) + data;
            lemma_be_bytes_len(address as int, 2);
            assert(body.take(2) =~= be_bytes(address as int, 2));
            assert(body.skip(2) =~= data);
            lemma_be_bytes_value(address as int, 2);
        },
        RecordModel::S2 { address, data } => {
            lemma_parse_raw_of_make(2, address as int, 3, data);
            let body = be_bytes(address as int, 3) + data;
            lemma_be_bytes_len(address as int, 3);
            assert(body.take(3) =~= be_bytes(address as int, 3));
            assert(body.skip(3) =~= data);
            lemma_be_bytes_value(address as int, 3);
        },
        RecordModel::S3 { address, data } => {
            lemma_parse_raw_of_make(3, address as int, 4, data);
            let body = be_bytes(address as int, 4) + data;
            lemma_be_bytes_len(address as int, 4);
            assert(body.take(4) =~= be_bytes(address as int, 4));
            assert(body.skip(4) =~= data);
            lemma_be_bytes_value(address as int, 4);
        },
        RecordModel::S5(count) => {
            lemma_parse_raw_of_make(5, count as int, 2, seq![]);
            assert(be_bytes(count as int, 2) + seq![] =~= be_bytes(count as int, 2));
            lemma_be_bytes_len(count as int, 2);
            lemma_be_bytes_value(count as int, 2);
        },
        RecordModel::S6(count) => {
            lemma_parse_raw_of_make(6, count as int, 3, seq![]);
            assert(be_bytes(count as int, 3) + seq![] =~= be_bytes(count as int, 3));
            lemma_be_bytes_len(count as int, 3);
            lemma_be_bytes_value(count as int, 3);
        },
        RecordModel::S7(address) => {
            lemma_parse_raw_of_make(7, address as int, 4, seq![]);
            assert(be_bytes(address as int, 4) + seq![] =~= be_bytes(address as int, 4));
            lemma_be_bytes_len(address as int, 4);
            lemma_be_bytes_value(address as int, 4);
        },
        RecordModel::S8(address) => {
            lemma_parse_raw_of_make(8, address as int, 3, seq![]);
            assert(be_bytes(address as int, 3) + seq![] =~= be_bytes(address as int, 3));
            lemma_be_bytes_len(address as int, 3);
            lemma_be_bytes_value(address as int, 3);
        },
        RecordModel::S9(address) => {
            lemma_parse_raw_of_make(9, address as int, 2, seq![]);
            assert(be_bytes(address as int, 2) + seq![] =~= be_bytes(address as int, 2));
            lemma_be_bytes_len(address as int, 2);
            lemma_be_bytes_value(address as int, 2);
        },
    }
}

/// Every character of a generated line is the marker `S` or a hexadecimal
/// digit; in particular the line is not empty and holds neither whitespace
/// nor a line feed.
proof fn lemma_encode_record_chars(m: RecordModel)
    requires
        m.wf(),
    ensures
        spec_encode_record(m).len() > 0,
        forall|j: int|
            0 <= j < spec_encode_record(m).len() ==> !is_whitespace(
                #[trigger] spec_encode_record(m)[j],
            ) && spec_encode_record(m)[j] != '\n',
{
    lemma_unfold_be_limit();
    let s = spec_encode_record(m);
    let shape: (u8, int, int, Seq<u8>) = match m {
        RecordModel::S0(text) => (0u8, 0int, 2int, encode_utf8(text)),
        RecordModel::S1 { address, data } => (1u8, address as int, 2int, data),
        RecordModel::S2 { address, data } => (2u8, address as int, 3int, data),
        RecordModel::S3 { address, data } => (3u8, address as int, 4int, data),
        RecordModel::S5(count) => (5u8, count as int, 2int, seq![]),
        RecordModel::S6(count) => (6u8, count as int, 3int, seq![]),
        RecordModel::S7(address) => (7u8, address as int, 4int, seq![]),
        RecordModel::S8(address) => (8u8, address as int, 3int, seq![]),
        RecordModel::S9(address) => (9u8, address as int, 2int, seq![]),
    };
    let (t, addr, w, data) = shape;
    assert(s == spec_make_record(t as int, addr, w, data));
    lemma_make_record_shape(t, addr, w, data);
    let body = be_bytes(addr, w) + data;
    let count = 1 + w + data.len() as int;
    let full = seq![count as u8] + body;
    let ck = spec_checksum(full);
    lemma_hex_digit(t as int);
    lemma_hex_byte(count as u8);
    lemma_hex_bytes_digits(body + seq![ck]);
    lemma_hex_bytes_len(body + seq![ck]);
    let head = seq!['S', hex_digit(t as int)] + hex_byte(count as u8);
    assert forall|j: int| 0 <= j < s.len() implies !is_whitespace(#[trigger] s[j]) && s[j]
        != '\n' by {
        if j < 4 {
            assert(s[j] == head[j]);
        } else {
            assert(s[j] == hex_bytes(body + seq![ck])[j - 4]);
        }
    }
}

/// Trimming a generated line changes nothing.
proof fn lemma_trim_encode_record(m: RecordModel)
    requires
        m.wf(),
    ensures
        spec_trim(spec_encode_record(m)) == spec_encode_record(m),
{
    let s = spec_encode_record(m);
    lemma_encode_record_chars(m);
    assert(!is_whitespace(s[0]));
    assert(spec_trim_start(s) == s);
    assert(!is_whitespace(s.last()));
    assert(spec_trim_end(s) == s);
}

/// A generated file reads back to exactly the records it was generated from,
/// each wrapped in `Ok`, one per line.
///
/// This is the round-trip law for record sequences: `parse(generate(R)) == R`
/// for every sequence of well-formed records whose header texts do not end in
/// a NUL character.
pub proof fn lemma_file_round_trip(ms: Seq<RecordModel>)
    requires
        forall|i: int|
            0 <= i < ms.len() ==> (#[trigger] ms[i]).wf() && header_keeps_nul_free(ms[i]),
    ensures
        spec_read(spec_generate(ms)) == ms.map_values(
            |m: RecordModel| Ok::<RecordModel, Error>(m),
        ),
    decreases ms.len(),
{
    let mapped = ms.map_values(|m: RecordModel| Ok::<RecordModel, Error>(m));
    if ms.len() == 0 {
        assert(spec_generate(ms).len() == 0);
        assert(mapped =~= Seq::<Result<RecordModel, Error>>::empty());
    } else {
        let line = spec_encode_record(ms[0]);
        let rest = spec_generate(ms.drop_first());
        let s = spec_generate(ms);
        assert(s == line + seq!['\n'] + rest);
        lemma_encode_record_chars(ms[0]);
        lemma_trim_encode_record(ms[0]);
        lemma_record_round_trip(ms[0]);
        assert forall|j: int| 0 <= j < line.len() implies s[j] != '\n' by {
            assert(s[j] == line[j]);
        }
        assert(s[line.len() as int] == '\n');
        lemma_line_break_is(s, line.len() as int);
        assert(s.take(line.len() as int) =~= line);
        assert(s.skip(line.len() as int + 1) =~= rest);
        assert(spec_split_lines(s) == seq![line] + spec_split_lines(rest));
        let lines = seq![line] + spec_split_lines(rest);
        assert(lines[0] == line);
        assert(lines.drop_first() =~= spec_split_lines(rest));
        lemma_file_round_trip(ms.drop_first());
        assert(spec_read_lines(lines) == seq![spec_parse_record(line)] + spec_read(rest));
        let rest_mapped = ms.drop_first().map_values(|m: RecordModel| Ok::<RecordModel, Error>(m));
        assert(mapped =~= seq![Ok::<RecordModel, Error>(ms[0])] + rest_mapped);
    }
}

} // verus!
