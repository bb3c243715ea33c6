//! The SREC record checksum.

use vstd::prelude::*;

verus! {

/// The sum of all bytes of the sequence, as an unbounded integer.
pub open spec fn byte_sum(bytes: Seq<u8>) -> int
    decreases bytes.len(),
{
    if bytes.len() == 0 {
        0
    } else {
        byte_sum(bytes.drop_last()) + bytes.last()
    }
}

/// The SREC checksum of a byte sequence: the one's complement of the sum of
/// the bytes modulo 256.
pub open spec fn spec_checksum(bytes: Seq<u8>) -> u8 {
    (255 - byte_sum(bytes) % 256) as u8
}

/// Computes the checksum of `bytes`: all bytes are summed with eight-bit
/// wrapping arithmetic and the result is complemented.
///
/// For a record, the input is the byte-count byte followed by the address and
/// payload bytes; the leading `S` marker and the checksum byte itself are
/// excluded.
pub fn checksum_of(bytes: &[u8]) -> (r: u8)
    ensures
        r == spec_checksum(bytes@),
{
    let n = bytes.len();
    let mut acc: u8 = 0;
    for i in 0..n
        invariant
            n == bytes@.len(),
            acc == byte_sum(bytes@.take(i as int)) % 256,
    {
        proof {
            assert(bytes@.take(i + 1).drop_last() =~= bytes@.take(i as int));
            assert(bytes@.take(i + 1).last() == bytes@[i as int]);
            vstd::arithmetic::div_mod::lemma_add_mod_noop(
                byte_sum(bytes@.take(i as int)),
                bytes@[i as int] as int,
                256,
            );
            vstd::arithmetic::div_mod::lemma_mod_twice(bytes@[i as int] as int, 256);
        }
        acc = ((acc as u16 + bytes[i] as u16) % 256) as u8;
    }
    proof {
        assert(bytes@.take(n as int) =~= bytes@);
    }
    255 - acc
}

} // verus!
