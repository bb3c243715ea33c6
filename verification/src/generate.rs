//! Generation of data records from a memory image.

use crate::image::{Block, Image};
use crate::record::{Address16, Address24, Address32, Data, Record, RecordModel};
use vstd::arithmetic::div_mod::{lemma_fundamental_div_mod, lemma_fundamental_div_mod_converse};
use vstd::prelude::*;

verus! {

/// The address width used when synthesising data records from an image.
pub enum AddressFormat {
    /// One width for the whole image: the smallest that fits its highest
    /// chunk address.
    SmallestRequired,
    /// Force 16-bit addresses (`S1` records).
    Address16,
    /// Force 24-bit addresses (`S2` records).
    Address24,
    /// Force 32-bit addresses (`S3` records).
    Address32,
}

/// The larger of two integers.
pub open spec fn int_max(a: int, b: int) -> int {
    if a >= b {
        a
    } else {
        b
    }
}

/// The chunks of one block: runs of at most 32 bytes, in address
/// order, each paired with its start address.
pub open spec fn spec_block_chunks(address: int, data: Seq<u8>) -> Seq<(int, Seq<u8>)>
    decreases data.len(),
{
    if data.len() <= 32 {
        seq![(address, data)]
    } else {
        seq![(address, data.take(32))] + spec_block_chunks(address + 32, data.skip(32))
    }
}

/// The chunks of every block of an image, in block order.
pub open spec fn spec_image_chunks(blocks: Seq<Block>) -> Seq<(int, Seq<u8>)>
    decreases blocks.len(),
{
    if blocks.len() == 0 {
        seq![]
    } else {
        spec_block_chunks(blocks[0].address as int, blocks[0].data@) + spec_image_chunks(
            blocks.drop_first(),
        )
    }
}

/// The start address of the last chunk of a block.
pub open spec fn last_chunk_addr(b: Block) -> int {
    b.address + 32 * ((b.data@.len() - 1) / 32)
}

/// The highest chunk start address of an image, or `-1` for an empty image.
/// The last chunk of each block starts highest within the block.
pub open spec fn image_max_chunk_addr(blocks: Seq<Block>) -> int
    decreases blocks.len(),
{
    if blocks.len() == 0 {
        -1
    } else {
        int_max(last_chunk_addr(blocks[0]), image_max_chunk_addr(blocks.drop_first()))
    }
}

/// The smallest address width, in bytes, whose range reaches `m`.
pub open spec fn smallest_width(m: int) -> int {
    if m <= 0xFFFF {
        2
    } else if m <= 0xFFFFFF {
        3
    } else {
        4
    }
}

/// The address width a format selects for an image.
pub open spec fn format_width(blocks: Seq<Block>, format: AddressFormat) -> int {
    match format {
        AddressFormat::SmallestRequired => smallest_width(image_max_chunk_addr(blocks)),
        AddressFormat::Address16 => 2,
        AddressFormat::Address24 => 3,
        AddressFormat::Address32 => 4,
    }
}

/// The data record of one chunk, at the given address width.
pub open spec fn chunk_record(w: int, address: int, data: Seq<u8>) -> RecordModel {
    if w == 2 {
        RecordModel::S1 { address: address as u16, data }
    } else if w == 3 {
        RecordModel::S2 { address: address as u32, data }
    } else {
        RecordModel::S3 { address: address as u32, data }
    }
}

/// The data records of a chunk sequence, at the given address width.
pub open spec fn chunk_records(chunks: Seq<(int, Seq<u8>)>, w: int) -> Seq<RecordModel> {
    chunks.map_values(|c: (int, Seq<u8>)| chunk_record(w, c.0, c.1))
}

/// The records that synthesising an image at the given format yields: one
/// data record per chunk, all at the width the format selects.
pub open spec fn spec_image_records(blocks: Seq<Block>, format: AddressFormat) -> Seq<
    RecordModel,
> {
    chunk_records(spec_image_chunks(blocks), format_width(blocks, format))
}

/// The abstraction of a sequence of records.
pub open spec fn records_view(rs: Seq<Record>) -> Seq<RecordModel> {
    rs.map_values(|rec: Record| rec@)
}

/// True when every chunk start address of the image lies below `limit`.
pub open spec fn chunks_fit(blocks: Seq<Block>, limit: int) -> bool {
    forall|j: int|
        0 <= j < spec_image_chunks(blocks).len() ==> (#[trigger] spec_image_chunks(
            blocks,
        )[j]).0 < limit
}

/// Dividing a value shifted by one divisor step raises the quotient by one.
proof fn lemma_div_step(x: int)
    requires
        x >= 0,
    ensures
        (x + 32) / 32 == x / 32 + 1,
{
    lemma_fundamental_div_mod(x, 32);
    lemma_fundamental_div_mod_converse(x + 32, 32, x / 32 + 1, x % 32);
}

/// The full shape of a block's chunks: how many there are, where each starts,
/// and which bytes each holds.
proof fn lemma_block_chunks_index(address: int, data: Seq<u8>)
    requires
        data.len() >= 1,
    ensures
        spec_block_chunks(address, data).len() == 1 + (data.len() - 1) / 32,
        forall|j: int|
            0 <= j < spec_block_chunks(address, data).len() ==> (#[trigger] spec_block_chunks(
                address,
                data,
            )[j]).0 == address + 32 * j,
        forall|j: int|
            0 <= j < spec_block_chunks(address, data).len() ==> (#[trigger] spec_block_chunks(
                address,
                data,
            )[j]).1 == data.subrange(
                32 * j,
                if 32 * j + 32 <= data.len() {
                    32 * j + 32
                } else {
                    data.len() as int
                },
            ),
    decreases data.len(),
{
    let bc = spec_block_chunks(address, data);
    if data.len() <= 32 {
        assert(bc[0].1 =~= data.subrange(0, data.len() as int));
    } else {
        lemma_block_chunks_index(address + 32, data.skip(32));
        lemma_div_step(data.len() - 33);
        assert forall|j: int| 0 <= j < bc.len() implies (#[trigger] bc[j]).0 == address + 32 * j
            && bc[j].1 == data.subrange(
            32 * j,
            if 32 * j + 32 <= data.len() {
                32 * j + 32
            } else {
                data.len() as int
            },
        ) by {
            if j == 0 {
                assert(bc[0].1 =~= data.subrange(0, 32));
            } else {
                let rest = spec_block_chunks(address + 32, data.skip(32));
                assert(bc[j] == rest[j - 1]);
                assert(rest[j - 1].1 == data.skip(32).subrange(
                    32 * (j - 1),
                    if 32 * (j - 1) + 32 <= data.skip(32).len() {
                        32 * (j - 1) + 32
                    } else {
                        data.skip(32).len() as int
                    },
                ));
                assert(data.skip(32).subrange(
                    32 * (j - 1),
                    if 32 * (j - 1) + 32 <= data.skip(32).len() {
                        32 * (j - 1) + 32
                    } else {
                        data.skip(32).len() as int
                    },
                ) =~= data.subrange(
                    32 * j,
                    if 32 * j + 32 <= data.len() {
                        32 * j + 32
                    } else {
                        data.len() as int
                    },
                ));
            }
        }
    }
}

/// Every chunk of an image starts at or after its block, covers at least one
/// and at most 32 bytes, and ends within its block.
proof fn lemma_image_chunks_bounds(blocks: Seq<Block>)
    requires
        forall|i: int| 0 <= i < blocks.len() ==> (#[trigger] blocks[i]).data@.len() > 0,
        forall|i: int| 0 <= i < blocks.len() ==> (#[trigger] blocks[i]).end() <= u32::MAX,
    ensures
        forall|j: int|
            0 <= j < spec_image_chunks(blocks).len() ==> {
                let c = #[trigger] spec_image_chunks(blocks)[j];
                0 <= c.0 && c.0 + c.1.len() <= u32::MAX && 1 <= c.1.len() <= 32
            },
    decreases blocks.len(),
{
    if blocks.len() > 0 {
        let b = blocks[0];
        let bc = spec_block_chunks(b.address as int, b.data@);
        lemma_block_chunks_index(b.address as int, b.data@);
        lemma_image_chunks_bounds(blocks.drop_first());
        assert forall|j: int| 0 <= j < spec_image_chunks(blocks).len() implies {
            let c = #[trigger] spec_image_chunks(blocks)[j];
            0 <= c.0 && c.0 + c.1.len() <= u32::MAX && 1 <= c.1.len() <= 32
        } by {
            if j < bc.len() {
                assert(spec_image_chunks(blocks)[j] == bc[j]);
                assert(32 * j <= b.data@.len() - 1) by {
                    lemma_fundamental_div_mod(b.data@.len() - 1, 32);
                }
            } else {
                assert(spec_image_chunks(blocks)[j] == spec_image_chunks(blocks.drop_first())[j
                    - bc.len()]);
            }
        }
    }
}

/// Every chunk of an image starts at or below the image's highest chunk
/// address.
proof fn lemma_chunk_addrs_bounded(blocks: Seq<Block>)
    requires
        forall|i: int| 0 <= i < blocks.len() ==> (#[trigger] blocks[i]).data@.len() > 0,
    ensures
        forall|j: int|
            0 <= j < spec_image_chunks(blocks).len() ==> (#[trigger] spec_image_chunks(
                blocks,
            )[j]).0 <= image_max_chunk_addr(blocks),
    decreases blocks.len(),
{
    if blocks.len() > 0 {
        let b = blocks[0];
        let bc = spec_block_chunks(b.address as int, b.data@);
        lemma_block_chunks_index(b.address as int, b.data@);
        lemma_chunk_addrs_bounded(blocks.drop_first());
        assert forall|j: int|
            0 <= j < spec_image_chunks(blocks).len() implies (#[trigger] spec_image_chunks(
            blocks,
        )[j]).0 <= image_max_chunk_addr(blocks) by {
            if j < bc.len() {
                assert(spec_image_chunks(blocks)[j] == bc[j]);
                assert(bc[j].0 == b.address + 32 * j);
                assert(j <= (b.data@.len() - 1) / 32);
            } else {
                assert(spec_image_chunks(blocks)[j] == spec_image_chunks(blocks.drop_first())[j
                    - bc.len()]);
            }
        }
    }
}

/// Copies the bytes of `v` between `from` and `to` into a fresh vector.
fn copy_range(v: &Vec<u8>, from: usize, to: usize) -> (r: Vec<u8>)
    requires
        from <= to <= v@.len(),
    ensures
        r@ == v@.subrange(from as int, to as int),
{
    let mut r: Vec<u8> = Vec::new();
    let mut i = from;
    while i < to
        invariant
            from <= i <= to <= v@.len(),
            r@ == v@.subrange(from as int, i as int),
        decreases to - i,
    {
        r.push(v[i]);
        i = i + 1;
        proof {
            assert(r@ =~= v@.subrange(from as int, i as int));
        }
    }
    r
}

/// Splits each block of the image into chunks of at most 32 bytes and returns one data record per chunk, in address order.
///
/// The address width is the one `address_format` names, or, for
/// `SmallestRequired`, the smallest of the three that fits the highest chunk
/// address of the whole image.  A named width must fit every chunk address:
/// that is a precondition, not a runtime test.
#[verifier::loop_isolation(false)]
#[verifier::rlimit(60)]
pub fn image_records(i: &Image, address_format: AddressFormat) -> (records: Vec<Record>)
    requires
        i.wf(),
        address_format is Address16 ==> chunks_fit(i.blocks@, 0x10000),
        address_format is Address24 ==> chunks_fit(i.blocks@, 0x1000000),
    ensures
        records_view(records@) == spec_image_records(i.blocks@, address_format),
        forall|j: int| 0 <= j < records@.len() ==> (#[trigger] records@[j])@.wf(),
{
    let ghost blocks = i.blocks@;
    let ghost chunks = spec_image_chunks(blocks);
    let nblocks = i.blocks.len();
    let mut records: Vec<Record> = Vec::new();
    if nblocks == 0 {
        proof {
            assert(records_view(records@) =~= spec_image_records(
                blocks,
                address_format,
            ));
        }
        return records;
    }
    let w: u8 = match address_format {
        AddressFormat::Address16 => 2,
        AddressFormat::Address24 => 3,
        AddressFormat::Address32 => 4,
        AddressFormat::SmallestRequired => {
            let mut m: u32 = 0;
            proof {
                assert(blocks.skip(0) =~= blocks);
                lemma_block_chunks_index(blocks[0].address as int, blocks[0].data@);
                assert(image_max_chunk_addr(blocks) >= last_chunk_addr(blocks[0]));
                assert(last_chunk_addr(blocks[0]) >= blocks[0].address) by {
                    lemma_fundamental_div_mod(blocks[0].data@.len() - 1, 32);
                }
            }
            let mut bi: usize = 0;
            while bi < nblocks
                invariant
                    0 <= bi <= nblocks,
                    int_max(m as int, image_max_chunk_addr(blocks.skip(bi as int)))
                        == image_max_chunk_addr(blocks),
                decreases nblocks - bi,
            {
                let b = &i.blocks[bi];
                let lc = b.address + ((b.data.len() - 1) / 32 * 32) as u32;
                proof {
                    lemma_fundamental_div_mod(b.data@.len() - 1, 32);
                    assert(blocks.skip(bi as int)[0] == blocks[bi as int]);
                    assert(blocks.skip(bi as int).drop_first() =~= blocks.skip(bi + 1));
                }
                if lc > m {
                    m = lc;
                }
                bi = bi + 1;
            }
            proof {
                assert(blocks.skip(nblocks as int) =~= Seq::<Block>::empty());
                assert(m as int == image_max_chunk_addr(blocks));
            }
            if m <= 0xFFFF {
                2
            } else if m <= 0xFFFFFF {
                3
            } else {
                4
            }
        },
    };
    let ghost width = format_width(blocks, address_format);
    proof {
        assert(w as int == width);
        lemma_image_chunks_bounds(blocks);
        if address_format is SmallestRequired {
            lemma_chunk_addrs_bounded(blocks);
        }
        assert forall|j: int| 0 <= j < chunks.len() implies {
            let c = #[trigger] chunks[j];
            0 <= c.0 && c.0 < if width == 2 {
                0x10000int
            } else if width == 3 {
                0x1000000int
            } else {
                0x100000000int
            }
        } by {
            if address_format is SmallestRequired {
                assert(chunks[j].0 <= image_max_chunk_addr(blocks));
            }
        }
        assert(chunks.subrange(0, 0) =~= Seq::<(int, Seq<u8>)>::empty());
        assert(blocks.skip(0) =~= blocks);
        assert(chunks =~= chunks.subrange(0, 0) + spec_image_chunks(blocks.skip(0)));
        assert(records_view(records@) =~= chunk_records(
            chunks.subrange(0, 0),
            width,
        ));
    }
    let mut cnt: usize = 0;
    let mut bi: usize = 0;
    while bi < nblocks
        invariant
            0 <= bi <= nblocks,
            cnt == records@.len(),
            cnt <= chunks.len(),
            chunks == chunks.subrange(0, cnt as int) + spec_image_chunks(blocks.skip(bi as int)),
            records_view(records@) == chunk_records(
                chunks.subrange(0, cnt as int),
                width,
            ),
            forall|j: int| 0 <= j < records@.len() ==> (#[trigger] records@[j])@.wf(),
        decreases nblocks - bi,
    {
        let b = &i.blocks[bi];
        let blen = b.data.len();
        let ghost bc = spec_block_chunks(b.address as int, b.data@);
        proof {
            assert(blocks.skip(bi as int)[0] == blocks[bi as int]);
            assert(blocks.skip(bi as int).drop_first() =~= blocks.skip(bi + 1));
            lemma_block_chunks_index(b.address as int, b.data@);
            assert(b.data@.skip(0) =~= b.data@);
        }
        let ghost cnt0 = cnt;
        let mut off: usize = 0;
        let mut k: usize = 0;
        while off < blen
            invariant
                0 <= bi < nblocks,
                k < bc.len() ==> off == 32 * k,
                k <= bc.len(),
                off <= blen,
                blen == b.data@.len(),
                blen <= 0xFFFFFFFF,
                b == i.blocks@[bi as int],
                bc == spec_block_chunks(b.address as int, b.data@),
                cnt == cnt0 + k,
                cnt == records@.len(),
                cnt <= chunks.len(),
                chunks == chunks.subrange(0, cnt0 as int) + bc + spec_image_chunks(
                    blocks.skip(bi + 1),
                ),
                forall|j: int| 0 <= j < k ==> chunks[cnt0 + j] == bc[j],
                cnt0 + bc.len() <= chunks.len(),
                records_view(records@) == chunk_records(
                    chunks.subrange(0, cnt as int),
                    width,
                ),
                forall|j: int| 0 <= j < records@.len() ==> (#[trigger] records@[j])@.wf(),
                k < bc.len() ==> off < blen,
                k == bc.len() ==> off >= blen,
            decreases blen - off,
        {
            let chunk_end = if blen - off > 32 {
                off + 32
            } else {
                blen
            };
            let chunk = copy_range(&b.data, off, chunk_end);
            let chunk_addr = b.address + (off as u32);
            proof {
                assert(k < bc.len()) by {
                    if k >= bc.len() {
                        assert(k == bc.len());
                    }
                }
                assert(bc[k as int].0 == b.address + 32 * k);
                assert(chunks[cnt as int] == bc[k as int]);
                assert(chunk_addr as int == bc[k as int].0);
                assert(chunk@ == bc[k as int].1);
            }
            let out_rec = if w == 2 {
                Record::S1(Data { address: Address16(chunk_addr as u16), data: chunk })
            } else if w == 3 {
                Record::S2(Data { address: Address24(chunk_addr), data: chunk })
            } else {
                Record::S3(Data { address: Address32(chunk_addr), data: chunk })
            };
            proof {
                assert(out_rec@ == chunk_record(width, chunks[cnt as int].0, chunks[cnt as int].1));
                assert(out_rec@.wf());
            }
            let ghost recs0 = records@;
            records.push(out_rec);
            cnt = records.len();
            k = k + 1;
            off = chunk_end;
            proof {
                assert(records@ == recs0.push(out_rec));
                let done = chunks.subrange(0, cnt as int);
                assert forall|j: int| 0 <= j < records@.len() implies records_view(records@)[j]
                    == chunk_records(done, width)[j] by {
                    assert(records_view(records@)[j] == records@[j]@);
                    assert(done[j] == chunks[j]);
                    assert(chunk_records(done, width)[j] == chunk_record(
                        width,
                        chunks[j].0,
                        chunks[j].1,
                    ));
                    if j < cnt - 1 {
                        assert(records@[j] == recs0[j]);
                        assert(records_view(recs0)[j] == recs0[j]@);
                        assert(chunks.subrange(0, cnt - 1)[j] == chunks[j]);
                    } else {
                        assert(records@[j] == out_rec);
                    }
                }
                assert(records_view(records@) =~= chunk_records(done, width));
                lemma_fundamental_div_mod(blen - 1, 32);
                if off < blen {
                    assert(off == 32 * k);
                    assert(k <= (blen - 1) / 32);
                    assert(k < bc.len());
                } else {
                    assert(k == bc.len()) by {
                        if k < bc.len() {
                            assert(off == 32 * k);
                            assert(32 * k <= (blen - 1) / 32 * 32);
                            assert(off <= blen - 1);
                        }
                    }
                }
            }
        }
        bi = bi + 1;
        proof {
            assert(k == bc.len());
            assert(chunks.subrange(0, cnt as int) =~= chunks.subrange(0, cnt0 as int) + bc);
            assert(chunks =~= chunks.subrange(0, cnt as int) + spec_image_chunks(
                blocks.skip(bi as int),
            ));
        }
    }
    proof {
        assert(blocks.skip(nblocks as int) =~= Seq::<Block>::empty());
        assert(chunks.subrange(0, cnt as int) =~= chunks);
    }
    records
}

} // verus!
