//! A memory image: an address-sorted, auto-merging collection of data blocks.

use vstd::prelude::*;

verus! {

/// The contents of one data write: each address the write covers, mapped to
/// its byte.
pub open spec fn range_contents(address: int, data: Seq<u8>) -> Map<int, u8> {
    Map::new(|a: int| address <= a < address + data.len(), |a: int| data[a - address])
}

/// A single contiguous address range within an image.
#[derive(Debug, Clone, PartialEq, Eq)]
pub struct Block {
    /// Start address.
    pub address: u32,
    /// The bytes, one per address from `address` on.
    pub data: Vec<u8>,
}

impl Block {
    /// The first address after the block.
    pub open spec fn end(self) -> int {
        self.address + self.data@.len()
    }

    /// The contents of the block.
    pub open spec fn contents(self) -> Map<int, u8> {
        range_contents(self.address as int, self.data@)
    }
}

/// The contents of a sequence of blocks, later blocks read first where they
/// overlap (under the image invariant they never do).
pub open spec fn blocks_contents(blocks: Seq<Block>) -> Map<int, u8>
    decreases blocks.len(),
{
    if blocks.len() == 0 {
        Map::empty()
    } else {
        blocks_contents(blocks.drop_last()).union_prefer_right(blocks.last().contents())
    }
}

/// An in-memory image of a target's memory, as a set of address-tagged byte
/// ranges.
#[derive(Debug, PartialEq, Eq)]
pub struct Image {
    /// The blocks, sorted ascending by address.
    pub blocks: Vec<Block>,
}

impl Image {
    /// The invariant the blocks keep: every block is non-empty and ends
    /// within the 32-bit address space, and blocks stand in address order
    /// with a gap between one block's end and the next block's start
    /// (touching blocks are always merged).
    pub open spec fn wf(self) -> bool {
        &&& forall|i: int|
            0 <= i < self.blocks@.len() ==> (#[trigger] self.blocks@[i]).data@.len() > 0
        &&& forall|i: int| 0 <= i < self.blocks@.len() ==> (#[trigger] self.blocks@[i]).end()
            <= u32::MAX
        &&& forall|i: int, j: int|
            0 <= i < j < self.blocks@.len() ==> (#[trigger] self.blocks@[i]).end() < (
            #[trigger] self.blocks@[j]).address
    }

    /// The contents of the image: every covered address mapped to its byte.
    pub open spec fn contents(self) -> Map<int, u8> {
        blocks_contents(self.blocks@)
    }

    /// Creates an empty image.
    pub fn new() -> (r: Image)
        ensures
            r.wf(),
            r.blocks@.len() == 0,
            r.contents() == Map::<int, u8>::empty(),
    {
        Image { blocks: Vec::new() }
    }
}

/// The contents of concatenated block sequences is the union of their
/// contents.
proof fn lemma_contents_concat(s1: Seq<Block>, s2: Seq<Block>)
    ensures
        blocks_contents(s1 + s2) == blocks_contents(s1).union_prefer_right(blocks_contents(s2)),
    decreases s2.len(),
{
    if s2.len() == 0 {
        assert(s1 + s2 =~= s1);
        assert(blocks_contents(s1).union_prefer_right(Map::empty()) =~= blocks_contents(s1));
    } else {
        lemma_contents_concat(s1, s2.drop_last());
        assert((s1 + s2).drop_last() =~= s1 + s2.drop_last());
        assert((s1 + s2).last() == s2.last());
        assert(blocks_contents(s1).union_prefer_right(blocks_contents(s2.drop_last()))
            .union_prefer_right(s2.last().contents()) =~= blocks_contents(s1).union_prefer_right(
            blocks_contents(s2),
        ));
    }
}

/// Every address a block covers lies in the contents of any block sequence
/// the block stands in.
proof fn lemma_block_in_contents(s: Seq<Block>, i: int, a: int)
    requires
        0 <= i < s.len(),
        s[i].address <= a < s[i].end(),
    ensures
        blocks_contents(s).dom().contains(a),
    decreases s.len(),
{
    if i == s.len() - 1 {
        assert(s.last().contents().dom().contains(a));
    } else {
        lemma_block_in_contents(s.drop_last(), i, a);
    }
}

/// Bounds on the contents of a block sequence, from bounds on its blocks.
proof fn lemma_contents_bounds(s: Seq<Block>, lo: int, hi: int)
    requires
        forall|i: int| 0 <= i < s.len() ==> lo <= (#[trigger] s[i]).address,
        forall|i: int| 0 <= i < s.len() ==> (#[trigger] s[i]).end() <= hi,
    ensures
        forall|a: int| blocks_contents(s).dom().contains(a) ==> lo <= a < hi,
    decreases s.len(),
{
    if s.len() > 0 {
        lemma_contents_bounds(s.drop_last(), lo, hi);
        assert(s.last() == s[s.len() - 1]);
        assert forall|a: int| blocks_contents(s).dom().contains(a) implies lo <= a < hi by {
            if s.last().contents().dom().contains(a) {
                assert(lo <= s.last().address <= a < s.last().end() <= hi);
            } else {
                assert(blocks_contents(s.drop_last()).dom().contains(a));
            }
        }
    }
}

/// Writing two byte runs one right after the other covers the same addresses
/// with the same bytes as writing their concatenation at once.
proof fn lemma_range_concat(address: int, d1: Seq<u8>, d2: Seq<u8>)
    ensures
        range_contents(address, d1 + d2) == range_contents(address, d1).union_prefer_right(
            range_contents(address + d1.len(), d2),
        ),
{
    assert(range_contents(address, d1 + d2) =~= range_contents(address, d1).union_prefer_right(
        range_contents(address + d1.len(), d2),
    ));
}

impl Image {
    /// Adds `data` at `address`, merging the written range with any block it
    /// now touches, so that the blocks stay sorted, disjoint and
    /// non-adjacent.
    ///
    /// The written range must not overlap any byte the image already holds:
    /// overlap is a violation of this precondition, not a runtime error.  An
    /// empty write leaves the image unchanged.  The range must also lie
    /// within the 32-bit address space.
    #[verifier::loop_isolation(false)]
    pub fn add_data(&mut self, address: u32, data: &Vec<u8>)
        requires
            old(self).wf(),
            address + data@.len() <= u32::MAX,
            forall|a: int|
                address <= a < address + data@.len() ==> !old(self).contents().dom().contains(a),
        ensures
            final (self).wf(),
            final (self).contents() == old(self).contents().union_prefer_right(
                range_contents(address as int, data@),
            ),
    {
        let ghost r = range_contents(address as int, data@);
        if data.len() == 0 {
            proof {
                assert(self.contents().union_prefer_right(r) =~= self.contents());
            }
            return ;
        }
        let ghost b0 = self.blocks@;
        let len = self.blocks.len();
        let mut idx: usize = 0;
        while idx < len && self.blocks[idx].address < address
            invariant
                0 <= idx <= len,
                forall|i: int| 0 <= i < idx ==> (#[trigger] b0[i]).address < address,
            decreases len - idx,
        {
            idx = idx + 1;
        }
        proof {
            assert(b0 == old(self).blocks@);
            assert forall|i: int| 0 <= i < idx implies (#[trigger] b0[i]).end() <= address by {
                if b0[i].end() > address {
                    assert(b0[i].address <= (address as int) && (address as int) < b0[i].end());
                    lemma_block_in_contents(b0, i, address as int);
                    assert(old(self).contents().dom().contains(address as int));
                    assert(address <= (address as int) && (address as int) < address + data@.len());
                    assert(false);
                }
            }
            assert forall|i: int| idx <= i < len implies address + data@.len() <= (
            #[trigger] b0[i]).address by {
                assert(idx < len);
                assert(b0[idx as int].address >= address);
                if i > idx {
                    assert(b0[idx as int].end() < b0[i].address);
                    assert(b0[idx as int].data@.len() > 0);
                }
                assert(b0[i].address >= address);
                if b0[i].address < address + data@.len() {
                    assert(b0[i].data@.len() > 0);
                    lemma_block_in_contents(b0, i, b0[i].address as int);
                    assert(old(self).contents().dom().contains(b0[i].address as int));
                    assert(false);
                }
            }
        }
        let merge_prev = idx > 0 && self.blocks[idx - 1].address + (self.blocks[idx
            - 1].data.len() as u32) == address;
        let merge_next = idx < len && address + (data.len() as u32) == self.blocks[idx].address;
        let start_merge = if merge_prev {
            idx - 1
        } else {
            idx
        };
        let end_merge = if merge_next {
            idx + 1
        } else {
            idx
        };
        let mut tail = self.blocks.split_off(end_merge);
        let mut mid = self.blocks.split_off(start_merge);
        let ghost pre = b0.subrange(0, start_merge as int);
        let ghost post = b0.subrange(end_merge as int, len as int);
        let ghost d_prev: Seq<u8> = if merge_prev {
            b0[start_merge as int].data@
        } else {
            Seq::empty()
        };
        proof {
            assert(mid@ =~= b0.subrange(start_merge as int, end_merge as int));
        }
        let mut nd: Vec<u8> = Vec::new();
        let mut naddr = address;
        if merge_prev {
            let prev = mid.remove(0);
            proof {
                assert(prev == b0[start_merge as int]);
            }
            naddr = prev.address;
            nd = prev.data;
        }
        proof {
            assert(nd@ =~= d_prev);
        }
        nd.extend_from_slice(data.as_slice());
        proof {
            assert(nd@ =~= d_prev + data@);
        }
        if merge_next {
            let ghost nd1 = nd@;
            let ghost mid1 = mid@;
            let next = mid.remove(0);
            proof {
                assert(next == mid1[0]);
                if merge_prev {
                    assert(mid1 == b0.subrange(start_merge as int, end_merge as int).remove(0));
                    assert(mid1[0] == b0.subrange(start_merge as int, end_merge as int)[1]);
                } else {
                    assert(mid1[0] == b0.subrange(start_merge as int, end_merge as int)[0]);
                }
                assert(next == b0[idx as int]);
            }
            nd.extend_from_slice(next.data.as_slice());
            proof {
                assert(nd@ =~= nd1 + b0[idx as int].data@);
                assert(nd@ =~= d_prev + data@ + b0[idx as int].data@);
            }
        }
        let nb = Block { address: naddr, data: nd };
        proof {
            if merge_prev {
                let prev = b0[start_merge as int];
                lemma_range_concat(prev.address as int, prev.data@, data@);
                assert(range_contents(naddr as int, prev.data@ + data@) =~= prev
                    .contents().union_prefer_right(r));
                if merge_next {
                    let next = b0[idx as int];
                    lemma_range_concat(naddr as int, prev.data@ + data@, next.data@);
                    assert(nb.contents() =~= prev.contents().union_prefer_right(
                        r,
                    ).union_prefer_right(next.contents()));
                } else {
                    assert(nb.contents() =~= prev.contents().union_prefer_right(r));
                }
            } else {
                if merge_next {
                    let next = b0[idx as int];
                    lemma_range_concat(address as int, data@, next.data@);
                    assert(nd@ =~= data@ + next.data@);
                    assert(nb.contents() =~= r.union_prefer_right(next.contents()));
                } else {
                    assert(nd@ =~= data@);
                    assert(nb.contents() =~= r);
                }
            }
        }
        self.blocks.push(nb);
        self.blocks.append(&mut tail);
        proof {
            assert(self.blocks@ =~= pre + seq![nb] + post);
            assert(forall|a: int|
                r.dom().contains(a) <==> address <= a < address + data@.len());
            lemma_add_data_wf(b0, pre, post, nb, address as int, data@.len() as int,
                start_merge as int, idx as int, end_merge as int, self.blocks@);
            lemma_add_data_contents(b0, pre, post, nb, r, address as int, data@.len() as int,
                start_merge as int, idx as int, end_merge as int, self.blocks@);
            assert(self.contents() == old(self).contents().union_prefer_right(r));
        }
    }
}

/// The contents of a one-block sequence.
proof fn lemma_contents_singleton(b: Block)
    ensures
        blocks_contents(seq![b]) == b.contents(),
{
    assert(seq![b].drop_last() =~= Seq::<Block>::empty());
    assert(seq![b].last() == b);
    assert(blocks_contents(Seq::<Block>::empty()) == Map::<int, u8>::empty());
    assert(blocks_contents(seq![b]) == blocks_contents(Seq::<Block>::empty()).union_prefer_right(
        b.contents(),
    ));
    assert(Map::<int, u8>::empty().union_prefer_right(b.contents()) =~= b.contents());
}

/// The contents of a two-block sequence.
proof fn lemma_contents_pair(b1: Block, b2: Block)
    ensures
        blocks_contents(seq![b1, b2]) == b1.contents().union_prefer_right(b2.contents()),
{
    assert(seq![b1, b2].drop_last() =~= seq![b1]);
    assert(seq![b1, b2].last() == b2);
    lemma_contents_singleton(b1);
    assert(blocks_contents(seq![b1, b2]) == blocks_contents(seq![b1]).union_prefer_right(
        b2.contents(),
    ));
}

/// The reassembled block sequence keeps the image invariant.
proof fn lemma_add_data_wf(
    b0: Seq<Block>,
    pre: Seq<Block>,
    post: Seq<Block>,
    nb: Block,
    address: int,
    dlen: int,
    start_merge: int,
    idx: int,
    end_merge: int,
    bnew: Seq<Block>,
)
    requires
        0 < dlen,
        address + dlen <= u32::MAX,
        0 <= start_merge <= idx <= end_merge <= b0.len(),
        idx - start_merge <= 1,
        end_merge - idx <= 1,
        pre == b0.subrange(0, start_merge),
        post == b0.subrange(end_merge, b0.len() as int),
        bnew == pre + seq![nb] + post,
        forall|i: int| 0 <= i < b0.len() ==> (#[trigger] b0[i]).data@.len() > 0,
        forall|i: int| 0 <= i < b0.len() ==> (#[trigger] b0[i]).end() <= u32::MAX,
        forall|i: int, j: int|
            0 <= i < j < b0.len() ==> (#[trigger] b0[i]).end() < (#[trigger] b0[j]).address,
        forall|i: int| 0 <= i < idx ==> (#[trigger] b0[i]).end() <= address,
        forall|i: int| idx <= i < b0.len() ==> address + dlen <= (#[trigger] b0[i]).address,
        start_merge < idx ==> b0[start_merge].end() == address,
        start_merge == idx ==> (idx > 0 ==> b0[idx - 1].end() < address),
        idx < end_merge ==> b0[idx].address == address + dlen,
        idx == end_merge ==> (idx < b0.len() ==> address + dlen < b0[idx].address),
        nb.address as int == if start_merge < idx {
            b0[start_merge].address as int
        } else {
            address
        },
        nb.end() == if idx < end_merge {
            b0[idx].end()
        } else {
            address + dlen
        },
        nb.data@.len() > 0,
    ensures
        forall|i: int| 0 <= i < bnew.len() ==> (#[trigger] bnew[i]).data@.len() > 0,
        forall|i: int| 0 <= i < bnew.len() ==> (#[trigger] bnew[i]).end() <= u32::MAX,
        forall|i: int, j: int|
            0 <= i < j < bnew.len() ==> (#[trigger] bnew[i]).end() < (#[trigger] bnew[j]).address,
{
    let k = start_merge;
    assert forall|i: int| 0 <= i < bnew.len() implies (#[trigger] bnew[i]).data@.len() > 0 by {
        if i < k {
            assert(bnew[i] == b0[i]);
        } else if i > k {
            assert(bnew[i] == b0[i + (end_merge - k) - 1]);
        }
    }
    assert forall|i: int| 0 <= i < bnew.len() implies (#[trigger] bnew[i]).end() <= u32::MAX by {
        if i < k {
            assert(bnew[i] == b0[i]);
        } else if i > k {
            assert(bnew[i] == b0[i + (end_merge - k) - 1]);
        }
    }
    assert forall|i: int, j: int|
        0 <= i < j < bnew.len() implies (#[trigger] bnew[i]).end() < (
    #[trigger] bnew[j]).address by {
        if i < k && j < k {
            assert(bnew[i] == b0[i] && bnew[j] == b0[j]);
        } else if i < k && j == k {
            assert(bnew[i] == b0[i]);
            if start_merge < idx {
                assert(b0[i].end() < b0[start_merge].address);
            } else {
                assert(b0[i].end() <= address);
                if i < k - 1 {
                    assert(b0[i].end() < b0[k - 1].address < b0[k - 1].end());
                } else {
                    assert(b0[i].end() < address);
                }
            }
        } else if i < k && j > k {
            assert(bnew[i] == b0[i] && bnew[j] == b0[j + (end_merge - k) - 1]);
        } else if i == k && j > k {
            let jj = j + (end_merge - k) - 1;
            assert(bnew[j] == b0[jj]);
            assert(jj >= end_merge);
            if idx < end_merge {
                assert(nb.end() == b0[idx].end());
                if jj > idx {
                    assert(b0[idx].end() < b0[jj].address);
                }
            } else {
                assert(nb.end() == address + dlen);
                assert(address + dlen <= b0[jj].address);
                if jj > idx {
                    assert(b0[idx].address < b0[idx].end() && b0[idx].end() < b0[jj].address);
                } else {
                    assert(jj == idx && idx == end_merge);
                    assert(address + dlen < b0[jj].address);
                }
            }
        } else {
            assert(bnew[i] == b0[i + (end_merge - k) - 1] && bnew[j] == b0[j + (end_merge - k)
                - 1]);
        }
    }
}

/// The reassembled block sequence holds the old contents together with the
/// newly written range.
#[verifier::rlimit(100)]
proof fn lemma_add_data_contents(
    b0: Seq<Block>,
    pre: Seq<Block>,
    post: Seq<Block>,
    nb: Block,
    r: Map<int, u8>,
    address: int,
    dlen: int,
    start_merge: int,
    idx: int,
    end_merge: int,
    bnew: Seq<Block>,
)
    requires
        0 < dlen,
        address + dlen <= u32::MAX,
        0 <= start_merge <= idx <= end_merge <= b0.len(),
        idx - start_merge <= 1,
        end_merge - idx <= 1,
        pre == b0.subrange(0, start_merge),
        post == b0.subrange(end_merge, b0.len() as int),
        bnew == pre + seq![nb] + post,
        forall|i: int| 0 <= i < b0.len() ==> (#[trigger] b0[i]).end() <= u32::MAX,
        forall|i: int| 0 <= i < idx ==> (#[trigger] b0[i]).end() <= address,
        forall|i: int| idx <= i < b0.len() ==> address + dlen <= (#[trigger] b0[i]).address,
        start_merge < idx ==> b0[start_merge].end() == address,
        idx < end_merge ==> b0[idx].address == address + dlen,
        nb.contents() == if start_merge < idx {
            if idx < end_merge {
                b0[start_merge].contents().union_prefer_right(r).union_prefer_right(
                    b0[idx].contents(),
                )
            } else {
                b0[start_merge].contents().union_prefer_right(r)
            }
        } else {
            if idx < end_merge {
                r.union_prefer_right(b0[idx].contents())
            } else {
                r
            }
        },
        forall|a: int| r.dom().contains(a) <==> address <= a < address + dlen,
    ensures
        blocks_contents(bnew) == blocks_contents(b0).union_prefer_right(r),
{
    let k = start_merge;
    let mid = b0.subrange(k, end_merge);
    assert(b0 =~= pre + mid + post);
    lemma_contents_concat(pre + mid, post);
    lemma_contents_concat(pre, mid);
    lemma_contents_concat(pre + seq![nb], post);
    lemma_contents_concat(pre, seq![nb]);
    lemma_contents_singleton(nb);
    if start_merge < idx {
        if idx < end_merge {
            assert(mid =~= seq![b0[k], b0[idx]]);
            lemma_contents_pair(b0[k], b0[idx]);
        } else {
            assert(mid =~= seq![b0[k]]);
            lemma_contents_singleton(b0[k]);
        }
    } else {
        if idx < end_merge {
            assert(mid =~= seq![b0[idx]]);
            lemma_contents_singleton(b0[idx]);
        } else {
            assert(mid =~= Seq::<Block>::empty());
            assert(blocks_contents(mid) == Map::<int, u8>::empty());
        }
    }
    // bounds that make the unions commute where the order differs
    lemma_contents_bounds(post, address + dlen, u32::MAX as int + 1);
    lemma_contents_bounds(pre, 0, address);
    if start_merge < idx {
        assert(forall|a: int|
            b0[k].contents().dom().contains(a) ==> b0[k].address <= a < address);
    }
    if idx < end_merge {
        assert(forall|a: int|
            b0[idx].contents().dom().contains(a) ==> address + dlen <= a < b0[idx].end());
    }
    assert(blocks_contents(bnew) =~= blocks_contents(b0).union_prefer_right(r));
}

} // verus!
