//! Data that waits to be compressed, in blocks.
use crate::memory::Slice;
use crate::vm::{addresses, lemma_push, span, within};
use vstd::prelude::*;

verus! {

/// Block size in bits.
pub const BLOCK_SIZE: usize = 512;

/// A block of data.
#[derive(Debug)]
pub struct Block {
    /// The slices that hold the data.
    pub data: Vec<Slice>,
    /// The length in bits.
    pub len: usize,
}

impl Block {
    /// The length is that of the slices, and the block is not empty.
    pub open spec fn wf(self) -> bool {
        &&& self.len == addresses(self.data@).len()
        &&& 0 < self.len <= BLOCK_SIZE
    }

    /// Returns the length in bytes, rounding up for partial bytes.
    pub fn len_bytes(&self) -> (r: u32)
        requires
            self.wf(),
        ensures
            r == (self.len + 7) / 8,
    {
        ((self.len + 7) / 8) as u32
    }
}

/// The addresses of the data of some blocks, in order.
pub open spec fn stream(blocks: Seq<Block>) -> Seq<int>
    decreases blocks.len(),
{
    if blocks.len() == 0 {
        Seq::empty()
    } else {
        stream(blocks.drop_last()) + addresses(blocks.last().data@)
    }
}

/// All blocks but the last one are full.
pub open spec fn blocks_wf(blocks: Seq<Block>) -> bool {
    &&& forall|i: int| 0 <= i < blocks.len() ==> (#[trigger] blocks[i]).wf()
    &&& forall|i: int| 0 <= i < blocks.len() - 1 ==> (#[trigger] blocks[i]).len == BLOCK_SIZE
}

/// The data lies within the first `n` cells.
pub open spec fn blocks_within(blocks: Seq<Block>, n: nat) -> bool {
    forall|i: int| 0 <= i < blocks.len() ==> within((#[trigger] blocks[i]).data@, n)
}

/// The addresses of blocks to which one is added.
pub proof fn lemma_stream_push(blocks: Seq<Block>, b: Block)
    ensures
        stream(blocks.push(b)) == stream(blocks) + addresses(b.data@),
{
    assert(blocks.push(b).drop_last() =~= blocks);
}

/// Where the data of each block stands in the stream.
pub proof fn lemma_stream(blocks: Seq<Block>, i: int)
    requires
        blocks_wf(blocks),
        0 <= i < blocks.len(),
    ensures
        stream(blocks).len() == BLOCK_SIZE * (blocks.len() - 1) + blocks.last().len,
        BLOCK_SIZE * i + blocks[i].len <= stream(blocks).len(),
        addresses(blocks[i].data@) == stream(blocks).subrange(
            BLOCK_SIZE * i,
            BLOCK_SIZE * i + blocks[i].len,
        ),
    decreases blocks.len(),
{
    let rest = blocks.drop_last();
    let last = blocks.last();
    assert(last == blocks[blocks.len() - 1]);
    assert(last.wf());
    if rest.len() > 0 {
        assert forall|j: int| 0 <= j < rest.len() implies (#[trigger] rest[j]).wf() by {
            assert(rest[j] == blocks[j]);
        }
        assert forall|j: int| 0 <= j < rest.len() - 1 implies (#[trigger] rest[j]).len
            == BLOCK_SIZE by {
            assert(rest[j] == blocks[j]);
        }
        assert(rest.last() == blocks[blocks.len() - 2]);
        assert(rest.last().len == BLOCK_SIZE);
        if i < rest.len() {
            lemma_stream(rest, i);
            assert(rest[i] == blocks[i]);
            assert(stream(blocks).subrange(BLOCK_SIZE * i, BLOCK_SIZE * i + blocks[i].len)
                =~= stream(rest).subrange(BLOCK_SIZE * i, BLOCK_SIZE * i + blocks[i].len));
        } else {
            lemma_stream(rest, 0);
            assert(addresses(last.data@) =~= stream(blocks).subrange(
                BLOCK_SIZE * i,
                BLOCK_SIZE * i + last.len,
            ));
        }
    } else {
        assert(rest =~= Seq::empty());
        assert(stream(blocks) =~= addresses(last.data@));
        assert(addresses(last.data@) =~= stream(blocks).subrange(0, last.len as int));
    }
}

/// Adds data to the blocks: the last block is filled first.
pub fn append(blocks: &mut Vec<Block>, data: Slice)
    requires
        blocks_wf(old(blocks)@),
        data.wf(),
    ensures
        blocks_wf(final(blocks)@),
        stream(final(blocks)@) == stream(old(blocks)@) + span(data),
        forall|n: nat|
            blocks_within(old(blocks)@, n) && data.end() <= n ==> #[trigger] blocks_within(
                final(blocks)@,
                n,
            ),
{
    let mut data: Slice = data;
    if data.len() == 0 {
        assert(stream(blocks@) =~= stream(old(blocks)@) + span(data));
        return;
    }
    let ghost all = data;
    let ghost start = blocks@;

    // If the last block is not full, add the data to it.
    let count: usize = blocks.len();
    if count > 0 && blocks[count - 1].len < BLOCK_SIZE {
        match blocks.pop() {
            Some(block) => {
                let mut block: Block = block;
                let ghost rest = blocks@;
                let ghost was = block;
                assert(start.last() == was && start.drop_last() =~= rest);
                assert(was == start[start.len() - 1]);
                let diff: usize = BLOCK_SIZE - block.len;
                let take: usize = if diff < data.len() {
                    diff
                } else {
                    data.len()
                };
                let (left, right) = data.split_at(take);
                block.data.push(left);
                block.len = block.len + left.len();
                proof {
                    lemma_push(was.data@, left);
                    lemma_stream_push(rest, block);
                    assert(span(all) =~= span(left) + span(right));
                    assert(stream(rest.push(block)) + span(right) =~= stream(start) + span(all));
                    let next = rest.push(block);
                    assert forall|i: int| 0 <= i < next.len() implies (#[trigger] next[i]).wf() by {
                        if i < rest.len() {
                            assert(next[i] == start[i]);
                        }
                    }
                    assert forall|i: int| 0 <= i < next.len() - 1 implies (#[trigger] next[i]).len
                        == BLOCK_SIZE by {
                        assert(next[i] == start[i]);
                    }
                    assert forall|n: nat|
                        blocks_within(start, n) && all.end() <= n implies #[trigger] blocks_within(
                        next,
                        n,
                    ) by {
                        assert forall|i: int| 0 <= i < next.len() implies within(
                            (#[trigger] next[i]).data@,
                            n,
                        ) by {
                            assert(within(start[i].data@, n));
                            if i < rest.len() {
                                assert(next[i] == start[i]);
                            } else {
                                assert forall|j: int| 0 <= j < block.data@.len() implies (
                                #[trigger] block.data@[j]).end() <= n by {
                                    if j < was.data@.len() {
                                        assert(was.data@[j].end() <= n);
                                    }
                                }
                            }
                        }
                    }
                }
                blocks.push(block);
                data = right;
            },
            None => {},
        }
    } else {
        assert(stream(blocks@) + span(data) =~= stream(start) + span(all));
    }

    // Partitions the rest of the data into blocks.
    while data.len() > 0
        invariant
            data.wf(),
            all.wf(),
            data.end() == all.end(),
            blocks_wf(blocks@),
            data.size > 0 ==> blocks@.len() == 0 || blocks@.last().len == BLOCK_SIZE,
            stream(blocks@) + span(data) == stream(start) + span(all),
            forall|n: nat|
                blocks_within(start, n) && all.end() <= n ==> #[trigger] blocks_within(blocks@, n),
        decreases data.size,
    {
        let take: usize = if BLOCK_SIZE < data.len() {
            BLOCK_SIZE
        } else {
            data.len()
        };
        let (left, right) = data.split_at(take);
        let mut slices: Vec<Slice> = Vec::new();
        slices.push(left);
        let ghost before = blocks@;
        let block: Block = Block { data: slices, len: left.len() };
        let ghost added = block;
        blocks.push(block);
        proof {
            assert(added.data@ =~= Seq::<Slice>::empty().push(left));
            lemma_push(Seq::empty(), left);
            assert(addresses(added.data@) =~= span(left));
            lemma_stream_push(before, added);
            assert(span(data) =~= span(left) + span(right));
            assert(stream(blocks@) + span(right) =~= stream(before) + span(data));
            assert forall|i: int| 0 <= i < blocks@.len() implies (#[trigger] blocks@[i]).wf() by {
                if i < before.len() {
                    assert(blocks@[i] == before[i]);
                }
            }
            assert forall|i: int| 0 <= i < blocks@.len() - 1 implies (#[trigger] blocks@[i]).len
                == BLOCK_SIZE by {
                assert(blocks@[i] == before[i]);
            }
            assert forall|n: nat|
                blocks_within(start, n) && all.end() <= n implies #[trigger] blocks_within(
                blocks@,
                n,
            ) by {
                assert(blocks_within(before, n));
                assert forall|i: int| 0 <= i < blocks@.len() implies within(
                    (#[trigger] blocks@[i]).data@,
                    n,
                ) by {
                    if i < before.len() {
                        assert(blocks@[i] == before[i]);
                    }
                }
            }
        }
        data = right;
    }
    assert(stream(blocks@) =~= stream(start) + span(all));
}

} // verus!
