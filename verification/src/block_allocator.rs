use vstd::prelude::*;
use crate::block_device::BlockDevice;
use crate::io_context::IOContext;
use crate::io_context::same_device;
use crate::utils::cache::Cache;

pub mod bptree_allocator;
pub mod none_allocator;
pub mod test_allocator;

verus! {

/// Why an allocator refused.
#[derive(Debug, Clone, Copy, PartialEq, Eq)]
pub enum BlockAllocateError {
    IdxOutOfRange,
    NoFreeBlocks,
}

/// The blocks of `now` outside `reach` are those of `before`.
pub open spec fn same_outside(before: Seq<Seq<u8>>, now: Seq<Seq<u8>>, reach: Set<u64>) -> bool {
    &&& now.len() == before.len()
    &&& forall|i: int| 0 <= i < before.len() && !reach.contains(i as u64) ==> #[trigger] now[i] == before[i]
}

/// A supplier of block indices.
///
/// An allocator may keep its records in blocks of the device that it hands
/// out blocks of. `reach` is every block that it reads, writes or may hand
/// out: whoever uses the allocator keeps its own blocks out of it.
pub trait BlockAllocator: Sized {
    /// The allocator is well formed over the blocks `shown`.
    spec fn wf(&self, shown: Seq<Seq<u8>>) -> bool;

    /// The blocks that the allocator reads, writes or may hand out.
    spec fn reach(&self, shown: Seq<Seq<u8>>) -> Set<u64>;

    /// How many allocations in a row are sure to give a block of the device,
    /// as long as the device does not fail.
    spec fn supply(&self, shown: Seq<Seq<u8>>) -> nat;

    /// The allocator depends on the blocks within its reach only.
    proof fn lemma_frame(&self, before: Seq<Seq<u8>>, now: Seq<Seq<u8>>)
        requires
            self.wf(before),
            now.len() == before.len(),
            forall|i: int| 0 <= i < before.len() && self.reach(before).contains(i as u64) ==> #[trigger] now[i] == before[i],
        ensures
            self.wf(now),
            self.reach(now) == self.reach(before),
            self.supply(now) == self.supply(before),
    ;

    /// Hands out a block. The block was within reach and is no longer; the
    /// reach does not grow; no block outside the reach changes.
    fn alloc_block<D: BlockDevice, C: Cache<Vec<u8>>>(&mut self, ioc: &mut IOContext<D, C>) -> (r: Result<
        u64,
        BlockAllocateError,
    >)
        requires
            old(ioc).wf(),
            old(self).wf(old(ioc)@),
        ensures
            final(ioc).wf(),
            same_device(old(ioc).device(), final(ioc).device()),
            final(ioc).pool().limit() == old(ioc).pool().limit(),
            final(self).wf(final(ioc)@),
            same_outside(old(ioc)@, final(ioc)@, old(self).reach(old(ioc)@)),
            final(self).reach(final(ioc)@).subset_of(old(self).reach(old(ioc)@)),
            r matches Ok(block) ==> old(self).reach(old(ioc)@).contains(block) && !final(self).reach(
                final(ioc)@,
            ).contains(block),
            r matches Err(e) ==> e == BlockAllocateError::NoFreeBlocks,
            old(ioc).dependable() && old(self).supply(old(ioc)@) > 0 ==> r is Ok && r->Ok_0 < old(ioc)@.len()
                && final(self).supply(final(ioc)@) == old(self).supply(old(ioc)@) - 1,
    ;

    /// Takes a block back, or refuses it. The reach grows by that block at
    /// most; no block outside the reach changes.
    fn free<D: BlockDevice, C: Cache<Vec<u8>>>(&mut self, ioc: &mut IOContext<D, C>, idx: u64) -> (r: Result<
        (),
        BlockAllocateError,
    >)
        requires
            old(ioc).wf(),
            old(self).wf(old(ioc)@),
        ensures
            final(ioc).wf(),
            same_device(old(ioc).device(), final(ioc).device()),
            final(ioc).pool().limit() == old(ioc).pool().limit(),
            final(self).wf(final(ioc)@),
            same_outside(old(ioc)@, final(ioc)@, old(self).reach(old(ioc)@)),
            final(self).reach(final(ioc)@).subset_of(old(self).reach(old(ioc)@).insert(idx)),
            final(self).supply(final(ioc)@) >= old(self).supply(old(ioc)@),
    ;
}

/// Takes up to `n` blocks from the allocator, one after the other, and stops
/// when the allocator refuses. No block comes twice: each was within the
/// reach when it was taken and is not within the reach afterwards.
pub fn take_blocks<A: BlockAllocator, D: BlockDevice, C: Cache<Vec<u8>>>(
    allocator: &mut A,
    ioc: &mut IOContext<D, C>,
    n: usize,
) -> (blocks: Vec<u64>)
    requires
        old(ioc).wf(),
        old(allocator).wf(old(ioc)@),
    ensures
        final(ioc).wf(),
        same_device(old(ioc).device(), final(ioc).device()),
        final(allocator).wf(final(ioc)@),
        final(allocator).reach(final(ioc)@).subset_of(old(allocator).reach(old(ioc)@)),
        blocks@.len() <= n,
        forall|i: int, j: int| 0 <= i < j < blocks@.len() ==> blocks@[i] != blocks@[j],
        forall|i: int|
            0 <= i < blocks@.len() ==> old(allocator).reach(old(ioc)@).contains(#[trigger] blocks@[i])
                && !final(allocator).reach(final(ioc)@).contains(blocks@[i]),
        old(ioc).dependable() && old(allocator).supply(old(ioc)@) >= n ==> blocks@.len() == n,
{
    let mut blocks: Vec<u64> = Vec::new();
    let mut dry = false;
    while blocks.len() < n && !dry
        invariant
            ioc.wf(),
            same_device(old(ioc).device(), ioc.device()),
            allocator.wf(ioc@),
            allocator.reach(ioc@).subset_of(old(allocator).reach(old(ioc)@)),
            blocks@.len() <= n,
            forall|i: int, j: int| 0 <= i < j < blocks@.len() ==> blocks@[i] != blocks@[j],
            forall|i: int|
                0 <= i < blocks@.len() ==> old(allocator).reach(old(ioc)@).contains(#[trigger] blocks@[i])
                    && !allocator.reach(ioc@).contains(blocks@[i]),
            old(ioc).dependable() && old(allocator).supply(old(ioc)@) >= n ==> !dry && allocator.supply(ioc@)
                + blocks@.len() == old(allocator).supply(old(ioc)@),
        decreases n - blocks@.len() + (if dry {
            0int
        } else {
            1int
        }),
    {
        let ghost reach = allocator.reach(ioc@);
        match allocator.alloc_block(ioc) {
            Ok(block) => {
                proof {
                    assert forall|i: int| 0 <= i < blocks@.len() implies blocks@[i] != block by {
                        assert(!reach.contains(blocks@[i]));
                    }
                }
                blocks.push(block);
            },
            Err(_) => {
                dry = true;
            },
        }
    }
    blocks
}

/// Blocks that are handed out one after the other are distinct: where each
/// block of `blocks` was within the reach before it was handed out and not
/// after, and the reach never grew in between, no block occurs twice.
pub proof fn lemma_allocations_distinct(reaches: Seq<Set<u64>>, blocks: Seq<u64>)
    requires
        reaches.len() == blocks.len() + 1,
        forall|i: int| 0 <= i < blocks.len() ==> (#[trigger] reaches[i + 1]).subset_of(reaches[i]),
        forall|i: int| 0 <= i < blocks.len() ==> reaches[i].contains(#[trigger] blocks[i]) && !reaches[i + 1].contains(blocks[i]),
    ensures
        forall|i: int, j: int| 0 <= i < j < blocks.len() ==> blocks[i] != blocks[j],
{
    assert forall|i: int, j: int| 0 <= i < j < blocks.len() implies blocks[i] != blocks[j] by {
        lemma_reach_shrinks(reaches, i + 1, j);
        assert(reaches[j].contains(blocks[j]));
        assert(!reaches[i + 1].contains(blocks[i]));
    }
}

/// A reach that never grows is within every earlier reach.
pub proof fn lemma_reach_shrinks(reaches: Seq<Set<u64>>, from: int, to: int)
    requires
        0 <= from <= to < reaches.len(),
        forall|i: int| 0 <= i < reaches.len() - 1 ==> (#[trigger] reaches[i + 1]).subset_of(reaches[i]),
    ensures
        reaches[to].subset_of(reaches[from]),
    decreases to - from,
{
    if from < to {
        lemma_reach_shrinks(reaches, from, to - 1);
        assert(reaches[to - 1 + 1].subset_of(reaches[to - 1]));
    }
}

} // verus!
