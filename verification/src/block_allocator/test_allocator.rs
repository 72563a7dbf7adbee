use vstd::prelude::*;
use crate::block_allocator::BlockAllocateError;
use crate::block_allocator::BlockAllocator;
use crate::block_device::BlockDevice;
use crate::io_context::IOContext;
use crate::utils::cache::Cache;

verus! {

/// A counter that hands out block 1, then 2, and so on, and forgets what it
/// is given back.
pub struct TestAllocator {
    cur: u64,
}

impl TestAllocator {
    /// The block that comes next.
    pub closed spec fn upcoming(&self) -> u64 {
        self.cur
    }

    /// An allocator whose first block is 1.
    pub fn new() -> (a: Self)
        ensures
            a.upcoming() == 1,
    {
        Self { cur: 1 }
    }
}

impl BlockAllocator for TestAllocator {
    open spec fn wf(&self, shown: Seq<Seq<u8>>) -> bool {
        true
    }

    open spec fn reach(&self, shown: Seq<Seq<u8>>) -> Set<u64> {
        Set::new(|b: u64| self.upcoming() <= b < u64::MAX)
    }

    open spec fn supply(&self, shown: Seq<Seq<u8>>) -> nat {
        if self.upcoming() < shown.len() && shown.len() <= u64::MAX {
            (shown.len() - self.upcoming()) as nat
        } else {
            0
        }
    }

    proof fn lemma_frame(&self, before: Seq<Seq<u8>>, now: Seq<Seq<u8>>) {
    }

    fn alloc_block<D: BlockDevice, C: Cache<Vec<u8>>>(&mut self, ioc: &mut IOContext<D, C>) -> (r: Result<
        u64,
        BlockAllocateError,
    >)
        ensures
            r == (if old(self).upcoming() < u64::MAX {
                Ok::<u64, BlockAllocateError>(old(self).upcoming())
            } else {
                Err::<u64, BlockAllocateError>(BlockAllocateError::NoFreeBlocks)
            }),
            r is Ok ==> final(self).upcoming() == old(self).upcoming() + 1,
            *final(ioc) == *old(ioc),
    {
        if self.cur == u64::MAX {
            return Err(BlockAllocateError::NoFreeBlocks);
        }
        let block = self.cur;
        self.cur = self.cur + 1;
        Ok(block)
    }

    fn free<D: BlockDevice, C: Cache<Vec<u8>>>(&mut self, ioc: &mut IOContext<D, C>, idx: u64) -> (r: Result<
        (),
        BlockAllocateError,
    >)
        ensures
            r is Ok,
            final(self).upcoming() == old(self).upcoming(),
            *final(ioc) == *old(ioc),
    {
        Ok(())
    }
}

} // verus!
