use vstd::prelude::*;
use crate::block_allocator::BlockAllocateError;
use crate::block_allocator::BlockAllocator;
use crate::block_device::BlockDevice;
use crate::io_context::IOContext;
use crate::utils::cache::Cache;

verus! {

/// The allocator of a tree that needs none: it is never well formed, so it
/// cannot be asked for anything.
pub struct NoneAllocator {}

impl BlockAllocator for NoneAllocator {
    open spec fn wf(&self, shown: Seq<Seq<u8>>) -> bool {
        false
    }

    open spec fn reach(&self, shown: Seq<Seq<u8>>) -> Set<u64> {
        Set::empty()
    }

    open spec fn supply(&self, shown: Seq<Seq<u8>>) -> nat {
        0
    }

    proof fn lemma_frame(&self, before: Seq<Seq<u8>>, now: Seq<Seq<u8>>) {
    }

    fn alloc_block<D: BlockDevice, C: Cache<Vec<u8>>>(&mut self, ioc: &mut IOContext<D, C>) -> (r: Result<
        u64,
        BlockAllocateError,
    >) {
        vstd::pervasive::unreached()
    }

    fn free<D: BlockDevice, C: Cache<Vec<u8>>>(&mut self, ioc: &mut IOContext<D, C>, idx: u64) -> (r: Result<
        (),
        BlockAllocateError,
    >) {
        vstd::pervasive::unreached()
    }
}

} // verus!
