use blockfs::block_allocator::bptree_allocator::BPTreeAllocator;
use blockfs::block_allocator::test_allocator::TestAllocator;
use blockfs::block_allocator::BlockAllocateError;
use blockfs::block_allocator::BlockAllocator;
use blockfs::block_device::mem_disk::MemDisk;
use blockfs::block_device::BlockDeviceError;
use blockfs::io_context::IOContext;
use blockfs::utils::bp_tree::bp_tree_node::NodeView;
use blockfs::utils::bp_tree::BPTree;
use blockfs::utils::bp_tree::BPTreeError;
use blockfs::utils::cache::lru::LRU;

type Context = IOContext<MemDisk, LRU<Vec<u8>>>;

#[test]
fn extent_allocator_hands_out_the_blocks_in_order() {
    let mut ioc: Context = IOContext::new(16, MemDisk::new(4 * 1024 * 1024));
    let mut allocator = BPTreeAllocator::try_new(&mut ioc, 0).unwrap();
    let mut last = 0;
    for i in 0..100u64 {
        let block = allocator.alloc_block(&mut ioc).unwrap();
        assert_eq!(block, i + 1);
        assert!(block > last);
        last = block;
    }
    let handle = ioc.get(0).unwrap();
    let node = NodeView::get_from_bytes(handle.get(), 62).unwrap();
    let header = node.header();
    assert_eq!(header.is_leaf, 1);
    assert_eq!(header.num_keys, 1);
    assert_eq!(header.next, u64::MAX);
    assert_eq!((node.key(0), node.val(0)), (101, 3995));
}

#[test]
fn bootstrap_writes_one_extent_behind_the_first_block() {
    let mut ioc: Context = IOContext::new(4, MemDisk::new(64 * 1024));
    let tree: BPTree<TestAllocator> = BPTree::new_as_block_manager(&mut ioc, 5).unwrap();
    assert_eq!(tree.get_m(), 62);
    let handle = ioc.get(5).unwrap();
    let bytes = handle.get().to_vec();
    assert_eq!(bytes[0], 1);
    assert_eq!(&bytes[1..8], &[0u8; 7]);
    assert_eq!(&bytes[8..16], &1u64.to_le_bytes());
    assert_eq!(&bytes[16..24], &u64::MAX.to_le_bytes());
    assert_eq!(&bytes[24..32], &6u64.to_le_bytes());
    assert_eq!(&bytes[24 + 8 * 62..32 + 8 * 62], &58u64.to_le_bytes());
}

#[test]
fn bootstrap_refuses_a_block_outside_the_device() {
    let mut ioc: Context = IOContext::new(4, MemDisk::new(64 * 1024));
    let r: Result<BPTree<TestAllocator>, BPTreeError> = BPTree::new_as_block_manager(&mut ioc, 64);
    assert!(matches!(
        r,
        Err(BPTreeError::DiskError(BlockDeviceError::IdxOutOfRange { idx: 64, max: 64 }))
    ));
}

#[test]
fn extent_allocator_runs_dry() {
    let mut ioc: Context = IOContext::new(4, MemDisk::new(4 * 1024));
    let mut allocator = BPTreeAllocator::try_new(&mut ioc, 0).unwrap();
    assert_eq!(allocator.alloc_block(&mut ioc).unwrap(), 1);
    assert_eq!(allocator.alloc_block(&mut ioc).unwrap(), 2);
    assert_eq!(allocator.alloc_block(&mut ioc).unwrap(), 3);
    assert_eq!(allocator.alloc_block(&mut ioc), Err(BlockAllocateError::NoFreeBlocks));
    assert_eq!(allocator.alloc_block(&mut ioc), Err(BlockAllocateError::NoFreeBlocks));
}

#[test]
fn pop_fails_with_empty_tree_when_nothing_is_left() {
    let mut ioc: Context = IOContext::new(4, MemDisk::new(2 * 1024));
    let mut tree: BPTree<TestAllocator> = BPTree::new_as_block_manager(&mut ioc, 0).unwrap();
    assert_eq!(tree.pop_first_extent_block(&mut ioc).unwrap(), 1);
    assert!(matches!(tree.pop_first_extent_block(&mut ioc), Err(BPTreeError::EmptyTree)));
    let empty: BPTree<TestAllocator> = BPTree::new(&ioc, None);
    let mut empty = empty;
    assert!(matches!(empty.pop_first_extent_block(&mut ioc), Err(BPTreeError::EmptyTree)));
}

#[test]
fn counter_allocator_counts_from_one() {
    let mut ioc: Context = IOContext::new(4, MemDisk::new(4 * 1024));
    let mut allocator = TestAllocator::new();
    assert_eq!(allocator.alloc_block(&mut ioc), Ok(1));
    assert_eq!(allocator.alloc_block(&mut ioc), Ok(2));
    assert_eq!(allocator.free(&mut ioc, 1), Ok(()));
    assert_eq!(allocator.alloc_block(&mut ioc), Ok(3));
}

#[test]
fn tree_reports_a_block_outside_the_device() {
    let mut ioc: Context = IOContext::new(4, MemDisk::new(2 * 1024));
    let mut allocator = TestAllocator::new();
    assert_eq!(allocator.alloc_block(&mut ioc), Ok(1));
    let mut tree = BPTree::new(&ioc, Some(allocator));
    assert!(matches!(
        tree.insert(&mut ioc, 1, 1),
        Err(BPTreeError::DiskError(BlockDeviceError::IdxOutOfRange { idx: 2, max: 2 }))
    ));
}

#[test]
fn extent_allocator_takes_blocks_back() {
    let mut ioc: Context = IOContext::new(4, MemDisk::new(8 * 1024));
    let mut allocator = BPTreeAllocator::try_new(&mut ioc, 0).unwrap();
    for want in 1..=3 {
        assert_eq!(allocator.alloc_block(&mut ioc), Ok(want));
    }
    assert_eq!(allocator.free(&mut ioc, 2), Ok(()));
    {
        let handle = ioc.get(0).unwrap();
        let node = NodeView::get_from_bytes(handle.get(), 62).unwrap();
        assert_eq!(node.header().num_keys, 2);
        assert_eq!((node.key(0), node.val(0)), (2, 1));
        assert_eq!((node.key(1), node.val(1)), (4, 4));
    }
    assert_eq!(allocator.free(&mut ioc, 3), Ok(()));
    {
        let handle = ioc.get(0).unwrap();
        let node = NodeView::get_from_bytes(handle.get(), 62).unwrap();
        assert_eq!(node.header().num_keys, 2);
        assert_eq!((node.key(0), node.val(0)), (2, 2));
        assert_eq!((node.key(1), node.val(1)), (4, 4));
    }
    assert_eq!(allocator.free(&mut ioc, 1), Ok(()));
    {
        let handle = ioc.get(0).unwrap();
        let node = NodeView::get_from_bytes(handle.get(), 62).unwrap();
        assert_eq!(node.header().num_keys, 2);
        assert_eq!((node.key(0), node.val(0)), (1, 3));
        assert_eq!((node.key(1), node.val(1)), (4, 4));
    }
    for want in 1..=7 {
        assert_eq!(allocator.alloc_block(&mut ioc), Ok(want));
    }
    assert_eq!(allocator.alloc_block(&mut ioc), Err(BlockAllocateError::NoFreeBlocks));
    assert_eq!(allocator.free(&mut ioc, 7), Ok(()));
    assert_eq!(allocator.alloc_block(&mut ioc), Ok(7));
}

#[test]
fn extent_allocator_refuses_a_block_outside_the_device() {
    let mut ioc: Context = IOContext::new(4, MemDisk::new(8 * 1024));
    let mut allocator = BPTreeAllocator::try_new(&mut ioc, 0).unwrap();
    assert_eq!(allocator.alloc_block(&mut ioc), Ok(1));
    assert_eq!(allocator.free(&mut ioc, 8), Err(BlockAllocateError::IdxOutOfRange));
    assert_eq!(allocator.free(&mut ioc, u64::MAX), Err(BlockAllocateError::IdxOutOfRange));
}

#[test]
fn extent_allocator_refuses_a_block_that_is_free_or_its_own() {
    let mut ioc: Context = IOContext::new(4, MemDisk::new(16 * 1024));
    let mut allocator = BPTreeAllocator::try_new(&mut ioc, 0).unwrap();
    for want in 1..=6 {
        assert_eq!(allocator.alloc_block(&mut ioc), Ok(want));
    }
    // the block of the records
    assert_eq!(allocator.free(&mut ioc, 0), Err(BlockAllocateError::IdxOutOfRange));
    // blocks of the extent that is left
    assert_eq!(allocator.free(&mut ioc, 7), Err(BlockAllocateError::IdxOutOfRange));
    assert_eq!(allocator.free(&mut ioc, 15), Err(BlockAllocateError::IdxOutOfRange));
    assert_eq!(allocator.free(&mut ioc, 3), Ok(()));
    // twice
    assert_eq!(allocator.free(&mut ioc, 3), Err(BlockAllocateError::IdxOutOfRange));
    assert_eq!(allocator.free(&mut ioc, 4), Ok(()));
    assert_eq!(allocator.free(&mut ioc, 3), Err(BlockAllocateError::IdxOutOfRange));
    assert_eq!(allocator.free(&mut ioc, 4), Err(BlockAllocateError::IdxOutOfRange));
    assert_eq!(allocator.free(&mut ioc, 6), Ok(()));
    assert_eq!(allocator.free(&mut ioc, 6), Err(BlockAllocateError::IdxOutOfRange));
    for want in [3, 4, 6, 7] {
        assert_eq!(allocator.alloc_block(&mut ioc), Ok(want));
    }
}

#[test]
fn extent_allocator_cannot_record_more_extents_than_a_leaf_holds() {
    let mut ioc: Context = IOContext::new(4, MemDisk::new(256 * 1024));
    let mut allocator = BPTreeAllocator::try_new(&mut ioc, 0).unwrap();
    for want in 1..=255 {
        assert_eq!(allocator.alloc_block(&mut ioc), Ok(want));
    }
    assert_eq!(allocator.alloc_block(&mut ioc), Err(BlockAllocateError::NoFreeBlocks));
    // every second block: no two of them touch, so each needs an entry of its own
    let mut taken = 0;
    for i in 0..70u64 {
        match allocator.free(&mut ioc, 2 * i + 1) {
            Ok(()) => taken += 1,
            Err(e) => {
                assert_eq!(e, BlockAllocateError::NoFreeBlocks);
                break;
            }
        }
    }
    assert_eq!(taken, 61);
    assert_eq!(allocator.free(&mut ioc, 2), Ok(()));
    assert_eq!(allocator.alloc_block(&mut ioc), Ok(1));
    assert_eq!(allocator.alloc_block(&mut ioc), Ok(2));
    assert_eq!(allocator.alloc_block(&mut ioc), Ok(3));
    assert_eq!(allocator.alloc_block(&mut ioc), Ok(5));
}

#[test]
fn pop_passes_entries_of_length_zero() {
    let mut ioc: Context = IOContext::new(4, MemDisk::new(16 * 1024));
    let mut tree: BPTree<TestAllocator> = BPTree::new_as_block_manager(&mut ioc, 0).unwrap();
    {
        let mut handle = ioc.get_mut(0).unwrap();
        let bytes = handle.get();
        // three entries: (3, 0), (5, 2), (9, 1)
        bytes[8..16].copy_from_slice(&3u64.to_le_bytes());
        for (i, (key, val)) in [(3u64, 0u64), (5, 2), (9, 1)].iter().enumerate() {
            bytes[24 + 8 * i..32 + 8 * i].copy_from_slice(&key.to_le_bytes());
            bytes[24 + 8 * 62 + 8 * i..32 + 8 * 62 + 8 * i].copy_from_slice(&val.to_le_bytes());
        }
    }
    assert_eq!(tree.pop_first_extent_block(&mut ioc).unwrap(), 5);
    {
        let handle = ioc.get(0).unwrap();
        let node = NodeView::get_from_bytes(handle.get(), 62).unwrap();
        assert_eq!(node.header().num_keys, 2);
        assert_eq!((node.key(0), node.val(0)), (6, 1));
        assert_eq!((node.key(1), node.val(1)), (9, 1));
    }
    assert_eq!(tree.pop_first_extent_block(&mut ioc).unwrap(), 6);
    assert_eq!(tree.pop_first_extent_block(&mut ioc).unwrap(), 9);
    {
        let handle = ioc.get(0).unwrap();
        let node = NodeView::get_from_bytes(handle.get(), 62).unwrap();
        assert_eq!(node.header().num_keys, 1);
        assert_eq!((node.key(0), node.val(0)), (10, 0));
    }
    assert!(matches!(tree.pop_first_extent_block(&mut ioc), Err(BPTreeError::EmptyTree)));
    let handle = ioc.get(0).unwrap();
    let node = NodeView::get_from_bytes(handle.get(), 62).unwrap();
    assert_eq!(node.header().num_keys, 0);
}
