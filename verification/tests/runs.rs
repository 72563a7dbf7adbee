use blockfs::block_allocator::bptree_allocator::BPTreeAllocator;
use blockfs::block_allocator::take_blocks;
use blockfs::block_allocator::test_allocator::TestAllocator;
use blockfs::block_allocator::BlockAllocator;
use blockfs::block_device::mem_disk::MemDisk;
use blockfs::io_context::IOContext;
use blockfs::utils::bp_tree::bp_tree_node::NodeView;
use blockfs::utils::bp_tree::BPTree;
use blockfs::utils::bp_tree::BPTreeError;
use blockfs::utils::cache::lru::LRU;

type Context = IOContext<MemDisk, LRU<Vec<u8>>>;

#[test]
fn a_run_of_inserts_holds_the_last_value_of_each_key() {
    let mut ioc: Context = IOContext::new(8, MemDisk::new(1024 * 1024));
    let mut tree = BPTree::new(&ioc, Some(TestAllocator::new()));
    let list: Vec<(u64, u64)> = vec![(5, 1), (9, 2), (5, 3), (1, 4), (9, 5), (7, 6)];
    let (done, result) = tree.insert_all(&mut ioc, &list);
    assert_eq!(done, 6);
    assert!(result.is_ok());
    assert_eq!(tree.get(&mut ioc, 5).unwrap(), Some(3));
    assert_eq!(tree.get(&mut ioc, 9).unwrap(), Some(5));
    assert_eq!(tree.get(&mut ioc, 1).unwrap(), Some(4));
    assert_eq!(tree.get(&mut ioc, 7).unwrap(), Some(6));
    assert_eq!(tree.get(&mut ioc, 6).unwrap(), None);
    assert_eq!(tree.get(&mut ioc, 0).unwrap(), None);
}

#[test]
fn a_run_of_distinct_keys_comes_back_whole() {
    let mut ioc: Context = IOContext::new(16, MemDisk::new(4 * 1024 * 1024));
    let mut tree = BPTree::new(&ioc, Some(TestAllocator::new()));
    let list: Vec<(u64, u64)> = (0..500u64).map(|i| (i * 7919 % 1009, i)).collect();
    let (done, result) = tree.insert_all(&mut ioc, &list);
    assert_eq!((done, result.is_ok()), (500, true));
    for (key, val) in list.iter() {
        assert_eq!(tree.get(&mut ioc, *key).unwrap(), Some(*val));
    }
    let (done, result) = tree.insert_all(&mut ioc, &Vec::new());
    assert_eq!((done, result.is_ok()), (0, true));
}

#[test]
fn blocks_taken_in_a_run_are_distinct() {
    let mut ioc: Context = IOContext::new(16, MemDisk::new(4 * 1024 * 1024));
    let mut allocator = BPTreeAllocator::try_new(&mut ioc, 0).unwrap();
    let blocks = take_blocks(&mut allocator, &mut ioc, 100);
    assert_eq!(blocks, (1..=100u64).collect::<Vec<u64>>());
    let more = take_blocks(&mut allocator, &mut ioc, 3);
    assert_eq!(more, vec![101, 102, 103]);
    assert_eq!(take_blocks(&mut allocator, &mut ioc, 0), Vec::<u64>::new());
}

#[test]
fn a_run_of_blocks_ends_where_the_allocator_is_dry() {
    let mut ioc: Context = IOContext::new(4, MemDisk::new(4 * 1024));
    let mut allocator = BPTreeAllocator::try_new(&mut ioc, 0).unwrap();
    assert_eq!(take_blocks(&mut allocator, &mut ioc, 10), vec![1, 2, 3]);
    assert_eq!(take_blocks(&mut allocator, &mut ioc, 10), Vec::<u64>::new());
}

#[test]
fn a_tree_with_neither_root_nor_allocator_takes_nothing() {
    let mut ioc: Context = IOContext::new(4, MemDisk::new(8 * 1024));
    let mut tree: BPTree<TestAllocator> = BPTree::new(&ioc, None);
    assert!(matches!(tree.insert(&mut ioc, 3, 4), Err(BPTreeError::EmptyTree)));
    assert!(matches!(tree.get(&mut ioc, 3), Ok(None)));
    for idx in 0..8u64 {
        assert!(ioc.get(idx).unwrap().get().iter().all(|b| *b == 0));
    }
}

#[test]
fn a_tree_over_its_own_records_takes_an_entry_where_the_leaf_has_room() {
    let mut ioc: Context = IOContext::new(4, MemDisk::new(64 * 1024));
    let mut tree: BPTree<TestAllocator> = BPTree::new_as_block_manager(&mut ioc, 0).unwrap();
    assert!(tree.insert(&mut ioc, 40, 2).is_ok());
    assert_eq!(tree.get(&mut ioc, 40).unwrap(), Some(2));
    assert_eq!(tree.get(&mut ioc, 1).unwrap(), Some(63));
    let handle = ioc.get(0).unwrap();
    let node = NodeView::get_from_bytes(handle.get(), 62).unwrap();
    assert_eq!(node.header().num_keys, 2);
    assert_eq!((node.key(0), node.val(0)), (1, 63));
    assert_eq!((node.key(1), node.val(1)), (40, 2));
}

#[test]
fn the_first_entry_makes_one_leaf() {
    let mut ioc: Context = IOContext::new(4, MemDisk::new(64 * 1024));
    let mut tree = BPTree::new(&ioc, Some(TestAllocator::new()));
    tree.insert(&mut ioc, 7, 1).unwrap();
    tree.insert(&mut ioc, 7, 2).unwrap();
    {
        let handle = ioc.get(1).unwrap();
        let node = NodeView::get_from_bytes(handle.get(), 62).unwrap();
        let header = node.header();
        assert_eq!((header.is_leaf, header.num_keys, header.next), (1, 1, u64::MAX));
        assert_eq!((node.key(0), node.val(0)), (7, 2));
    }
    // the second put took no block: block 2 is as the device was made
    assert!(ioc.get(2).unwrap().get().iter().all(|b| *b == 0));
}

#[test]
fn a_full_root_is_cut_in_the_middle() {
    let mut ioc: Context = IOContext::new(8, MemDisk::new(64 * 1024));
    let mut tree = BPTree::new(&ioc, Some(TestAllocator::new()));
    for key in 1..=62u64 {
        tree.insert(&mut ioc, key, key + 500).unwrap();
    }
    {
        let handle = ioc.get(2).unwrap();
        let node = NodeView::get_from_bytes(handle.get(), 62).unwrap();
        let header = node.header();
        assert_eq!((header.is_leaf, header.num_keys), (0, 1));
        assert_eq!(node.key(0), 31);
        assert_eq!((node.val(0), node.val(1)), (1, 3));
    }
    {
        let handle = ioc.get(1).unwrap();
        let node = NodeView::get_from_bytes(handle.get(), 62).unwrap();
        let header = node.header();
        assert_eq!((header.is_leaf, header.num_keys, header.next), (1, 30, 3));
        for at in 0..30u64 {
            assert_eq!((node.key(at), node.val(at)), (at + 1, at + 501));
        }
    }
    {
        let handle = ioc.get(3).unwrap();
        let node = NodeView::get_from_bytes(handle.get(), 62).unwrap();
        let header = node.header();
        assert_eq!((header.is_leaf, header.num_keys, header.next), (1, 32, u64::MAX));
        for at in 0..32u64 {
            assert_eq!((node.key(at), node.val(at)), (at + 31, at + 531));
        }
    }
    for key in 1..=62u64 {
        assert_eq!(tree.get(&mut ioc, key).unwrap(), Some(key + 500));
    }
}

#[test]
fn a_run_of_inserts_on_a_sound_device_goes_through() {
    let mut ioc: Context = IOContext::new(2, MemDisk::new(4 * 1024 * 1024));
    let allocator = BPTreeAllocator::try_new(&mut ioc, 0).unwrap();
    let mut tree = BPTree::new(&ioc, Some(allocator));
    let list: Vec<(u64, u64)> = (0..300u64).map(|i| (300 - i, i)).collect();
    let (done, result) = tree.insert_all(&mut ioc, &list);
    assert_eq!((done, result.is_ok()), (300, true));
    for (key, val) in list.iter() {
        assert_eq!(tree.get(&mut ioc, *key).unwrap(), Some(*val));
    }
}

#[test]
fn a_block_goes_back_into_a_full_leaf_where_an_entry_takes_it() {
    let mut ioc: Context = IOContext::new(4, MemDisk::new(256 * 1024));
    let mut allocator = BPTreeAllocator::try_new(&mut ioc, 0).unwrap();
    assert_eq!(take_blocks(&mut allocator, &mut ioc, 255).len(), 255);
    assert!(allocator.alloc_block(&mut ioc).is_err());
    for i in 0..61u64 {
        assert_eq!(allocator.free(&mut ioc, 3 * i + 1), Ok(()));
    }
    {
        let handle = ioc.get(0).unwrap();
        let node = NodeView::get_from_bytes(handle.get(), 62).unwrap();
        assert_eq!(node.header().num_keys, 61);
    }
    // the leaf is full: a block that needs an entry of its own finds no room
    assert!(allocator.free(&mut ioc, 200).is_err());
    // one that an entry takes at its end or at its start goes in
    assert_eq!(allocator.free(&mut ioc, 2), Ok(()));
    assert_eq!(allocator.free(&mut ioc, 3), Ok(()));
    assert_eq!(allocator.free(&mut ioc, 6), Ok(()));
    {
        let handle = ioc.get(0).unwrap();
        let node = NodeView::get_from_bytes(handle.get(), 62).unwrap();
        assert_eq!(node.header().num_keys, 61);
        assert_eq!((node.key(0), node.val(0)), (1, 3));
        assert_eq!((node.key(1), node.val(1)), (4, 1));
        assert_eq!((node.key(2), node.val(2)), (6, 2));
    }
    assert_eq!(take_blocks(&mut allocator, &mut ioc, 5), vec![1, 2, 3, 4, 6]);
}
