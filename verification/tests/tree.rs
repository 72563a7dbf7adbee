use blockfs::block_allocator::bptree_allocator::BPTreeAllocator;
use blockfs::block_allocator::test_allocator::TestAllocator;
use blockfs::block_device::mem_disk::MemDisk;
use blockfs::io_context::IOContext;
use blockfs::utils::bp_tree::bp_tree_node::NodeView;
use blockfs::utils::bp_tree::BPTree;
use blockfs::utils::bp_tree::BPTreeError;
use blockfs::utils::cache::lru::LRU;
use blockfs::utils::cache::Cache;
use std::collections::HashSet;

fn mix(mut x: u64) -> u64 {
    x = (x ^ (x >> 30)).wrapping_mul(0xbf58476d1ce4e5b9);
    x = (x ^ (x >> 27)).wrapping_mul(0x94d049bb133111eb);
    x ^= x >> 31;
    x
}

#[test]
fn bp_tree_it_works() -> Result<(), BPTreeError> {
    let disk = MemDisk::new(4 * 1024 * 1024);
    let mut iocontext: IOContext<MemDisk, LRU<Vec<u8>>> = IOContext::new(1024, disk);
    let allocator = BPTreeAllocator::try_new(&mut iocontext, 0)?;

    let mut bptree = BPTree::new(&iocontext, Some(allocator));
    let m = bptree.get_m();

    for i in 0..64 * m {
        let key = mix(i);
        let val = mix(key);
        bptree.insert(&mut iocontext, key, val)?;
    }

    for i in 0..64 * m {
        let key = mix(i);
        let val = mix(key);
        assert_eq!(bptree.get(&mut iocontext, key)?, Some(val));
    }

    Ok(())
}

#[test]
fn tree_with_counter_allocator_round_trips() -> Result<(), BPTreeError> {
    let disk = MemDisk::new(8 * 1024 * 1024);
    let mut ioc: IOContext<MemDisk, LRU<Vec<u8>>> = IOContext::new(64, disk);
    let mut tree = BPTree::new(&ioc, Some(TestAllocator::new()));
    let m = tree.get_m();
    assert_eq!(m, 62);
    for i in 0..64 * m {
        let key = mix(i);
        tree.insert(&mut ioc, key, mix(key))?;
    }
    for i in 0..64 * m {
        let key = mix(i);
        assert_eq!(tree.get(&mut ioc, key)?, Some(mix(key)));
    }
    assert_eq!(tree.get(&mut ioc, 12345)?, None);
    Ok(())
}

#[test]
fn tree_keeps_the_last_value_of_a_key() -> Result<(), BPTreeError> {
    let disk = MemDisk::new(1024 * 1024);
    let mut ioc: IOContext<MemDisk, LRU<Vec<u8>>> = IOContext::new(8, disk);
    let mut tree = BPTree::new(&ioc, Some(TestAllocator::new()));
    assert_eq!(tree.get(&mut ioc, 7)?, None);
    tree.insert(&mut ioc, 7, 1)?;
    tree.insert(&mut ioc, 7, 2)?;
    assert_eq!(tree.get(&mut ioc, 7)?, Some(2));
    assert_eq!(tree.get(&mut ioc, 8)?, None);
    Ok(())
}

#[test]
fn tree_takes_keys_in_order() -> Result<(), BPTreeError> {
    let disk = MemDisk::new(1024 * 1024);
    let mut ioc: IOContext<MemDisk, LRU<Vec<u8>>> = IOContext::new(8, disk);
    let mut tree = BPTree::new(&ioc, Some(TestAllocator::new()));
    let m = tree.get_m();
    for key in 1..=4 * m {
        tree.insert(&mut ioc, key, key * 10)?;
        for seen in 1..=key {
            assert_eq!(tree.get(&mut ioc, seen)?, Some(seen * 10));
        }
        assert_eq!(tree.get(&mut ioc, key + 1)?, None);
        assert_eq!(tree.get(&mut ioc, 0)?, None);
    }
    Ok(())
}

#[test]
fn tree_replaces_a_value_in_place() -> Result<(), BPTreeError> {
    let disk = MemDisk::new(1024 * 1024);
    let mut ioc: IOContext<MemDisk, LRU<Vec<u8>>> = IOContext::new(8, disk);
    let mut tree = BPTree::new(&ioc, Some(TestAllocator::new()));
    tree.insert(&mut ioc, 9, 1)?;
    tree.insert(&mut ioc, 3, 2)?;
    {
        let handle = ioc.get(1).unwrap();
        let node = NodeView::get_from_bytes(handle.get(), 62).unwrap();
        assert_eq!(node.header().num_keys, 2);
        assert_eq!((node.key(0), node.val(0)), (3, 2));
        assert_eq!((node.key(1), node.val(1)), (9, 1));
    }
    tree.insert(&mut ioc, 9, 7)?;
    {
        let handle = ioc.get(1).unwrap();
        let node = NodeView::get_from_bytes(handle.get(), 62).unwrap();
        assert_eq!(node.header().num_keys, 2);
        assert_eq!((node.key(1), node.val(1)), (9, 7));
    }
    assert_eq!(tree.get(&mut ioc, 9)?, Some(7));
    Ok(())
}

/// Walks the tree under `block` and checks what holds of every node: keys
/// rise strictly and lie between the bounds, no node is full beyond `m - 1`
/// keys, and the leaves are met from left to right. Returns the leaves.
fn walk(
    ioc: &mut IOContext<MemDisk, LRU<Vec<u8>>>,
    m: u64,
    block: u64,
    lo: Option<u64>,
    hi: Option<u64>,
    leaves: &mut Vec<(u64, u64)>,
) -> usize {
    let bytes = ioc.get(block).unwrap().get().to_vec();
    let node = NodeView::get_from_bytes(&bytes, m).unwrap();
    let header = node.header();
    assert!(header.num_keys <= m - 1);
    let keys: Vec<u64> = (0..header.num_keys).map(|i| node.key(i)).collect();
    for pair in keys.windows(2) {
        assert!(pair[0] < pair[1]);
    }
    if header.is_leaf == 1 {
        for key in &keys {
            assert!(lo.map_or(true, |lo| lo <= *key));
            assert!(hi.map_or(true, |hi| *key < hi));
        }
        leaves.push((block, header.next));
        return keys.len();
    }
    assert_eq!(header.is_leaf, 0);
    assert!(header.num_keys >= 1);
    let mut count = 0;
    for i in 0..=header.num_keys {
        let from = if i == 0 { lo } else { Some(keys[i as usize - 1]) };
        let to = if i == header.num_keys { hi } else { Some(keys[i as usize]) };
        count += walk(ioc, m, node.val(i), from, to, leaves);
    }
    count
}

#[test]
fn tree_holds_its_shape_after_every_insert() -> Result<(), BPTreeError> {
    let disk = MemDisk::new(1024 * 1024);
    let mut ioc: IOContext<MemDisk, LRU<Vec<u8>>> = IOContext::new(8, disk);
    let mut tree = BPTree::new(&ioc, Some(TestAllocator::new()));
    let m = tree.get_m();
    for key in 1..=4 * m {
        tree.insert(&mut ioc, key, key)?;
        let mut leaves = Vec::new();
        let top = tree_root(&mut ioc, m);
        let count = walk(&mut ioc, m, top, None, None, &mut leaves);
        assert_eq!(count as u64, key);
        for pair in leaves.windows(2) {
            assert_eq!(pair[0].1, pair[1].0);
        }
        assert_eq!(leaves.first().unwrap().0, 1);
        assert_eq!(leaves.last().unwrap().1, u64::MAX);
    }
    Ok(())
}

/// The block of the root: the one inner node that is no child of another, or
/// the first leaf while there is no inner node.
fn tree_root(ioc: &mut IOContext<MemDisk, LRU<Vec<u8>>>, m: u64) -> u64 {
    let mut children = HashSet::new();
    let mut inner = Vec::new();
    let mut block = 1;
    loop {
        let bytes = match ioc.get(block) {
            Ok(handle) => handle.get().to_vec(),
            Err(_) => break,
        };
        if bytes.iter().all(|b| *b == 0) {
            break;
        }
        let node = NodeView::get_from_bytes(&bytes, m).unwrap();
        let header = node.header();
        if header.is_leaf == 0 {
            inner.push(block);
            for i in 0..=header.num_keys {
                children.insert(node.val(i));
            }
        }
        block += 1;
    }
    inner.into_iter().find(|b| !children.contains(b)).unwrap_or(1)
}

#[test]
fn leaf_chain_meets_every_key_in_rising_order() -> Result<(), BPTreeError> {
    let disk = MemDisk::new(2 * 1024 * 1024);
    let mut ioc: IOContext<MemDisk, LRU<Vec<u8>>> = IOContext::new(8, disk);
    let mut tree = BPTree::new(&ioc, Some(TestAllocator::new()));
    let m = tree.get_m();
    let mut want = Vec::new();
    for i in 0..10 * m {
        let key = mix(i);
        tree.insert(&mut ioc, key, i)?;
        want.push((key, i));
    }
    want.sort();
    let mut met = Vec::new();
    let mut block = 1;
    while block != u64::MAX {
        let bytes = ioc.get(block).unwrap().get().to_vec();
        let node = NodeView::get_from_bytes(&bytes, m).unwrap();
        let header = node.header();
        assert_eq!(header.is_leaf, 1);
        for i in 0..header.num_keys {
            met.push((node.key(i), node.val(i)));
        }
        block = header.next;
    }
    assert_eq!(met, want);
    Ok(())
}

#[test]
fn tree_takes_the_least_and_the_greatest_key() -> Result<(), BPTreeError> {
    let disk = MemDisk::new(1024 * 1024);
    let mut ioc: IOContext<MemDisk, LRU<Vec<u8>>> = IOContext::new(8, disk);
    let mut tree = BPTree::new(&ioc, Some(TestAllocator::new()));
    tree.insert(&mut ioc, u64::MAX, 1)?;
    tree.insert(&mut ioc, 0, 2)?;
    for key in 1..200u64 {
        tree.insert(&mut ioc, key, key)?;
    }
    assert_eq!(tree.get(&mut ioc, u64::MAX)?, Some(1));
    assert_eq!(tree.get(&mut ioc, 0)?, Some(2));
    assert_eq!(tree.get(&mut ioc, u64::MAX - 1)?, None);
    Ok(())
}

#[test]
fn tree_is_on_the_device_after_a_flush() -> Result<(), BPTreeError> {
    let disk = MemDisk::new(1024 * 1024);
    let mut ioc: IOContext<MemDisk, LRU<Vec<u8>>> = IOContext::new(4, disk);
    let mut tree = BPTree::new(&ioc, Some(TestAllocator::new()));
    let m = tree.get_m();
    for key in 0..3 * m {
        tree.insert(&mut ioc, key, key + 7)?;
    }
    assert!(ioc.flush().is_ok());
    assert!(ioc.cache().is_empty());
    let disk = ioc.into_device();
    let mut again: IOContext<MemDisk, LRU<Vec<u8>>> = IOContext::new(4, disk);
    let top = tree_root(&mut again, m);
    let mut leaves = Vec::new();
    assert_eq!(walk(&mut again, m, top, None, None, &mut leaves) as u64, 3 * m);
    for key in 0..3 * m {
        assert_eq!(tree.get(&mut again, key)?, Some(key + 7));
    }
    Ok(())
}
