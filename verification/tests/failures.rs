use blockfs::block_allocator::bptree_allocator::BPTreeAllocator;
use blockfs::block_allocator::test_allocator::TestAllocator;
use blockfs::block_allocator::BlockAllocateError;
use blockfs::block_allocator::BlockAllocator;
use blockfs::block_device::BlockDevice;
use blockfs::block_device::BlockDeviceError;
use blockfs::io_context::IOContext;
use blockfs::utils::bp_tree::bp_tree_node::NodeParseError;
use blockfs::utils::bp_tree::bp_tree_node::NodeView;
use blockfs::utils::bp_tree::BPTree;
use blockfs::utils::bp_tree::BPTreeError;
use blockfs::utils::cache::lru::LRU;
use blockfs::utils::cache::Cache;
use std::cell::Cell;
use std::rc::Rc;
use std::io;

/// A device in memory with blocks of any size, whose transfers fail while a
/// budget of successful transfers is used up.
struct Flaky {
    size: usize,
    data: Vec<u8>,
    reads_left: u64,
    writes_left: u64,
    transfers_left: Rc<Cell<u64>>,
}

impl Flaky {
    fn new(size: usize, count: usize) -> Self {
        Flaky {
            size,
            data: vec![0u8; size * count],
            reads_left: u64::MAX,
            writes_left: u64::MAX,
            transfers_left: Rc::new(Cell::new(u64::MAX)),
        }
    }

    fn check(&self, idx: u64, len: usize) -> Result<usize, BlockDeviceError> {
        let count = (self.data.len() / self.size) as u64;
        if idx >= count {
            return Err(BlockDeviceError::IdxOutOfRange { idx, max: count });
        }
        if len != self.size {
            return Err(BlockDeviceError::MismachedBufferSize { size: len as u64 });
        }
        if self.transfers_left.get() == 0 {
            return Err(BlockDeviceError::IOError(io::Error::new(io::ErrorKind::Other, "transfer")));
        }
        self.transfers_left.set(self.transfers_left.get() - 1);
        Ok(idx as usize * self.size)
    }
}

impl BlockDevice for Flaky {
    fn read(&self, sector_idx: u64, buffer: &mut [u8]) -> Result<(), BlockDeviceError> {
        let at = self.check(sector_idx, buffer.len())?;
        if self.reads_left == 0 {
            return Err(BlockDeviceError::IOError(io::Error::new(io::ErrorKind::Other, "read")));
        }
        buffer.copy_from_slice(&self.data[at..at + self.size]);
        Ok(())
    }

    fn write(&mut self, sector_idx: u64, data: &[u8]) -> Result<(), BlockDeviceError> {
        let at = self.check(sector_idx, data.len())?;
        if self.writes_left == 0 {
            return Err(BlockDeviceError::IOError(io::Error::new(io::ErrorKind::Other, "write")));
        }
        self.writes_left -= 1;
        self.data[at..at + self.size].copy_from_slice(data);
        Ok(())
    }

    fn get_capacity(&self) -> u64 {
        self.data.len() as u64
    }

    fn get_block_size(&self) -> u64 {
        self.size as u64
    }
}

type Context = IOContext<Flaky, LRU<Vec<u8>>>;

#[test]
fn a_failed_read_brings_nothing_in() {
    let mut disk = Flaky::new(128, 4);
    disk.reads_left = 0;
    let mut ioc: Context = IOContext::new(2, disk);
    assert!(matches!(ioc.get(1), Err(BlockDeviceError::IOError(_))));
    assert!(matches!(ioc.get_mut(1), Err(BlockDeviceError::IOError(_))));
    assert!(ioc.cache().is_empty());
}

#[test]
fn a_failed_write_back_keeps_the_dirty_block() {
    let mut disk = Flaky::new(128, 4);
    disk.writes_left = 0;
    let mut ioc: Context = IOContext::new(1, disk);
    ioc.get_mut(0).unwrap().get()[5] = 9;
    assert!(matches!(ioc.get(1), Err(BlockDeviceError::IOError(_))));
    assert!(ioc.cache().peek(1).is_none());
    assert_eq!(ioc.cache().victim().map(|v| (v.0, v.2)), Some((0, true)));
    assert_eq!(ioc.get(0).unwrap().get()[5], 9);
    assert!(matches!(ioc.flush(), Err(BlockDeviceError::IOError(_))));
    assert_eq!(ioc.get(0).unwrap().get()[5], 9);
    assert_eq!(ioc.cache().victim().map(|v| (v.0, v.2)), Some((0, true)));
}

#[test]
fn a_clean_block_leaves_without_a_write() {
    let mut disk = Flaky::new(128, 4);
    disk.writes_left = 0;
    let mut ioc: Context = IOContext::new(1, disk);
    assert!(ioc.get(0).is_ok());
    assert!(ioc.get(1).is_ok());
    assert!(ioc.get(2).is_ok());
    assert!(ioc.flush().is_ok());
    assert!(ioc.cache().is_empty());
}

#[test]
fn a_flush_that_fails_half_way_keeps_what_is_not_written() {
    let mut disk = Flaky::new(128, 8);
    disk.writes_left = 2;
    let mut ioc: Context = IOContext::new(4, disk);
    for idx in 0..4u64 {
        ioc.get_mut(idx).unwrap().get()[0] = 10 + idx as u8;
    }
    assert!(matches!(ioc.flush(), Err(BlockDeviceError::IOError(_))));
    for idx in 0..4u64 {
        assert_eq!(ioc.get(idx).unwrap().get()[0], 10 + idx as u8);
    }
    let mut dirty = 0;
    for idx in 0..4u64 {
        if ioc.cache().peek(idx).is_some() {
            dirty += 1;
        }
    }
    assert_eq!(dirty, 4);
    let disk = ioc.into_device();
    let written = (0..4usize).filter(|i| disk.data[i * 128] != 0).count();
    assert_eq!(written, 2);
}

#[test]
fn a_device_failure_comes_out_of_the_tree() {
    let mut disk = Flaky::new(1024, 64);
    disk.reads_left = 0;
    let mut ioc: Context = IOContext::new(4, disk);
    let mut tree = BPTree::new(&ioc, Some(TestAllocator::new()));
    assert!(matches!(
        tree.insert(&mut ioc, 1, 1),
        Err(BPTreeError::DiskError(BlockDeviceError::IOError(_)))
    ));
    assert!(matches!(tree.get(&mut ioc, 1), Ok(None)));
    let r: Result<BPTree<TestAllocator>, BPTreeError> = BPTree::new_as_block_manager(&mut ioc, 0);
    assert!(matches!(r, Err(BPTreeError::DiskError(BlockDeviceError::IOError(_)))));
}

#[test]
fn a_block_too_small_for_its_fan_out_is_refused() {
    let mut ioc: Context = IOContext::new(4, Flaky::new(72, 16));
    let mut tree = BPTree::new(&ioc, Some(TestAllocator::new()));
    assert_eq!(tree.get_m(), 3);
    assert!(matches!(
        tree.insert(&mut ioc, 1, 1),
        Err(BPTreeError::NodeParseError(NodeParseError::KvsSize))
    ));
    let r: Result<BPTree<TestAllocator>, BPTreeError> = BPTree::new_as_block_manager(&mut ioc, 0);
    assert!(matches!(r, Err(BPTreeError::NodeParseError(NodeParseError::KvsSize))));
    let mut ragged: Context = IOContext::new(4, Flaky::new(77, 16));
    let mut tree = BPTree::new(&ragged, Some(TestAllocator::new()));
    assert!(matches!(
        tree.insert(&mut ragged, 1, 1),
        Err(BPTreeError::NodeParseError(NodeParseError::HeaderSize))
    ));
}

#[test]
fn a_small_fan_out_splits_early() {
    let mut ioc: Context = IOContext::new(4, Flaky::new(80, 64));
    let mut tree = BPTree::new(&ioc, Some(TestAllocator::new()));
    assert_eq!(tree.get_m(), 3);
    for key in 0..40u64 {
        assert!(tree.insert(&mut ioc, key * 7 % 40, key).is_ok());
    }
    for key in 0..40u64 {
        assert_eq!(tree.get(&mut ioc, key * 7 % 40).unwrap(), Some(key));
    }
    assert_eq!(tree.get(&mut ioc, 40).unwrap(), None);
}

#[test]
fn a_dry_allocator_stops_the_tree() {
    let mut ioc: Context = IOContext::new(4, Flaky::new(80, 4));
    let allocator = BPTreeAllocator::try_new(&mut ioc, 0).unwrap();
    let mut tree = BPTree::new(&ioc, Some(allocator));
    let mut taken = 0;
    let mut last = Ok(());
    for key in 0..20u64 {
        last = tree.insert(&mut ioc, key, key);
        if last.is_err() {
            break;
        }
        taken += 1;
    }
    assert!(taken >= 2);
    assert!(matches!(last, Err(BPTreeError::AllocateError(BlockAllocateError::NoFreeBlocks))));
}

#[test]
fn a_device_failure_in_the_allocator_reads_as_no_free_blocks() {
    let mut ioc: Context = IOContext::new(1, Flaky::new(1024, 8));
    let mut allocator = BPTreeAllocator::try_new(&mut ioc, 0).unwrap();
    assert_eq!(allocator.alloc_block(&mut ioc), Ok(1));
    assert!(ioc.flush().is_ok());
    let mut disk = ioc.into_device();
    disk.reads_left = 0;
    let mut ioc: Context = IOContext::new(1, disk);
    assert_eq!(allocator.alloc_block(&mut ioc), Err(BlockAllocateError::NoFreeBlocks));
    assert_eq!(allocator.free(&mut ioc, 1), Err(BlockAllocateError::NoFreeBlocks));
}

#[test]
fn an_insert_that_fails_leaves_the_tree_as_it_was() {
    // every number of transfers that the device may grant before it fails
    for budget in 0..48u64 {
        let disk = Flaky::new(80, 1024);
        let knob = disk.transfers_left.clone();
        let mut ioc: Context = IOContext::new(3, disk);
        let mut tree = BPTree::new(&ioc, Some(TestAllocator::new()));
        for key in 0..30u64 {
            assert!(tree.insert(&mut ioc, key * 11 % 30, key).is_ok());
        }
        let mut put = Vec::new();
        let mut failures = 0;
        knob.set(budget);
        for key in 30..60u64 {
            match tree.insert(&mut ioc, key, key + 1000) {
                Ok(()) => put.push(key),
                Err(e) => {
                    assert!(matches!(e, BPTreeError::DiskError(BlockDeviceError::IOError(_))));
                    failures += 1;
                },
            }
            let left = knob.get();
            knob.set(u64::MAX);
            for old in 0..30u64 {
                assert_eq!(tree.get(&mut ioc, old * 11 % 30).unwrap(), Some(old));
            }
            for seen in 30..=key {
                let want = if put.contains(&seen) { Some(seen + 1000) } else { None };
                assert_eq!(tree.get(&mut ioc, seen).unwrap(), want);
            }
            knob.set(left);
        }
        assert!(failures > 0);
        knob.set(u64::MAX);
        for key in 30..60u64 {
            assert!(tree.insert(&mut ioc, key, key + 2000).is_ok());
        }
        for key in 30..60u64 {
            assert_eq!(tree.get(&mut ioc, key).unwrap(), Some(key + 2000));
        }
    }
}

#[test]
fn a_lookup_writes_nothing() {
    let mut ioc: Context = IOContext::new(3, Flaky::new(80, 1024));
    let mut tree = BPTree::new(&ioc, Some(TestAllocator::new()));
    for key in 0..40u64 {
        tree.insert(&mut ioc, key, key + 7).unwrap();
    }
    ioc.flush().unwrap();
    let mut disk = ioc.into_device();
    disk.writes_left = 0;
    let before = disk.data.clone();
    let mut ioc: Context = IOContext::new(3, disk);
    for key in 0..40u64 {
        assert_eq!(tree.get(&mut ioc, key).unwrap(), Some(key + 7));
    }
    assert_eq!(tree.get(&mut ioc, 40).unwrap(), None);
    // nothing is dirty, so a device that refuses every write is never asked
    assert!(ioc.flush().is_ok());
    assert_eq!(ioc.into_device().data, before);
}

#[test]
fn a_flush_with_nothing_dirty_asks_nothing_of_the_device() {
    let mut disk = Flaky::new(128, 4);
    disk.writes_left = 0;
    let mut ioc: Context = IOContext::new(4, disk);
    assert!(ioc.flush().is_ok());
    assert!(ioc.get(2).is_ok());
    assert!(ioc.flush().is_ok());
}

#[test]
fn a_lookup_in_an_empty_tree_asks_nothing_of_the_device() {
    let mut disk = Flaky::new(128, 4);
    disk.reads_left = 0;
    disk.writes_left = 0;
    let mut ioc: Context = IOContext::new(4, disk);
    let tree = BPTree::new(&ioc, Some(TestAllocator::new()));
    assert!(matches!(tree.get(&mut ioc, 3), Ok(None)));
    assert!(ioc.cache().is_empty());
}

#[test]
fn a_dry_allocator_leaves_an_empty_tree_empty() {
    let mut ioc: Context = IOContext::new(4, Flaky::new(80, 2));
    let mut allocator = BPTreeAllocator::try_new(&mut ioc, 0).unwrap();
    assert_eq!(allocator.alloc_block(&mut ioc), Ok(1));
    let mut tree = BPTree::new(&ioc, Some(allocator));
    assert!(matches!(
        tree.insert(&mut ioc, 5, 5),
        Err(BPTreeError::AllocateError(BlockAllocateError::NoFreeBlocks))
    ));
    assert!(matches!(tree.get(&mut ioc, 5), Ok(None)));
}

#[test]
fn a_run_of_inserts_reports_how_far_it_came() {
    let mut ioc: Context = IOContext::new(4, Flaky::new(80, 4));
    let allocator = BPTreeAllocator::try_new(&mut ioc, 0).unwrap();
    let mut tree = BPTree::new(&ioc, Some(allocator));
    let list: Vec<(u64, u64)> = (0..20u64).map(|k| (k, k + 100)).collect();
    let (done, result) = tree.insert_all(&mut ioc, &list);
    assert!(matches!(result, Err(BPTreeError::AllocateError(BlockAllocateError::NoFreeBlocks))));
    assert!(done >= 2 && done < 20);
    for (at, (key, val)) in list.iter().enumerate() {
        let want = if at < done { Some(*val) } else { None };
        assert_eq!(tree.get(&mut ioc, *key).unwrap(), want);
    }
}

#[test]
fn no_node_is_over_full_whatever_fails() {
    for limit in 1..=3u64 {
        for budget in 0..40u64 {
            let disk = Flaky::new(80, 256);
            let knob = disk.transfers_left.clone();
            let mut ioc: Context = IOContext::new(limit, disk);
            let mut tree = BPTree::new(&ioc, Some(TestAllocator::new()));
            let m = tree.get_m();
            assert_eq!(m, 3);
            for key in 0..20u64 {
                assert!(tree.insert(&mut ioc, key * 7 % 20, key).is_ok());
            }
            knob.set(budget);
            for key in 20..40u64 {
                let _ = tree.insert(&mut ioc, key, key);
            }
            knob.set(u64::MAX);
            for block in 1..256u64 {
                let bytes = ioc.get(block).unwrap().get().to_vec();
                let node = NodeView::get_from_bytes(&bytes, m).unwrap();
                assert!(node.header().num_keys < m);
            }
        }
    }
}
