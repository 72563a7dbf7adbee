use blockfs::block_device::mem_disk::MemDisk;
use blockfs::block_device::BlockDevice;
use blockfs::block_device::BlockDeviceError;
use blockfs::io_context::IOContext;
use blockfs::utils::cache::lru::LRU;
use blockfs::utils::cache::Cache;

type Context = IOContext<MemDisk, LRU<Vec<u8>>>;

#[test]
fn cache_of_two_drops_the_least_recently_used() {
    let mut cache: LRU<u32> = LRU::new(2);
    assert!(cache.is_empty());
    assert_eq!(cache.put(0, 10), None);
    assert_eq!(cache.put(1, 11), None);
    assert_eq!(cache.put(2, 12), Some((0, 10, false)));
    assert_eq!(cache.peek(0), None);
    assert_eq!(cache.peek(1), Some(&11));
    assert_eq!(cache.peek(2), Some(&12));
    assert!(!cache.is_empty());
}

#[test]
fn cache_get_promotes_and_peek_does_not() {
    let mut cache: LRU<u32> = LRU::new(2);
    cache.put(0, 10);
    cache.put(1, 11);
    assert_eq!(cache.peek(0), Some(&10));
    assert_eq!(cache.victim(), Some((0, &10, false)));
    assert_eq!(cache.get(&0), Some(&10));
    assert_eq!(cache.victim(), Some((1, &11, false)));
    assert_eq!(cache.put(2, 12), Some((1, 11, false)));
    assert_eq!(cache.get(&1), None);
}

#[test]
fn cache_put_of_a_present_key_replaces_and_cleans() {
    let mut cache: LRU<u32> = LRU::new(3);
    cache.put(7, 1);
    assert!(cache.mark_dirty(&7));
    assert!(!cache.mark_dirty(&8));
    cache.put(8, 2);
    assert_eq!(cache.put(7, 3), None);
    assert_eq!(cache.peek(7), Some(&3));
    cache.put(9, 4);
    assert_eq!(cache.victim(), Some((8, &2, false)));
    assert_eq!(cache.put(10, 5), Some((8, 2, false)));
    assert_eq!(cache.put(11, 6), Some((7, 3, false)));
}

#[test]
fn cache_hands_out_dirty_entries_and_drains() {
    let mut cache: LRU<u32> = LRU::new(2);
    cache.put(1, 10);
    cache.mark_dirty(&1);
    if let Some(v) = cache.peek_mut(1) {
        *v = 20;
    }
    cache.put(2, 30);
    assert_eq!(cache.victim(), Some((1, &20, true)));
    let mut all = cache.drain();
    all.sort();
    assert_eq!(all, vec![(1, 20, true), (2, 30, false)]);
    assert!(cache.is_empty());
    assert_eq!(cache.victim(), None);
    assert_eq!(cache.put(3, 1), None);
}

#[test]
fn context_of_two_keeps_the_last_two_blocks() {
    let mut ioc: Context = IOContext::new(2, MemDisk::new(8 * 1024));
    for idx in 0..3 {
        assert_eq!(ioc.get(idx).unwrap().get().len(), 1024);
    }
    assert!(ioc.cache().peek(0).is_none());
    assert!(ioc.cache().peek(1).is_some());
    assert!(ioc.cache().peek(2).is_some());
    assert_eq!(ioc.cache().recent_keys(), vec![2, 1]);
}

#[test]
fn cache_lists_its_keys_by_recency() {
    let mut cache: LRU<u32> = LRU::new(3);
    assert_eq!(cache.recent_keys(), Vec::<u64>::new());
    cache.put(4, 0);
    cache.put(5, 0);
    cache.put(6, 0);
    assert_eq!(cache.recent_keys(), vec![6, 5, 4]);
    cache.get(&4);
    assert_eq!(cache.recent_keys(), vec![4, 6, 5]);
    cache.peek(5);
    cache.mark_dirty(&5);
    assert_eq!(cache.recent_keys(), vec![4, 6, 5]);
    cache.put(7, 0);
    assert_eq!(cache.recent_keys(), vec![7, 4, 6]);
}

#[test]
fn context_writes_back_on_flush() {
    let mut ioc: Context = IOContext::new(2, MemDisk::new(10 * 1024 * 1024));
    assert_eq!(ioc.get_disk_block_size(), 1024);
    assert_eq!(ioc.get_disk_capacity(), 10 * 1024 * 1024);
    for (idx, pattern) in [(5u64, 0xa5u8), (9, 0x3c), (17, 0x7e)] {
        let mut handle = ioc.get_mut(idx).unwrap();
        for (i, byte) in handle.get().iter_mut().enumerate() {
            *byte = pattern ^ (i as u8);
        }
    }
    assert!(ioc.flush().is_ok());
    let disk = ioc.into_device();
    let mut again: Context = IOContext::new(2, disk);
    for (idx, pattern) in [(5u64, 0xa5u8), (9, 0x3c), (17, 0x7e)] {
        let handle = again.get(idx).unwrap();
        for (i, byte) in handle.get().iter().enumerate() {
            assert_eq!(*byte, pattern ^ (i as u8));
        }
    }
    assert_eq!(again.get(4).unwrap().get(), &[0u8; 1024][..]);
}

#[test]
fn context_shows_writes_before_they_reach_the_device() {
    let mut ioc: Context = IOContext::new(1, MemDisk::new(4 * 1024));
    ioc.get_mut(1).unwrap().get()[0] = 9;
    assert_eq!(ioc.get(1).unwrap().get()[0], 9);
    assert_eq!(ioc.get(2).unwrap().get()[0], 0);
    assert_eq!(ioc.get(1).unwrap().get()[0], 9);
    let disk = ioc.into_device();
    let mut v = vec![0u8; 1024];
    assert!(BlockDevice::read(&disk, 1, &mut v).is_ok());
    assert_eq!(v[0], 9);
}

#[test]
fn context_refuses_a_block_outside_the_device() {
    let mut ioc: Context = IOContext::new(1, MemDisk::new(4 * 1024));
    assert!(matches!(
        ioc.get(4),
        Err(BlockDeviceError::IdxOutOfRange { idx: 4, max: 4 })
    ));
    assert!(matches!(
        ioc.get_mut(100),
        Err(BlockDeviceError::IdxOutOfRange { idx: 100, max: 4 })
    ));
}
