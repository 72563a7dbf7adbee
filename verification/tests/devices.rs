use blockfs::block_device::mem_disk::MemDisk;
use blockfs::block_device::mem_disk::MemDiskIOError;
use blockfs::block_device::BlockDevice;
use blockfs::block_device::BlockDeviceError;

#[test]
fn mem_disk_it_works() -> Result<(), MemDiskIOError> {
    let mut mem = MemDisk::new(10 * MemDisk::BLOCK_SIZE as usize);

    let mut data = vec![0u8; MemDisk::BLOCK_SIZE as usize];
    let mut buffer = vec![0u8; MemDisk::BLOCK_SIZE as usize];

    for i in 0..100 {
        data[i] = i as u8;
    }

    mem.write(3, &data)?;
    mem.read(3, &mut buffer)?;

    assert_eq!(data[0..100], buffer[0..100]);

    Ok(())
}

#[test]
fn mem_disk_reports_its_shape() {
    let mem = MemDisk::new(10 * 1024);
    assert_eq!(BlockDevice::get_capacity(&mem), 10 * 1024);
    assert_eq!(BlockDevice::get_block_size(&mem), 1024);
}

#[test]
fn mem_disk_judges_the_index_before_the_size() {
    let mut mem = MemDisk::new(4 * 1024);
    let short = vec![0u8; 10];
    assert!(matches!(
        mem.write(4, &short),
        Err(MemDiskIOError::IdxOutOfRange { idx: 4, max: 4 })
    ));
    assert!(matches!(
        mem.write(3, &short),
        Err(MemDiskIOError::MismachedBufferSize { size: 10 })
    ));
    let mut buffer = vec![0u8; 2048];
    assert!(matches!(
        mem.read(9, &mut buffer),
        Err(MemDiskIOError::IdxOutOfRange { idx: 9, max: 4 })
    ));
    assert!(matches!(
        mem.read(0, &mut buffer),
        Err(MemDiskIOError::MismachedBufferSize { size: 2048 })
    ));
}

#[test]
fn mem_disk_as_a_block_device_widens_its_refusals() {
    let mut mem = MemDisk::new(4 * 1024);
    let short = vec![0u8; 10];
    assert!(matches!(
        BlockDevice::write(&mut mem, 7, &short),
        Err(BlockDeviceError::IdxOutOfRange { idx: 7, max: 4 })
    ));
    assert!(matches!(
        BlockDevice::write(&mut mem, 1, &short),
        Err(BlockDeviceError::MismachedBufferSize { size: 10 })
    ));
    let full = vec![7u8; 1024];
    assert!(BlockDevice::write(&mut mem, 1, &full).is_ok());
    let mut back = vec![0u8; 1024];
    assert!(BlockDevice::read(&mem, 1, &mut back).is_ok());
    assert_eq!(back, full);
    assert!(BlockDevice::read(&mem, 0, &mut back).is_ok());
    assert_eq!(back, vec![0u8; 1024]);
}
