use vstd::prelude::*;
use super::BlockDevice;
use super::BlockDeviceError;

verus! {

/// A device held in memory: `cap` bytes, in sectors of `BLOCK_SIZE` bytes.
#[derive(Debug)]
pub struct MemDisk {
    cap: usize,
    sector_cnt: usize,
    data: Vec<u8>,
}

/// Why a `MemDisk` refused a transfer.
#[derive(Debug)]
pub enum MemDiskIOError {
    IdxOutOfRange { idx: usize, max: usize },
    MismachedBufferSize { size: usize },
}

impl MemDisk {
    pub const BLOCK_SIZE: u64 = 1024;

    /// The bytes of sector `i`.
    pub closed spec fn sector(&self, i: int) -> Seq<u8> {
        self.data@.subrange(i * 1024, i * 1024 + 1024)
    }

    /// The number of sectors.
    pub closed spec fn sector_count(&self) -> nat {
        self.sector_cnt as nat
    }

    /// The representation is consistent.
    pub closed spec fn valid(&self) -> bool {
        &&& self.cap > 0
        &&& self.cap == self.sector_cnt * 1024
        &&& self.data@.len() == self.cap
    }

    /// A device of `cap` bytes, all zero.
    pub fn new(cap: usize) -> (disk: Self)
        requires
            cap > 0,
            cap % 1024 == 0,
        ensures
            disk.valid(),
            disk.sector_count() == cap / 1024,
            forall|i: int| 0 <= i < disk.sector_count() ==> #[trigger] disk.sector(i) == Seq::new(1024, |j: int| 0u8),
    {
        let disk = Self { cap, sector_cnt: cap / 1024, data: vec![0u8; cap] };
        assert forall|i: int| 0 <= i < disk.sector_count() implies #[trigger] disk.sector(i) == Seq::new(
            1024,
            |j: int| 0u8,
        ) by {
            assert(disk.sector(i) =~= Seq::new(1024, |j: int| 0u8));
        }
        disk
    }

    fn get_range_from_idx(sector_idx: usize) -> (range: (usize, usize))
        requires
            sector_idx * 1024 + 1024 <= usize::MAX,
        ensures
            range.0 == sector_idx * 1024,
            range.1 == sector_idx * 1024 + 1024,
    {
        let start = sector_idx * 1024;
        let end = start + 1024;
        (start, end)
    }

    /// Copies sector `sector_idx` into `buffer`. The index is judged first,
    /// then the size of the buffer.
    pub fn read(&self, sector_idx: u64, buffer: &mut [u8]) -> (r: Result<(), MemDiskIOError>)
        requires
            self.valid(),
        ensures
            final(buffer)@.len() == old(buffer)@.len(),
            r == mem_outcome(sector_idx, old(buffer)@.len(), self.sector_count()),
            r is Ok ==> final(buffer)@ == self.sector(sector_idx as int),
            r is Err ==> final(buffer)@ == old(buffer)@,
    {
        if sector_idx >= self.sector_cnt as u64 {
            return Err(
                MemDiskIOError::IdxOutOfRange {
                    idx: #[verifier::truncate]
                    (sector_idx as usize),
                    max: self.sector_cnt,
                },
            );
        }
        if buffer.len() != 1024 {
            return Err(MemDiskIOError::MismachedBufferSize { size: buffer.len() });
        }
        let (start, _end) = Self::get_range_from_idx(sector_idx as usize);
        let mut i: usize = 0;
        while i < 1024
            invariant
                i <= 1024,
                self.valid(),
                sector_idx < self.sector_cnt,
                start == sector_idx * 1024,
                buffer@.len() == 1024,
                forall|j: int| 0 <= j < i ==> buffer@[j] == self.data@[start + j],
            decreases 1024 - i,
        {
            buffer[i] = self.data[start + i];
            i += 1;
        }
        assert(buffer@ =~= self.sector(sector_idx as int));
        Ok(())
    }

    /// Replaces sector `sector_idx` by `data`. The index is judged first, then
    /// the size of the data.
    pub fn write(&mut self, sector_idx: u64, data: &[u8]) -> (r: Result<(), MemDiskIOError>)
        requires
            old(self).valid(),
        ensures
            final(self).valid(),
            final(self).sector_count() == old(self).sector_count(),
            r == mem_outcome(sector_idx, data@.len(), old(self).sector_count()),
            r is Ok ==> final(self).sector(sector_idx as int) == data@,
            forall|i: int|
                0 <= i < old(self).sector_count() && (r is Err || i != sector_idx) ==> #[trigger] final(self).sector(i)
                    == old(self).sector(i),
    {
        if sector_idx >= self.sector_cnt as u64 {
            return Err(
                MemDiskIOError::IdxOutOfRange {
                    idx: #[verifier::truncate]
                    (sector_idx as usize),
                    max: self.sector_cnt,
                },
            );
        }
        if data.len() != 1024 {
            return Err(MemDiskIOError::MismachedBufferSize { size: data.len() });
        }
        let (start, _end) = Self::get_range_from_idx(sector_idx as usize);
        let mut i: usize = 0;
        while i < 1024
            invariant
                i <= 1024,
                self.valid(),
                self.sector_cnt == old(self).sector_cnt,
                sector_idx < self.sector_cnt,
                start == sector_idx * 1024,
                data@.len() == 1024,
                forall|j: int| 0 <= j < i ==> self.data@[start + j] == data@[j],
                forall|j: int|
                    0 <= j < self.data@.len() && !(start <= j < start + 1024) ==> self.data@[j] == old(self).data@[j],
            decreases 1024 - i,
        {
            self.data[start + i] = data[i];
            i += 1;
        }
        assert(self.sector(sector_idx as int) =~= data@);
        assert forall|i: int| 0 <= i < old(self).sector_count() && i != sector_idx implies #[trigger] self.sector(i)
            == old(self).sector(i) by {
            assert(self.sector(i) =~= old(self).sector(i));
        }
        Ok(())
    }
}

/// What a `MemDisk` of `count` sectors answers to a transfer of `len` bytes at
/// sector `idx`.
pub open spec fn mem_outcome(idx: u64, len: nat, count: nat) -> Result<(), MemDiskIOError> {
    if idx >= count {
        Err(MemDiskIOError::IdxOutOfRange { idx: idx as usize, max: count as usize })
    } else if len != 1024 {
        Err(MemDiskIOError::MismachedBufferSize { size: len as usize })
    } else {
        Ok(())
    }
}

impl From<MemDiskIOError> for BlockDeviceError {
    fn from(e: MemDiskIOError) -> (r: BlockDeviceError)
        ensures
            r == widen(e),
    {
        match e {
            MemDiskIOError::IdxOutOfRange { idx, max } => BlockDeviceError::IdxOutOfRange {
                idx: idx as u64,
                max: max as u64,
            },
            MemDiskIOError::MismachedBufferSize { size } => BlockDeviceError::MismachedBufferSize { size: size as u64 },
        }
    }
}

impl vstd::std_specs::convert::FromSpecImpl<MemDiskIOError> for BlockDeviceError {
    open spec fn obeys_from_spec() -> bool {
        true
    }

    open spec fn from_spec(e: MemDiskIOError) -> BlockDeviceError {
        widen(e)
    }
}

/// The device error that stands for a `MemDisk`'s refusal.
pub open spec fn widen(e: MemDiskIOError) -> BlockDeviceError {
    match e {
        MemDiskIOError::IdxOutOfRange { idx, max } => BlockDeviceError::IdxOutOfRange { idx: idx as u64, max: max as u64 },
        MemDiskIOError::MismachedBufferSize { size } => BlockDeviceError::MismachedBufferSize { size: size as u64 },
    }
}

impl BlockDevice for MemDisk {
    open spec fn blocks(&self) -> Seq<Seq<u8>> {
        Seq::new(self.sector_count(), |i: int| self.sector(i))
    }

    open spec fn block_len(&self) -> nat {
        1024
    }

    open spec fn inv(&self) -> bool {
        self.valid()
    }

    open spec fn dependable(&self) -> bool {
        true
    }

    fn read(&self, sector_idx: u64, buffer: &mut [u8]) -> (r: Result<(), BlockDeviceError>) {
        if sector_idx >= self.sector_cnt as u64 {
            return Err(BlockDeviceError::IdxOutOfRange { idx: sector_idx, max: self.sector_cnt as u64 });
        }
        let len = buffer.len();
        assert(len == old(buffer)@.len());
        match MemDisk::read(self, sector_idx, buffer) {
            Ok(()) => Ok(()),
            Err(e) => Err(BlockDeviceError::from(e)),
        }
    }

    fn write(&mut self, sector_idx: u64, data: &[u8]) -> (r: Result<(), BlockDeviceError>) {
        if sector_idx >= self.sector_cnt as u64 {
            return Err(BlockDeviceError::IdxOutOfRange { idx: sector_idx, max: self.sector_cnt as u64 });
        }
        let len = data.len();
        assert(len == data@.len());
        let r = match MemDisk::write(self, sector_idx, data) {
            Ok(()) => Ok(()),
            Err(e) => Err(BlockDeviceError::from(e)),
        };
        proof {
            assert(self.blocks().len() == old(self).blocks().len());
            if r is Ok {
                assert(self.blocks() =~= old(self).blocks().update(sector_idx as int, data@));
            }
        }
        r
    }

    fn get_capacity(&self) -> (cap: u64) {
        self.cap as u64
    }

    fn get_block_size(&self) -> (size: u64) {
        1024
    }
}

} // verus!
