use vstd::prelude::*;

pub mod mem_disk;

verus! {

/// `std::io::Error`: the failure of a backing store, carried through as it
/// is. Nothing is claimed of what it holds.
#[verifier::external_type_specification]
#[verifier::external_body]
pub struct ExIoError(std::io::Error);

/// Why a block device refused or failed a transfer.
#[derive(Debug)]
pub enum BlockDeviceError {
    IdxOutOfRange { idx: u64, max: u64 },
    MismachedBufferSize { size: u64 },
    IOError(std::io::Error),
}

/// What a device may answer to a transfer of `len` bytes at sector `idx`, when
/// it has `count` sectors of `block_len` bytes: the index is judged first, then
/// the length; a transfer that passes both succeeds or fails in the backing
/// store, and on a dependable device it succeeds.
pub open spec fn transfer_outcome(
    r: Result<(), BlockDeviceError>,
    idx: u64,
    len: nat,
    count: nat,
    block_len: nat,
    dependable: bool,
) -> bool {
    if idx >= count {
        r == Err::<(), BlockDeviceError>(BlockDeviceError::IdxOutOfRange { idx, max: count as u64 })
    } else if len != block_len {
        r == Err::<(), BlockDeviceError>(BlockDeviceError::MismachedBufferSize { size: len as u64 })
    } else if dependable {
        r is Ok
    } else {
        r is Ok || (r is Err && r->Err_0 is IOError)
    }
}

/// Sectors are not empty, every sector has the sector size, and the capacity
/// in bytes fits `u64`.
pub open spec fn well_shaped(blocks: Seq<Seq<u8>>, block_len: nat) -> bool {
    &&& block_len > 0
    &&& blocks.len() * block_len <= u64::MAX
    &&& forall|i: int| 0 <= i < blocks.len() ==> (#[trigger] blocks[i]).len() == block_len
}

/// The device is well formed: its invariant holds and its sectors are well
/// shaped.
pub open spec fn device_wf<D: BlockDevice>(d: &D) -> bool {
    d.inv() && well_shaped(d.blocks(), d.block_len())
}

/// A store of `blocks().len()` sectors of `block_len()` bytes each.
///
/// `blocks()` is the content of the device, sector by sector. A transfer names
/// a sector by its index and moves exactly one sector.
pub trait BlockDevice: Sized {
    /// The content of the device: one byte sequence per sector. A device
    /// that says nothing of itself has none.
    open spec fn blocks(&self) -> Seq<Seq<u8>> {
        Seq::empty()
    }

    /// The size of a sector in bytes.
    open spec fn block_len(&self) -> nat {
        0
    }

    /// The implementation's own invariant. A device that says nothing of
    /// itself never holds it, so nothing is claimed of it.
    open spec fn inv(&self) -> bool {
        false
    }

    /// Whether the backing store never fails: a transfer that names a sector
    /// of the device and brings a buffer of a sector's size then succeeds.
    open spec fn dependable(&self) -> bool {
        false
    }

    /// Copies sector `sector_idx` into `buffer`.
    fn read(&self, sector_idx: u64, buffer: &mut [u8]) -> (r: Result<(), BlockDeviceError>)
        requires
            self.inv(),
            well_shaped(self.blocks(), self.block_len()),
        ensures
            final(buffer)@.len() == old(buffer)@.len(),
            transfer_outcome(r, sector_idx, old(buffer)@.len(), self.blocks().len(), self.block_len(), self.dependable()),
            r is Ok ==> final(buffer)@ == self.blocks()[sector_idx as int],
            r is Err ==> final(buffer)@ == old(buffer)@,
    ;

    /// Replaces sector `sector_idx` by `data`. A failed transfer leaves every
    /// other sector as it was.
    fn write(&mut self, sector_idx: u64, data: &[u8]) -> (r: Result<(), BlockDeviceError>)
        requires
            old(self).inv(),
            well_shaped(old(self).blocks(), old(self).block_len()),
        ensures
            final(self).inv(),
            well_shaped(final(self).blocks(), final(self).block_len()),
            final(self).block_len() == old(self).block_len(),
            final(self).blocks().len() == old(self).blocks().len(),
            final(self).dependable() == old(self).dependable(),
            transfer_outcome(
                r,
                sector_idx,
                data@.len(),
                old(self).blocks().len(),
                old(self).block_len(),
                old(self).dependable(),
            ),
            r is Ok ==> final(self).blocks() == old(self).blocks().update(sector_idx as int, data@),
            r is Err ==> forall|i: int|
                0 <= i < old(self).blocks().len() && i != sector_idx ==> #[trigger] final(self).blocks()[i] == old(
                    self,
                ).blocks()[i],
    ;

    /// The capacity of the device in bytes.
    fn get_capacity(&self) -> (cap: u64)
        requires
            self.inv(),
            well_shaped(self.blocks(), self.block_len()),
        ensures
            cap == self.blocks().len() * self.block_len(),
    ;

    /// The size of a sector in bytes.
    fn get_block_size(&self) -> (size: u64)
        requires
            self.inv(),
            well_shaped(self.blocks(), self.block_len()),
        ensures
            size == self.block_len(),
    ;
}

impl From<std::io::Error> for BlockDeviceError {
    fn from(e: std::io::Error) -> (r: BlockDeviceError)
        ensures
            r == BlockDeviceError::IOError(e),
    {
        BlockDeviceError::IOError(e)
    }
}

impl vstd::std_specs::convert::FromSpecImpl<std::io::Error> for BlockDeviceError {
    open spec fn obeys_from_spec() -> bool {
        true
    }

    open spec fn from_spec(e: std::io::Error) -> BlockDeviceError {
        BlockDeviceError::IOError(e)
    }
}

} // verus!
