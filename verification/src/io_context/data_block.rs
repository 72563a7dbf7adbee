use vstd::prelude::*;

verus! {

/// A block lent for reading.
pub struct ReadOnlyBlock<'a> {
    pub data: &'a [u8],
}

impl<'a> ReadOnlyBlock<'a> {
    /// The bytes of the block.
    pub fn get(&self) -> (bytes: &[u8])
        ensures
            bytes@ == self.data@,
    {
        self.data
    }
}

/// A block lent for writing: what is written through it is the block's new
/// content.
pub struct MutableBlock<'a> {
    pub data: &'a mut [u8],
}

impl<'a> MutableBlock<'a> {
    /// The bytes of the block, to be changed in place.
    pub fn get(&mut self) -> (bytes: &mut [u8])
        ensures
            bytes@ == old(self).data@,
            final(self).data@ == final(bytes)@,
            final(final(self).data)@ == final(old(self).data)@,
    {
        &mut *self.data
    }
}

} // verus!
