use vstd::prelude::*;

pub mod block_allocator;
pub mod block_device;
pub mod io_context;
pub mod utils;

verus! {

/// The pool of block buffers that a context keeps by default.
pub type BlockCache = utils::cache::lru::LRU<Vec<u8>>;

} // verus!
