//! A slab allocator for fixed-size objects, meant to sit on top of a page allocator.
//!
//! A [`Cache`] takes slabs (page-aligned regions made of whole pages) from a
//! [`MemoryBackend`], splits each into objects of one type, and hands the objects out and
//! takes them back. Slabs stand in three lists by occupancy; objects come from the fullest
//! slabs first, and a slab whose objects all come back returns to the backend.
//!
//! Every operation is verified against the model in [`model`]: `allocate` and `free` state
//! exactly what they do for every answer the backend gives, and [`laws`] proves what holds
//! over whole runs of operations.

pub mod backend;
pub mod cache;
pub mod laws;
mod layout;
mod lemmas;
pub mod model;
mod proofs;

pub use backend::{BackendCall, MemoryBackend};
pub use cache::{
    calculate_slab_info_addr_in_small_object_cache, Cache, CacheError, CacheStatistics, FreeError,
    ObjectSizeType, SlabInfo,
};
pub use layout::align_down;
pub use model::{CacheView, SlabList, SlabView};
