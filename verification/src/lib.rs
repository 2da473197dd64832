//! A slab allocator over a hierarchy of bitmaps.
//!
//! [`HiSlab`] keeps values under `u32` indices that stay the same until the
//! value is removed. A four-level bitmap tells which slots are occupied and
//! leads to the lowest free one, level by level. [`TaggedHiSlab`] adds a second
//! bitmap, which marks some of the occupied slots. [`buffer_slab`] and
//! [`monoio_buffer`] hand out byte buffers of one size from a memory mapping,
//! tracked in the same way.
//!
//! Contracts speak of mathematical views: a slab is a `Map<u32, T>`, a bitmap and
//! a pool are a `Set<u32>` of the indices in use. What holds across calls is
//! stated and proved in [`laws`].
//!
//! ```
//! use hislab::HiSlab;
//!
//! let mut slab = HiSlab::<i32>::new(1024, 65536).unwrap();
//!
//! let idx = slab.insert(42);
//! assert_eq!(slab[idx], 42);
//!
//! let val = slab.remove(idx);
//! assert_eq!(val, Some(42));
//! assert!(slab.get(idx).is_none());
//! ```
pub mod bit_block;
pub mod bitmap_tree;
pub mod bits;
pub mod buffer_slab;
pub mod calling;
pub mod counting;
pub mod error;
pub mod laws;
pub mod mapping;
pub mod monoio_buffer;
pub mod outcomes;
pub mod random;
mod sealed;
pub mod slab;
pub mod tagged;

pub use error::StorageError;
pub use mapping::alloc_huge_ref;
pub use slab::{HiSlab, SlabIntoIter, SlabIter, SlabIterMut};
pub use tagged::{TaggedHiSlab, TaggedIter, TaggedIterMut};
