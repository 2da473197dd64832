//! What can go wrong when a slab or a pool is created.
use vstd::prelude::*;

verus! {

/// Why the storage of a slab or of a pool could not be set up.
#[derive(Debug)]
pub enum StorageError {
    /// The allocator could not reserve room for the slots.
    Reservation,
    /// The operating system refused the memory mapping, for this reason.
    Mapping(std::io::Error),
}

} // verus!
