//! Anonymous memory mappings, as `memmap2` offers them.
use vstd::prelude::*;

use std::ops::{Deref, DerefMut};
use memmap2::{Advice, MmapMut};

use crate::calling::{call_with, call_with_three};
use crate::error::StorageError;

verus! {

/// `memmap2::MmapMut`, a mapping of bytes that unmaps itself when dropped.
#[verifier::external_type_specification]
#[verifier::external_body]
pub struct ExMmapMut(memmap2::MmapMut);

/// `std::io::Error`, carried through as an opaque value.
#[verifier::external_type_specification]
#[verifier::external_body]
pub struct ExIoError(std::io::Error);

/// The bytes of a mapping.
pub uninterp spec fn mapped_bytes(map: memmap2::MmapMut) -> Seq<u8>;

/// The size of a mapping on huge pages: 1 GiB.
pub const SLAB_SIZE: u64 = 0x4000_0000;

/// What the kernel is told about the use of a range of pages.
pub enum PageAdvice {
    /// Fault the pages in for writing, now.
    PopulateWrite,
    /// Back the range with huge pages.
    HugePage,
}

/// `MmapMut::map_anon`: a mapping that was granted has the requested length,
/// and a length beyond `isize::MAX` is never granted. Whether another length is
/// granted, and what the bytes hold at first, is left to the operating system.
#[verifier::external_body]
pub(crate) fn map_anon(length: usize) -> (r: Result<MmapMut, std::io::Error>)
    ensures
        r matches Ok(map) ==> mapped_bytes(map).len() == length,
        length > isize::MAX ==> r is Err,
{
    MmapMut::map_anon(length)
}

/// `MmapMut::deref`: the slice has the bytes of the mapping.
#[verifier::external_body]
pub(crate) fn as_bytes(map: &MmapMut) -> (s: &[u8])
    ensures
        s@ == mapped_bytes(*map),
{
    map.deref()
}

/// `MmapMut::deref_mut`: the slice has the bytes of the mapping, what is written
/// to it is written to the mapping, and the length stays.
#[verifier::external_body]
pub(crate) fn as_bytes_mut(map: &mut MmapMut) -> (s: &mut [u8])
    ensures
        s@ == mapped_bytes(*old(map)),
        final(s)@ == mapped_bytes(*final(map)),
        mapped_bytes(*final(map)).len() == mapped_bytes(*old(map)).len(),
{
    map.deref_mut()
}

/// `MmapMut::advise_range` on the first `length` bytes, as a hint that the
/// kernel may refuse. The mapping stays as it is.
#[verifier::external_body]
pub(crate) fn advise(map: &MmapMut, advice: PageAdvice, length: usize)
    requires
        length <= mapped_bytes(*map).len(),
{
    let advice = match advice {
        PageAdvice::PopulateWrite => Advice::PopulateWrite,
        PageAdvice::HugePage => Advice::HugePage,
    };
    let _ = map.advise_range(advice, 0, length);
}

/// The operating system was asked, by [`map_anon`], for a mapping of `length`
/// bytes, and answered with `answer`.
pub closed spec fn system_says(length: int, answer: Result<MmapMut, std::io::Error>) -> bool {
    call_ensures(map_anon, (length as usize,), answer)
}

/// The kernel was given `advice` on the first `length` bytes of `map`, by
/// [`advise`].
pub closed spec fn advised(map: MmapMut, advice: PageAdvice, length: int) -> bool {
    call_ensures(advise, (&map, advice, length as usize), ())
}

/// Asks for a mapping of `length` bytes.
pub(crate) fn request(length: usize) -> (r: Result<MmapMut, std::io::Error>)
    ensures
        r matches Ok(map) ==> mapped_bytes(map).len() == length,
        length > isize::MAX ==> r is Err,
        system_says(length as int, r),
{
    call_with(map_anon, length)
}

/// Asks the kernel to back the first `length` bytes with huge pages and to fault
/// them in for writing.
pub(crate) fn prefault(map: &MmapMut, length: usize)
    requires
        length <= mapped_bytes(*map).len(),
    ensures
        advised(*map, PageAdvice::HugePage, length as int),
        advised(*map, PageAdvice::PopulateWrite, length as int),
{
    call_with_three(advise, map, PageAdvice::HugePage, length);
    call_with_three(advise, map, PageAdvice::PopulateWrite, length);
}

/// An answer to a request for a mapping is the return value of [`map_anon`] on
/// that length.
pub(crate) proof fn law_answer_is_of_map_anon(
    length: usize,
    answer: Result<MmapMut, std::io::Error>,
)
    requires
        system_says(length as int, answer),
    ensures
        call_ensures(map_anon, (length,), answer),
        answer matches Ok(map) ==> mapped_bytes(map).len() == length,
        length > isize::MAX ==> answer is Err,
{
}

/// The mapping on huge pages, if an attempt to set one up gave one; otherwise a
/// mapping of the same size on ordinary pages, unless the operating system
/// refuses that too.
pub fn alloc_huge_ref(hugetlb: Option<MmapMut>) -> (r: Result<MmapMut, StorageError>)
    ensures
        match hugetlb {
            Some(map) => r == Ok::<MmapMut, StorageError>(map),
            None => match r {
                Ok(map) => {
                    &&& mapped_bytes(map).len() == SLAB_SIZE
                    &&& system_says(SLAB_SIZE as int, Ok(map))
                },
                Err(e) => {
                    &&& e is Mapping
                    &&& system_says(SLAB_SIZE as int, Err(e->Mapping_0))
                },
            },
        },
{
    match hugetlb {
        Some(map) => Ok(map),
        None => match request(SLAB_SIZE as usize) {
            Ok(map) => Ok(map),
            Err(e) => Err(StorageError::Mapping(e)),
        },
    }
}

} // verus!
