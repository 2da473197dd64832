//! A pool of byte buffers of one size, cut from one memory mapping.
use vstd::prelude::*;

use memmap2::MmapMut;

use crate::bitmap_tree::{BitmapTree, has_free, is_first_free, MAX_SLOTS};
use crate::error::StorageError;
use crate::mapping::{
    advised, as_bytes, as_bytes_mut, mapped_bytes, prefault, request, system_says, PageAdvice,
};
use crate::slab::has_room;

verus! {

/// A pool of buffers of `N` bytes each.
///
/// The whole room is mapped when the pool is created and never moves; a
/// [`BitmapTree`] records which buffers are taken.
pub struct BufferSlab<const N: usize> {
    storage: MmapMut,
    virtual_capacity: u32,
    tree: BitmapTree,
}

/// The right to one buffer of a pool. It is handed back with
/// [`AutoGuard::release`].
pub struct AutoGuard<const N: usize> {
    idx: u32,
}

/// The lowest free buffer, `idx`, is taken.
pub open spec fn taking(before: Set<u32>, idx: u32, after: Set<u32>) -> bool {
    &&& is_first_free(before, idx)
    &&& after == before.insert(idx)
}

/// The kernel was asked to back the first `length` bytes of `map` with huge pages
/// and to fault them in.
pub open spec fn prefaulted(map: MmapMut, length: int) -> bool {
    &&& advised(map, PageAdvice::HugePage, length)
    &&& advised(map, PageAdvice::PopulateWrite, length)
}

/// All of the first `capacity` buffers are taken.
pub open spec fn all_taken(taken: Set<u32>, capacity: u32) -> bool {
    forall|i: u32| i < capacity ==> #[trigger] taken.contains(i)
}

/// Where buffer `idx` of a pool of buffers of `n` bytes begins.
pub open spec fn slot_start(idx: u32, n: usize) -> int {
    idx * n
}

impl<const N: usize> View for BufferSlab<N> {
    type V = Set<u32>;

    /// The indices of the buffers that are taken.
    closed spec fn view(&self) -> Set<u32> {
        self.tree@
    }
}

/// A buffer below the capacity lies within the mapping.
proof fn lemma_slot_bounds(idx: int, capacity: int, n: int)
    requires
        0 <= idx < capacity,
        0 <= n,
    ensures
        0 <= idx * n,
        idx * n + n <= capacity * n,
{
    assert(0 <= idx * n && idx * n + n <= capacity * n) by (nonlinear_arith)
        requires
            0 <= idx < capacity,
            0 <= n,
    ;
}

/// Different buffers do not overlap.
proof fn lemma_slots_disjoint(i: int, j: int, n: int)
    requires
        0 <= i,
        0 <= j,
        i != j,
        0 <= n,
    ensures
        i * n + n <= j * n || j * n + n <= i * n,
{
    if i < j {
        lemma_slot_bounds(i, j, n);
    } else {
        lemma_slot_bounds(j, i, n);
    }
}

impl<const N: usize> BufferSlab<N> {
    /// The mapping has room for all buffers, and only buffers of the pool are
    /// taken.
    pub closed spec fn wf(&self) -> bool {
        &&& N > 0
        &&& mapped_bytes(self.storage).len() == self.virtual_capacity * N
        &&& self.tree.wf()
        &&& forall|i: u32| #[trigger] self.tree@.contains(i) ==> i < self.virtual_capacity
    }

    /// The number of buffers.
    pub closed spec fn capacity(&self) -> u32 {
        self.virtual_capacity
    }

    /// The mapping that holds the buffers.
    pub closed spec fn mapping(&self) -> MmapMut {
        self.storage
    }

    /// All bytes of the pool.
    pub closed spec fn bytes(&self) -> Seq<u8> {
        mapped_bytes(self.storage)
    }

    /// The bytes of buffer `idx`.
    pub open spec fn slot(&self, idx: u32) -> Seq<u8> {
        self.bytes().subrange(slot_start(idx, N), slot_start(idx, N) + N)
    }

    /// The bytes of the pool are just those of its buffers.
    pub proof fn law_bytes_cover_buffers(&self)
        requires
            self.wf(),
        ensures
            N > 0,
            self.bytes().len() == self.capacity() * N,
            forall|i: u32| #[trigger] self@.contains(i) ==> i < self.capacity(),
    {
    }

    /// How many bytes from the start of the mapping the kernel is asked to back
    /// with huge pages and to fault in when a pool is created.
    pub fn prefault_len(initial_capacity: u32) -> (r: usize)
        requires
            initial_capacity * N <= usize::MAX,
        ensures
            r == initial_capacity * N,
    {
        initial_capacity as usize * N
    }

    /// A pool on the outcome of mapping its room. The kernel is given its advice
    /// on the first [`BufferSlab::prefault_len`] bytes, if there are any.
    pub fn from_mapping(
        mapped: Result<MmapMut, std::io::Error>,
        initial_capacity: u32,
        virtual_capacity: u32,
    ) -> (r: Result<Self, StorageError>)
        requires
            N > 0,
            initial_capacity <= virtual_capacity,
            mapped matches Ok(map) ==> mapped_bytes(map).len() == virtual_capacity * N,
        ensures
            match mapped {
                Ok(map) => {
                    &&& r is Ok
                    &&& r->Ok_0.wf()
                    &&& r->Ok_0@ == Set::<u32>::empty()
                    &&& r->Ok_0.capacity() == virtual_capacity
                    &&& r->Ok_0.mapping() == map
                    &&& initial_capacity > 0 ==> prefaulted(map, initial_capacity * N)
                    &&& forall|i: u32|
                        i < virtual_capacity ==> #[trigger] r->Ok_0.slot(i) == mapped_bytes(
                            map,
                        ).subrange(i * N, i * N + N)
                },
                Err(e) => r == Err::<Self, StorageError>(StorageError::Mapping(e)),
            },
    {
        match mapped {
            Ok(storage) => {
                if initial_capacity > 0 {
                    let bytes: &[u8] = as_bytes(&storage);
                    let total: usize = bytes.len();
                    proof {
                        lemma_slot_bounds(initial_capacity - 1, virtual_capacity as int, N as int);
                        assert((initial_capacity - 1) * N + N == initial_capacity * N)
                            by (nonlinear_arith);
                        assert(initial_capacity * N <= total);
                    }
                    let length: usize = Self::prefault_len(initial_capacity);
                    prefault(&storage, length);
                }
                Ok(BufferSlab { storage, virtual_capacity, tree: BitmapTree::new() })
            },
            Err(e) => Err(StorageError::Mapping(e)),
        }
    }

    /// A pool of `virtual_capacity` buffers, none of them taken. The pages of
    /// the first `initial_capacity` buffers are faulted in at once, as far as
    /// the kernel goes along. Whether the room can be mapped is for the
    /// operating system to say.
    pub fn new(initial_capacity: u32, virtual_capacity: u32) -> (r: Result<Self, StorageError>)
        requires
            N > 0,
            initial_capacity <= virtual_capacity,
            virtual_capacity * N <= usize::MAX,
        ensures
            match r {
                Ok(pool) => {
                    &&& pool.wf()
                    &&& pool@ == Set::<u32>::empty()
                    &&& pool.capacity() == virtual_capacity
                    &&& virtual_capacity * N <= isize::MAX
                    &&& system_says(virtual_capacity * N, Ok(pool.mapping()))
                    &&& initial_capacity > 0 ==> prefaulted(
                        pool.mapping(),
                        initial_capacity * N,
                    )
                },
                Err(e) => {
                    &&& e is Mapping
                    &&& system_says(virtual_capacity * N, Err(e->Mapping_0))
                },
            },
    {
        let virtual_bytes: usize = virtual_capacity as usize * N;
        Self::from_mapping(request(virtual_bytes), initial_capacity, virtual_capacity)
    }

    /// The number of buffers.
    pub fn virtual_capacity(&self) -> (r: u32)
        ensures
            r == self.capacity(),
    {
        self.virtual_capacity
    }

    /// Takes the lowest free buffer, or returns `None` if all are taken. No
    /// buffer's bytes change.
    pub fn try_allocate(&mut self) -> (r: Option<AutoGuard<N>>)
        requires
            old(self).wf(),
            old(self).capacity() <= MAX_SLOTS || has_free(old(self)@),
        ensures
            final(self).wf(),
            final(self).capacity() == old(self).capacity(),
            forall|i: u32| #[trigger] final(self).slot(i) == old(self).slot(i),
            match r {
                Some(guard) => {
                    &&& guard.idx() < old(self).capacity()
                    &&& taking(old(self)@, guard.idx(), final(self)@)
                },
                None => all_taken(old(self)@, old(self).capacity()) && final(self)@ == old(self)@,
            },
    {
        if self.tree.is_exhausted() {
            return None;
        }
        let idx: u32 = self.tree.find_free_idx();
        if idx >= self.virtual_capacity {
            return None;
        }
        self.tree.set_bit(idx);
        Some(AutoGuard { idx })
    }

    /// Takes the lowest free buffer of a pool that has one. No buffer's bytes
    /// change.
    pub fn allocate(&mut self) -> (guard: AutoGuard<N>)
        requires
            old(self).wf(),
            has_room(old(self)@, old(self).capacity()),
        ensures
            final(self).wf(),
            final(self).capacity() == old(self).capacity(),
            forall|i: u32| #[trigger] final(self).slot(i) == old(self).slot(i),
            guard.idx() < old(self).capacity(),
            taking(old(self)@, guard.idx(), final(self)@),
    {
        self.try_allocate().unwrap()
    }

    /// Gives buffer `idx` back to the pool. No buffer's bytes change.
    pub fn free_at(&mut self, idx: u32)
        requires
            old(self).wf(),
            old(self)@.contains(idx),
        ensures
            final(self).wf(),
            final(self).capacity() == old(self).capacity(),
            forall|i: u32| #[trigger] final(self).slot(i) == old(self).slot(i),
            final(self)@ == old(self)@.remove(idx),
    {
        self.tree.clear_bit(idx);
    }

    /// All bytes of the pool, to be written.
    pub fn storage_mut(&mut self) -> (s: &mut [u8])
        requires
            old(self).wf(),
        ensures
            s@ == old(self).bytes(),
            final(self).wf(),
            final(self)@ == old(self)@,
            final(self).capacity() == old(self).capacity(),
            final(self).bytes() == final(s)@,
    {
        as_bytes_mut(&mut self.storage)
    }

    /// The bytes of buffer `idx`.
    pub(crate) fn bytes_at(&self, idx: u32) -> (s: &[u8])
        requires
            self.wf(),
            self@.contains(idx),
        ensures
            s@ == self.slot(idx),
            s@.len() == N,
    {
        proof {
            lemma_slot_bounds(idx as int, self.virtual_capacity as int, N as int);
        }
        let bytes: &[u8] = as_bytes(&self.storage);
        let total: usize = bytes.len();
        assert(idx * N + N <= total);
        let start: usize = idx as usize * N;
        &bytes[start..start + N]
    }

    /// The bytes of buffer `idx`, to be written. The other buffers keep theirs.
    pub(crate) fn bytes_at_mut(&mut self, idx: u32) -> (s: &mut [u8])
        requires
            old(self).wf(),
            old(self)@.contains(idx),
        ensures
            s@ == old(self).slot(idx),
            s@.len() == N,
            final(self).wf(),
            final(self)@ == old(self)@,
            final(self).capacity() == old(self).capacity(),
            final(self).slot(idx) == final(s)@,
            forall|i: u32|
                i != idx && i < old(self).capacity() ==> #[trigger] final(self).slot(i) == old(
                    self,
                ).slot(i),
    {
        proof {
            lemma_slot_bounds(idx as int, self.virtual_capacity as int, N as int);
        }
        let bytes: &mut [u8] = self.storage_mut();
        let total: usize = bytes.len();
        assert(idx * N + N <= total);
        let start: usize = idx as usize * N;
        let (head, rest) = bytes.split_at_mut(start);
        let (slot, tail) = rest.split_at_mut(N);
        proof {
            let whole = head@ + (final(slot)@ + tail@);
            assert forall|i: u32| i != idx && i < old(self).capacity() implies whole.subrange(
                i * N,
                i * N + N,
            ) == #[trigger] old(self).slot(i) by {
                lemma_slot_bounds(i as int, old(self).virtual_capacity as int, N as int);
                lemma_slots_disjoint(i as int, idx as int, N as int);
                assert(whole.subrange(i * N, i * N + N) =~= old(self).slot(i));
            }
        }
        slot
    }
}

impl<const N: usize> AutoGuard<N> {
    /// The index of the buffer.
    pub closed spec fn idx(&self) -> u32 {
        self.idx
    }

    /// The index of the buffer in its pool.
    pub fn index(&self) -> (r: u32)
        ensures
            r == self.idx(),
    {
        self.idx
    }

    /// The bytes of the buffer.
    pub fn as_slice<'a>(&self, pool: &'a BufferSlab<N>) -> (s: &'a [u8])
        requires
            pool.wf(),
            pool@.contains(self.idx()),
        ensures
            s@ == pool.slot(self.idx()),
            s@.len() == N,
    {
        pool.bytes_at(self.idx)
    }

    /// The bytes of the buffer, to be written. The pool's other buffers keep
    /// theirs.
    pub fn as_slice_mut<'a>(&mut self, pool: &'a mut BufferSlab<N>) -> (s: &'a mut [u8])
        requires
            old(pool).wf(),
            old(pool)@.contains(old(self).idx()),
        ensures
            final(self).idx() == old(self).idx(),
            s@ == old(pool).slot(old(self).idx()),
            s@.len() == N,
            final(pool).wf(),
            final(pool)@ == old(pool)@,
            final(pool).capacity() == old(pool).capacity(),
            final(pool).slot(old(self).idx()) == final(s)@,
            forall|i: u32|
                i != old(self).idx() && i < old(pool).capacity() ==> #[trigger] final(pool).slot(i)
                    == old(pool).slot(i),
    {
        pool.bytes_at_mut(self.idx)
    }

    /// Gives the buffer back to its pool.
    pub fn release(self, pool: &mut BufferSlab<N>)
        requires
            old(pool).wf(),
            old(pool)@.contains(self.idx()),
        ensures
            final(pool).wf(),
            final(pool).capacity() == old(pool).capacity(),
            forall|i: u32| #[trigger] final(pool).slot(i) == old(pool).slot(i),
            final(pool)@ == old(pool)@.remove(self.idx()),
    {
        pool.free_at(self.idx);
    }
}

} // verus!
