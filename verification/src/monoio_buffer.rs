//! Buffers of a pool that keep count of their initialised bytes, as an
//! asynchronous runtime asks of the buffers it is lent.
use vstd::prelude::*;

use memmap2::MmapMut;

use crate::bitmap_tree::{has_free, MAX_SLOTS};
use crate::buffer_slab::{all_taken, prefaulted, taking, AutoGuard, BufferSlab};
use crate::error::StorageError;
use crate::mapping::system_says;
use crate::slab::has_room;

verus! {

/// A [`BufferSlab`] that hands out [`MonoBuffer`]s.
pub struct MonoioSlabBuffer<const N: usize> {
    pool: BufferSlab<N>,
}

/// The right to one buffer of a pool, with the number of its leading bytes that
/// have been initialised. It is handed back with [`MonoBuffer::release`].
pub struct MonoBuffer<const N: usize> {
    guard: AutoGuard<N>,
    init: usize,
}

/// The larger of the record so far and a new position.
pub open spec fn advanced(init: usize, pos: usize) -> usize {
    if pos > init {
        pos
    } else {
        init
    }
}

impl<const N: usize> View for MonoioSlabBuffer<N> {
    type V = Set<u32>;

    /// The indices of the buffers that are taken.
    closed spec fn view(&self) -> Set<u32> {
        self.pool@
    }
}

impl<const N: usize> MonoioSlabBuffer<N> {
    /// The pool is well formed.
    pub closed spec fn wf(&self) -> bool {
        self.pool.wf()
    }

    /// The number of buffers.
    pub closed spec fn capacity(&self) -> u32 {
        self.pool.capacity()
    }

    /// The mapping that holds the buffers.
    pub closed spec fn mapping(&self) -> MmapMut {
        self.pool.mapping()
    }

    /// The bytes of buffer `idx`.
    pub closed spec fn slot(&self, idx: u32) -> Seq<u8> {
        self.pool.slot(idx)
    }

    /// A pool around the outcome of creating the inner one.
    pub fn from_pool(pool: Result<BufferSlab<N>, StorageError>) -> (r: Result<Self, StorageError>)
        requires
            pool matches Ok(p) ==> p.wf(),
        ensures
            match pool {
                Ok(p) => {
                    &&& r is Ok
                    &&& r->Ok_0.wf()
                    &&& r->Ok_0@ == p@
                    &&& r->Ok_0.capacity() == p.capacity()
                    &&& r->Ok_0.mapping() == p.mapping()
                    &&& forall|i: u32| #[trigger] r->Ok_0.slot(i) == p.slot(i)
                },
                Err(e) => r == Err::<Self, StorageError>(e),
            },
    {
        match pool {
            Ok(pool) => Ok(MonoioSlabBuffer { pool }),
            Err(e) => Err(e),
        }
    }

    /// A pool of `virtual_capacity` buffers; see [`BufferSlab::new`].
    pub fn new(initial_capacity: u32, virtual_capacity: u32) -> (r: Result<Self, StorageError>)
        requires
            N > 0,
            initial_capacity <= virtual_capacity,
            virtual_capacity * N <= usize::MAX,
        ensures
            match r {
                Ok(pool) => {
                    &&& pool.wf()
                    &&& pool@ == Set::<u32>::empty()
                    &&& pool.capacity() == virtual_capacity
                    &&& virtual_capacity * N <= isize::MAX
                    &&& system_says(virtual_capacity * N, Ok(pool.mapping()))
                    &&& initial_capacity > 0 ==> prefaulted(
                        pool.mapping(),
                        initial_capacity * N,
                    )
                },
                Err(e) => {
                    &&& e is Mapping
                    &&& system_says(virtual_capacity * N, Err(e->Mapping_0))
                },
            },
    {
        Self::from_pool(BufferSlab::new(initial_capacity, virtual_capacity))
    }

    /// Takes the lowest free buffer of a pool that has one, with no byte
    /// initialised.
    pub fn allocate(&mut self) -> (buf: MonoBuffer<N>)
        requires
            old(self).wf(),
            has_room(old(self)@, old(self).capacity()),
        ensures
            final(self).wf(),
            final(self).capacity() == old(self).capacity(),
            forall|i: u32| #[trigger] final(self).slot(i) == old(self).slot(i),
            buf.idx() < old(self).capacity(),
            buf.initialized() == 0,
            taking(old(self)@, buf.idx(), final(self)@),
    {
        MonoBuffer::from_guard(self.pool.allocate())
    }

    /// Takes the lowest free buffer, with no byte initialised, or returns
    /// `None` if all are taken.
    pub fn try_allocate(&mut self) -> (r: Option<MonoBuffer<N>>)
        requires
            old(self).wf(),
            old(self).capacity() <= MAX_SLOTS || has_free(old(self)@),
        ensures
            final(self).wf(),
            final(self).capacity() == old(self).capacity(),
            forall|i: u32| #[trigger] final(self).slot(i) == old(self).slot(i),
            match r {
                Some(buf) => {
                    &&& buf.idx() < old(self).capacity()
                    &&& buf.initialized() == 0
                    &&& taking(old(self)@, buf.idx(), final(self)@)
                },
                None => all_taken(old(self)@, old(self).capacity()) && final(self)@ == old(self)@,
            },
    {
        match self.pool.try_allocate() {
            Some(guard) => Some(MonoBuffer::from_guard(guard)),
            None => None,
        }
    }
}

impl<const N: usize> MonoBuffer<N> {
    /// The index of the buffer.
    pub closed spec fn idx(&self) -> u32 {
        self.guard.idx()
    }

    /// The number of initialised bytes.
    pub closed spec fn initialized(&self) -> usize {
        self.init
    }

    /// No more bytes are initialised than the buffer has.
    pub open spec fn wf(&self) -> bool {
        self.initialized() <= N
    }

    /// A buffer on the guard that holds it, with no byte initialised.
    pub fn from_guard(guard: AutoGuard<N>) -> (buf: Self)
        ensures
            buf.wf(),
            buf.idx() == guard.idx(),
            buf.initialized() == 0,
    {
        MonoBuffer { guard, init: 0 }
    }

    /// The index of the buffer in its pool.
    pub fn index(&self) -> (r: u32)
        ensures
            r == self.idx(),
    {
        self.guard.index()
    }

    /// The number of initialised bytes.
    pub fn initialized_len(&self) -> (r: usize)
        ensures
            r == self.initialized(),
    {
        self.init
    }

    /// The number of initialised bytes, under the name the runtime asks for.
    pub fn bytes_init(&self) -> (r: usize)
        ensures
            r == self.initialized(),
    {
        self.init
    }

    /// The number of bytes of the buffer.
    pub fn bytes_total(&mut self) -> (r: usize)
        ensures
            r == N,
            *final(self) == *old(self),
    {
        N
    }

    /// Records that the first `pos` bytes are initialised. The record never goes
    /// back. A position beyond the buffer is recorded too, but leaves the buffer
    /// without [`MonoBuffer::wf`].
    pub fn set_init(&mut self, pos: usize)
        ensures
            final(self).wf() == (old(self).wf() && pos <= N),
            final(self).idx() == old(self).idx(),
            final(self).initialized() == advanced(old(self).initialized(), pos),
    {
        if pos > self.init {
            self.init = pos;
        }
    }

    /// The initialised bytes.
    pub fn as_slice<'a>(&self, pool: &'a MonoioSlabBuffer<N>) -> (s: &'a [u8])
        requires
            self.wf(),
            pool.wf(),
            pool@.contains(self.idx()),
        ensures
            s@ == pool.slot(self.idx()).take(self.initialized() as int),
            s@.len() == self.initialized(),
    {
        let bytes: &'a [u8] = self.guard.as_slice(&pool.pool);
        &bytes[0..self.init]
    }

    /// All bytes of the buffer, to be written. The pool's other buffers keep
    /// theirs.
    pub fn as_slice_mut<'a>(&mut self, pool: &'a mut MonoioSlabBuffer<N>) -> (s: &'a mut [u8])
        requires
            old(pool).wf(),
            old(pool)@.contains(old(self).idx()),
        ensures
            final(self).idx() == old(self).idx(),
            final(self).initialized() == old(self).initialized(),
            s@ == old(pool).slot(old(self).idx()),
            s@.len() == N,
            final(pool).wf(),
            final(pool)@ == old(pool)@,
            final(pool).capacity() == old(pool).capacity(),
            final(pool).slot(old(self).idx()) == final(s)@,
            forall|i: u32|
                i != old(self).idx() && i < old(pool).capacity() ==> #[trigger] final(pool).slot(i)
                    == old(pool).slot(i),
    {
        self.guard.as_slice_mut(&mut pool.pool)
    }

    /// Gives the buffer back to its pool.
    pub fn release(self, pool: &mut MonoioSlabBuffer<N>)
        requires
            old(pool).wf(),
            old(pool)@.contains(self.idx()),
        ensures
            final(pool).wf(),
            final(pool).capacity() == old(pool).capacity(),
            forall|i: u32| #[trigger] final(pool).slot(i) == old(pool).slot(i),
            final(pool)@ == old(pool)@.remove(self.idx()),
    {
        self.guard.release(&mut pool.pool);
    }
}

} // verus!
