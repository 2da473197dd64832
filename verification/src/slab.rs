//! The slab: values under stable indices, the lowest free index first.
use vstd::prelude::*;

use crate::bitmap_tree::{
    draw_trace, draws_member, draws_members, draws_sample, is_first_free, lemma_draw_trace_push,
    picks, BitCursor, BitmapTree, MAX_SLOTS,
};
use crate::calling::{call_on, Calls};
use crate::counting::{
    ascending, is_least, lemma_set_count, lemma_sorted_first, lemma_sorted_lists,
    lemma_sorted_unique, lists_ascending, rank, sorted,
};
use crate::error::StorageError;
use crate::random::RandomSource;

verus! {

/// A slab of values under stable `u32` indices.
///
/// The values stand in one contiguous vector, whose room is reserved when the
/// slab is created; a [`BitmapTree`] records which slots are occupied.
pub struct HiSlab<T> {
    slots: Vec<Option<T>>,
    tree: BitmapTree,
    virtual_capacity: u32,
}

impl<T> View for HiSlab<T> {
    type V = Map<u32, T>;

    /// The values by their indices.
    closed spec fn view(&self) -> Map<u32, T> {
        Map::new(|i: u32| self.tree@.contains(i), |i: u32| self.slots@[i as int]->0)
    }
}

/// Some index below `virtual_capacity` that can be handed out is not in `dom`.
pub open spec fn has_room(dom: Set<u32>, virtual_capacity: u32) -> bool {
    exists|i: u32| i < virtual_capacity && i < MAX_SLOTS && !#[trigger] dom.contains(i)
}

/// What is found under index `idx`.
pub open spec fn lookup<T>(m: Map<u32, T>, idx: u32) -> Option<T> {
    if m.contains_key(idx) {
        Some(m[idx])
    } else {
        None
    }
}

/// An insertion of `val` takes the lowest free index, `idx`, and leaves the
/// other entries as they are.
pub open spec fn insertion<T>(before: Map<u32, T>, val: T, idx: u32, after: Map<u32, T>) -> bool {
    &&& is_first_free(before.dom(), idx)
    &&& after == before.insert(idx, val)
}

/// A removal at `idx` hands out what was found there and leaves the other
/// entries as they are.
pub open spec fn removal<T>(
    before: Map<u32, T>,
    idx: u32,
    out: Option<T>,
    after: Map<u32, T>,
) -> bool {
    &&& out == lookup(before, idx)
    &&& after == before.remove(idx)
}

/// The allocator was asked, by `Vec::try_reserve`, for room for `slots` slots in an
/// empty vector, and granted or refused it.
pub open spec fn allocator_says<T>(slots: u32, granted: bool) -> bool {
    exists|v: &mut Vec<Option<T>>, answer: Result<(), std::collections::TryReserveError>|
        (*v)@.len() == 0 && granted == (answer is Ok) && #[trigger] call_ensures(
            Vec::<Option<T>>::try_reserve,
            (v, slots as usize),
            answer,
        )
}

/// The outcome of creating a slab: an empty slab if the allocator granted the
/// room or none was needed, and an error if it refused.
pub open spec fn creation<T>(
    initial_capacity: u32,
    virtual_capacity: u32,
    r: Result<HiSlab<T>, StorageError>,
) -> bool {
    match r {
        Ok(slab) => {
            &&& slab.wf()
            &&& slab@ == Map::<u32, T>::empty()
            &&& slab.capacity() == virtual_capacity
            &&& slab.written() == initial_capacity
            &&& virtual_capacity > 0 ==> allocator_says::<T>(virtual_capacity, true)
        },
        Err(e) => {
            &&& e is Reservation
            &&& virtual_capacity > 0
            &&& allocator_says::<T>(virtual_capacity, false)
        },
    }
}

/// The length of a run that is extended, if need be, to hold index `idx`.
pub open spec fn reaching(len: nat, idx: u32) -> nat {
    if idx < len {
        len
    } else {
        idx as nat + 1
    }
}

impl<T> HiSlab<T> {
    /// The bitmap records exactly the slots that hold a value, and all of them
    /// lie below the capacity.
    pub closed spec fn wf(&self) -> bool {
        &&& self.tree.wf()
        &&& self.slots@.len() <= self.virtual_capacity
        &&& forall|i: u32| #[trigger]
            self.tree@.contains(i) ==> i < self.slots@.len() && i < MAX_SLOTS
        &&& forall|i: int|
            0 <= i < self.slots@.len() ==> (#[trigger] self.slots@[i] is Some
                <==> self.tree@.contains(i as u32))
    }

    /// The largest number of slots.
    pub closed spec fn capacity(&self) -> u32 {
        self.virtual_capacity
    }

    /// The number of slots that have been written, be it with a value or as empty.
    /// The slots beyond them are only reserved.
    pub closed spec fn written(&self) -> nat {
        self.slots@.len()
    }

    /// Occupied slots lie below the capacity, and below what the bitmap can hand
    /// out; so do the written ones below the capacity.
    pub proof fn law_indices_bounded(&self)
        requires
            self.wf(),
        ensures
            self.written() <= self.capacity(),
            forall|i: u32| #[trigger]
                self@.contains_key(i) ==> i < self.capacity() && i < MAX_SLOTS,
    {
        assert forall|i: u32| #[trigger] self@.contains_key(i) implies i < self.capacity() && i
            < MAX_SLOTS by {
            assert(self.tree@.contains(i));
        }
    }

    /// A slab on the vector that an attempt to reserve its room left, or the
    /// error of that attempt. The first `initial_capacity` slots are written at
    /// once.
    pub fn from_reservation(
        reserved: Result<Vec<Option<T>>, StorageError>,
        initial_capacity: u32,
        virtual_capacity: u32,
    ) -> (r: Result<Self, StorageError>)
        requires
            initial_capacity <= virtual_capacity,
            reserved matches Ok(slots) ==> slots@.len() == 0,
        ensures
            match reserved {
                Ok(_) => {
                    &&& r is Ok
                    &&& r->Ok_0.wf()
                    &&& r->Ok_0@ == Map::<u32, T>::empty()
                    &&& r->Ok_0.capacity() == virtual_capacity
                    &&& r->Ok_0.written() == initial_capacity
                },
                Err(e) => r == Err::<Self, StorageError>(e),
            },
    {
        match reserved {
            Ok(slots) => {
                let mut slots = slots;
                while slots.len() < initial_capacity as usize
                    invariant
                        slots@.len() <= initial_capacity,
                        forall|i: int| 0 <= i < slots@.len() ==> #[trigger] slots@[i] is None,
                    decreases initial_capacity - slots@.len(),
                {
                    slots.push(None);
                }
                let slab = HiSlab { slots, tree: BitmapTree::new(), virtual_capacity };
                assert(slab@ =~= Map::<u32, T>::empty());
                Ok(slab)
            },
            Err(e) => Err(e),
        }
    }

    /// The largest number of slots.
    pub fn virtual_capacity(&self) -> (r: u32)
        ensures
            r == self.capacity(),
    {
        self.virtual_capacity
    }

    /// The bitmap of the occupied slots.
    pub fn tree(&self) -> (r: &BitmapTree)
        requires
            self.wf(),
        ensures
            r.wf(),
            r@ == self@.dom(),
    {
        assert(self.tree@ =~= self@.dom());
        &self.tree
    }

    /// Puts `val` into the lowest free slot and returns its index, which stays
    /// valid until the value is removed.
    pub fn insert(&mut self, val: T) -> (r: u32)
        requires
            old(self).wf(),
            has_room(old(self)@.dom(), old(self).capacity()),
        ensures
            final(self).wf(),
            final(self).capacity() == old(self).capacity(),
            final(self).written() == reaching(old(self).written(), r),
            r < old(self).capacity(),
            r < MAX_SLOTS,
            insertion(old(self)@, val, r, final(self)@),
    {
        proof {
            assert(self.tree@ =~= self@.dom());
        }
        let idx: u32 = self.tree.find_free_idx();
        self.finalize_insert(idx, val);
        idx
    }

    /// Writes a value into a free slot and marks the slot as occupied.
    fn finalize_insert(&mut self, idx: u32, val: T)
        requires
            old(self).wf(),
            is_first_free(old(self)@.dom(), idx),
            idx < old(self).capacity(),
            idx < MAX_SLOTS,
        ensures
            final(self).wf(),
            final(self).capacity() == old(self).capacity(),
            final(self).written() == reaching(old(self).written(), idx),
            final(self)@ == old(self)@.insert(idx, val),
    {
        proof {
            if idx > self.slots@.len() {
                assert(self@.dom().contains((idx - 1) as u32));
                assert(self.tree@.contains((idx - 1) as u32));
            }
        }
        let i: usize = idx as usize;
        if i < self.slots.len() {
            self.slots[i] = Some(val);
        } else {
            self.slots.push(Some(val));
        }
        self.tree.set_bit(idx);
        assert(self@ =~= old(self)@.insert(idx, val));
    }

    /// Takes the value out of a slot, or returns `None` if the slot is empty.
    /// The slot becomes free.
    pub fn remove(&mut self, idx: u32) -> (r: Option<T>)
        requires
            old(self).wf(),
        ensures
            final(self).wf(),
            final(self).capacity() == old(self).capacity(),
            final(self).written() == old(self).written(),
            removal(old(self)@, idx, r, final(self)@),
    {
        if !self.is_occupied(idx) {
            assert(self@ =~= old(self)@.remove(idx));
            return None;
        }
        self.tree.clear_bit(idx);
        let r = self.slots[idx as usize].take();
        assert(self@ =~= old(self)@.remove(idx));
        r
    }

    /// Whether a slot is occupied.
    pub fn is_occupied(&self, idx: u32) -> (r: bool)
        requires
            self.wf(),
        ensures
            r == self@.contains_key(idx),
    {
        self.tree.is_set(idx)
    }

    /// The value in a slot, or `None` if the slot is empty.
    pub fn get(&self, idx: u32) -> (r: Option<&T>)
        requires
            self.wf(),
        ensures
            r == if self@.contains_key(idx) {
                Some(&self@[idx])
            } else {
                None
            },
    {
        if self.is_occupied(idx) {
            self.slots[idx as usize].as_ref()
        } else {
            None
        }
    }

    /// The value in a slot, to be changed in place, or `None` if the slot is
    /// empty.
    pub fn get_mut(&mut self, idx: u32) -> (r: Option<&mut T>)
        requires
            old(self).wf(),
        ensures
            final(self).wf(),
            final(self).capacity() == old(self).capacity(),
            final(self).written() == old(self).written(),
            match r {
                Some(v) => {
                    &&& old(self)@.contains_key(idx)
                    &&& *v == old(self)@[idx]
                    &&& final(self)@ == old(self)@.insert(idx, *final(v))
                },
                None => !old(self)@.contains_key(idx) && final(self)@ == old(self)@,
            },
    {
        if self.is_occupied(idx) {
            Some(self.get_unchecked_mut(idx))
        } else {
            None
        }
    }

    /// The value in a slot that is known to be occupied.
    pub fn get_unchecked(&self, idx: u32) -> (r: &T)
        requires
            self.wf(),
            self@.contains_key(idx),
        ensures
            *r == self@[idx],
    {
        self.slots[idx as usize].as_ref().unwrap()
    }

    /// The value in a slot that is known to be occupied, to be changed in
    /// place.
    pub fn get_unchecked_mut(&mut self, idx: u32) -> (r: &mut T)
        requires
            old(self).wf(),
            old(self)@.contains_key(idx),
        ensures
            *r == old(self)@[idx],
            final(self).wf(),
            final(self).capacity() == old(self).capacity(),
            final(self).written() == old(self).written(),
            final(self)@ == old(self)@.insert(idx, *final(r)),
    {
        self.slots[idx as usize].as_mut().unwrap()
    }
}

impl<T: Default> HiSlab<T> {
    /// An empty slab of at most `virtual_capacity` slots, whose room is
    /// reserved at once; the first `initial_capacity` slots are also written at
    /// once. Whether the room can be had is for the allocator to say.
    pub fn new(initial_capacity: u32, virtual_capacity: u32) -> (r: Result<Self, StorageError>)
        requires
            initial_capacity <= virtual_capacity,
        ensures
            creation(initial_capacity, virtual_capacity, r),
    {
        let mut slots: Vec<Option<T>> = Vec::new();
        let mut reserved = true;
        if virtual_capacity > 0 {
            reserved = call_on(
                Vec::<Option<T>>::try_reserve,
                &mut slots,
                virtual_capacity as usize,
            ).is_ok();
        }
        let reservation = if reserved {
            Ok(slots)
        } else {
            Err(StorageError::Reservation)
        };
        Self::from_reservation(reservation, initial_capacity, virtual_capacity)
    }
}

/// The keys of a list of entries.
pub open spec fn keys_of<T>(v: Seq<(u32, &T)>) -> Seq<u32> {
    Seq::new(v.len(), |k: int| v[k].0)
}

/// Every pair of `v` is an entry of `m`.
pub open spec fn entries_in<T>(v: Seq<(u32, &T)>, m: Map<u32, T>) -> bool {
    forall|k: int|
        0 <= k < v.len() ==> m.contains_key((#[trigger] v[k]).0) && *v[k].1 == m[v[k].0]
}

/// `items` pairs the keys with references to their values in `m`.
pub open spec fn lends_entries<T>(
    items: Seq<(u32, &mut T)>,
    keys: Seq<u32>,
    m: Map<u32, T>,
) -> bool {
    &&& items.len() == keys.len()
    &&& forall|k: int|
        0 <= k < items.len() ==> (#[trigger] items[k]).0 == keys[k] && *items[k].1 == m[keys[k]]
}

impl<T> vstd::std_specs::core::IndexSpecImpl<u32> for HiSlab<T> {
    open spec fn index_req(&self, idx: &u32) -> bool {
        self.wf() && self@.contains_key(*idx)
    }
}

impl<T> std::ops::Index<u32> for HiSlab<T> {
    type Output = T;

    /// The value in an occupied slot.
    fn index(&self, idx: u32) -> (r: &T)
        ensures
            *r == self@[idx],
    {
        self.get_unchecked(idx)
    }
}

impl<T> std::ops::IndexMut<u32> for HiSlab<T> {
    /// The value in an occupied slot, to be changed in place.
    fn index_mut(&mut self, idx: u32) -> (r: &mut T)
        requires
            old(self).wf(),
            old(self)@.contains_key(idx),
        ensures
            *r == old(self)@[idx],
            final(self).wf(),
            final(self).capacity() == old(self).capacity(),
            final(self).written() == old(self).written(),
            final(self)@ == old(self)@.insert(idx, *final(r)),
    {
        self.get_unchecked_mut(idx)
    }
}

impl<T> HiSlab<T> {
    /// Calls `f` with each occupied slot's index and value, in ascending order.
    pub fn for_each_occupied<F>(&self, f: F) where F: FnMut(u32, &T)
        requires
            self.wf(),
            forall|i: u32| #[trigger]
                self@.contains_key(i) ==> call_requires(f, (i, &self@[i])),
        ensures
            forall|i: u32| #[trigger]
                self@.contains_key(i) ==> call_ensures(f, (i, &self@[i]), ()),
    {
        let mut calls = Calls::new(f, Ghost(self@.dom()));
        self.call_each_occupied(&mut calls);
    }

    /// Makes the calls that are due, one for each occupied slot.
    pub(crate) fn call_each_occupied<F>(&self, calls: &mut Calls<F>) where F: FnMut(u32, &T)
        requires
            self.wf(),
            old(calls).due() == sorted(self@.dom()),
            forall|i: u32| #[trigger]
                self@.contains_key(i) ==> call_requires(old(calls).callee(), (i, &self@[i])),
        ensures
            final(calls).due() == Seq::<u32>::empty(),
            forall|i: u32| #[trigger]
                self@.contains_key(i) ==> call_ensures(old(calls).callee(), (i, &self@[i]), ()),
    {
        let ghost f = calls.callee();
        let mut it = self.iter();
        loop
            invariant
                self.wf(),
                it.entries() == self@,
                calls.callee() == f,
                calls.due() == sorted(it.pending()),
                forall|i: u32| #[trigger]
                    self@.contains_key(i) ==> call_requires(f, (i, &self@[i])),
                forall|i: u32| #[trigger]
                    self@.contains_key(i) && !it.pending().contains(i) ==> call_ensures(
                        f,
                        (i, &self@[i]),
                        (),
                    ),
            ensures
                it.pending() == Set::<u32>::empty(),
            decreases it.pending().len(),
        {
            proof {
                lemma_set_count(it.pending());
            }
            let ghost before = it.pending();
            match it.next() {
                Some((idx, val)) => {
                    proof {
                        lemma_sorted_first(before, idx);
                    }
                    calls.call_entry(idx, val);
                },
                None => {
                    break;
                },
            }
        }
    }

    /// An iterator over the occupied slots, in ascending order.
    pub fn iter<'a>(&'a self) -> (it: SlabIter<'a, T>)
        requires
            self.wf(),
        ensures
            it.entries() == self@,
            it.pending() == self@.dom(),
    {
        let cursor = BitCursor::new(&self.tree);
        assert(self.tree@ =~= self@.dom());
        SlabIter { slab: self, cursor }
    }

    /// The values of the given occupied slots, to be changed in place, the last
    /// one first.
    pub(crate) fn entries_at_mut<'a>(&'a mut self, indices: &Vec<u32>) -> (v: Vec<(u32, &'a mut T)>)
        requires
            old(self).wf(),
            ascending(indices@),
            forall|k: int|
                0 <= k < indices@.len() ==> old(self)@.contains_key(#[trigger] indices@[k]),
        ensures
            lends_entries(v@.reverse(), indices@, old(self)@),
            final(self).wf(),
            final(self).capacity() == old(self).capacity(),
            final(self).written() == old(self).written(),
            final(self)@.dom() == old(self)@.dom(),
            forall|k: int|
                0 <= k < v@.len() ==> final(self)@[(#[trigger] v@[k]).0] == *final(v@[k].1),
            forall|i: u32|
                old(self)@.contains_key(i) && !indices@.contains(i) ==> #[trigger] final(self)@[i]
                    == old(self)@[i],
    {
        let ghost tree = self.tree;
        let ghost slots = self.slots@;
        let v = split_values(&mut self.slots, indices);
        proof {
            let end = after_borrow(self).slots@;
            assert forall|i: int| 0 <= i < slots.len() implies (#[trigger] end[i] is Some
                <==> tree@.contains(i as u32)) by {
                if exists|k: int| 0 <= k < indices@.len() && #[trigger] indices@[k] == i {
                    let k = choose|k: int| 0 <= k < indices@.len() && #[trigger] indices@[k] == i;
                    let item = v@[v@.len() - 1 - k];
                    assert(item.0 == indices@[k]);
                    assert(tree@.contains(indices@[k]));
                } else {
                    assert(end[i] == slots[i]);
                }
            }
        }
        v
    }

    /// An iterator over the occupied slots, in ascending order, that lets the
    /// values be changed.
    pub fn iter_mut<'a>(&'a mut self) -> (it: SlabIterMut<'a, T>)
        requires
            old(self).wf(),
        ensures
            lends_entries(it.items(), sorted(old(self)@.dom()), old(self)@),
            final(self).wf(),
            final(self).capacity() == old(self).capacity(),
            final(self).written() == old(self).written(),
            final(self)@.dom() == old(self)@.dom(),
            forall|k: int|
                0 <= k < it.items().len() ==> final(self)@[(#[trigger] it.items()[k]).0]
                    == *final(it.items()[k].1),
    {
        let indices = self.tree.set_indices();
        proof {
            assert(self@.dom() =~= self.tree@);
            lemma_sorted_unique(indices@, self@.dom());
        }
        SlabIterMut { stack: self.entries_at_mut(&indices) }
    }

    /// The number of occupied slots.
    pub fn count_occupied(&self) -> (r: usize)
        requires
            self.wf(),
        ensures
            self@.dom().finite(),
            r == self@.len(),
    {
        assert(self.tree@ =~= self@.dom());
        self.tree.count_set()
    }

    /// The entries of the given occupied slots, in the given order.
    pub fn entries_at(&self, indices: &Vec<u32>) -> (v: Vec<(u32, &T)>)
        requires
            self.wf(),
            forall|k: int| 0 <= k < indices@.len() ==> self@.contains_key(#[trigger] indices@[k]),
        ensures
            keys_of(v@) == indices@,
            entries_in(v@, self@),
    {
        let mut v: Vec<(u32, &T)> = Vec::new();
        let mut k: usize = 0;
        while k < indices.len()
            invariant
                self.wf(),
                k <= indices@.len(),
                forall|k: int|
                    0 <= k < indices@.len() ==> self@.contains_key(#[trigger] indices@[k]),
                v@.len() == k,
                forall|j: int| 0 <= j < k ==> (#[trigger] v@[j]).0 == indices@[j],
                entries_in(v@, self@),
            decreases indices@.len() - k,
        {
            let idx: u32 = indices[k];
            v.push((idx, self.get_unchecked(idx)));
            k = k + 1;
        }
        assert(keys_of(v@) =~= indices@);
        v
    }

    /// The occupied slot that has exactly `choice` occupied slots below it, with
    /// its value, or `None` if there are not that many.
    pub fn nth_occupied(&self, choice: u32) -> (r: Option<(u32, &T)>)
        requires
            self.wf(),
        ensures
            match r {
                Some((i, v)) => {
                    &&& self@.contains_key(i)
                    &&& *v == self@[i]
                    &&& rank(self@.dom(), i) == choice
                },
                None => self@.len() <= choice,
            },
    {
        assert(self.tree@ =~= self@.dom());
        match self.tree.nth_set(choice) {
            Some(idx) => Some((idx, self.get_unchecked(idx))),
            None => None,
        }
    }

    /// The occupied slot whose rank is given by one draw below the number of
    /// occupied slots, with its value, or `None`, without a draw, if the slab is
    /// empty.
    pub fn random_occupied<R: RandomSource>(&self, rng: &mut R) -> (r: Option<(u32, &T)>)
        requires
            self.wf(),
        ensures
            match r {
                Some((i, v)) => {
                    &&& draws_member(self@.dom(), *old(rng), i, *final(rng))
                    &&& *v == self@[i]
                },
                None => self@ == Map::<u32, T>::empty() && *final(rng) == *old(rng),
            },
    {
        assert(self.tree@ =~= self@.dom());
        match self.tree.random_set(rng) {
            Some(idx) => Some((idx, self.get_unchecked(idx))),
            None => {
                assert(self@ =~= Map::<u32, T>::empty());
                None
            },
        }
    }

    /// The occupied slot whose rank is given by one draw below the number of
    /// occupied slots, with its value to be changed in place, or `None`, without a
    /// draw, if the slab is empty.
    pub fn random_occupied_mut<R: RandomSource>(&mut self, rng: &mut R) -> (r: Option<
        (u32, &mut T),
    >)
        requires
            old(self).wf(),
        ensures
            final(self).wf(),
            final(self).capacity() == old(self).capacity(),
            final(self).written() == old(self).written(),
            match r {
                Some((i, v)) => {
                    &&& draws_member(old(self)@.dom(), *old(rng), i, *final(rng))
                    &&& *v == old(self)@[i]
                    &&& final(self)@ == old(self)@.insert(i, *final(v))
                },
                None => {
                    &&& old(self)@ == Map::<u32, T>::empty()
                    &&& final(self)@ == old(self)@
                    &&& *final(rng) == *old(rng)
                },
            },
    {
        assert(self.tree@ =~= self@.dom());
        match self.tree.random_set(rng) {
            Some(idx) => Some((idx, self.get_unchecked_mut(idx))),
            None => {
                assert(self@ =~= Map::<u32, T>::empty());
                None
            },
        }
    }

    /// `count` occupied slots, each picked by one draw, so that a slot can occur
    /// more than once; none, without a draw, if the slab is empty.
    pub fn random_occupied_many<R: RandomSource>(&self, rng: &mut R, count: usize) -> (v: Vec<
        (u32, &T),
    >)
        requires
            self.wf(),
        ensures
            entries_in(v@, self@),
            v@.len() == if self@ == Map::<u32, T>::empty() {
                0
            } else {
                count as nat
            },
            draws_members(self@.dom(), *old(rng), keys_of(v@), *final(rng)),
    {
        let mut results: Vec<(u32, &T)> = Vec::new();
        let mut k: usize = 0;
        let ghost mut states: Seq<R> = seq![*rng];
        while k < count
            invariant
                self.wf(),
                k <= count,
                entries_in(results@, self@),
                results@.len() == k,
                k > 0 ==> self@ != Map::<u32, T>::empty(),
                draw_trace(self@.dom(), states, keys_of(results@)),
                states.first() == *old(rng),
                states.last() == *rng,
            decreases count - k,
        {
            let ghost drawn = keys_of(results@);
            match self.random_occupied(rng) {
                Some(item) => {
                    results.push(item);
                    proof {
                        lemma_draw_trace_push(self@.dom(), states, drawn, item.0, *rng);
                        assert(keys_of(results@) =~= drawn.push(item.0));
                        states = states.push(*rng);
                    }
                },
                None => {
                    return results;
                },
            }
            k = k + 1;
        }
        results
    }

    /// `count` different occupied slots picked by draws, or all of them, in
    /// ascending order and without a draw, if there are no more than `count`.
    ///
    /// A draw that hits a slot already picked is repeated. Should
    /// [`MAX_DRAWS`](crate::bitmap_tree::MAX_DRAWS) draws not be enough, the lowest
    /// slots not yet picked make up the rest.
    pub fn random_occupied_unique<R: RandomSource>(&self, rng: &mut R, count: usize) -> (v: Vec<
        (u32, &T),
    >)
        requires
            self.wf(),
        ensures
            entries_in(v@, self@),
            count >= self@.len() ==> {
                &&& lists_ascending(keys_of(v@), self@.dom())
                &&& *final(rng) == *old(rng)
            },
            count < self@.len() ==> {
                &&& picks(keys_of(v@), self@.dom(), count as int)
                &&& draws_sample(
                    self@.dom(),
                    count as int,
                    *old(rng),
                    keys_of(v@),
                    *final(rng),
                )
            },
    {
        assert(self.tree@ =~= self@.dom());
        let indices = self.tree.random_set_unique(rng, count);
        self.entries_at(&indices)
    }
}

/// Goes through the occupied slots of a slab in ascending order.
pub struct SlabIter<'a, T> {
    slab: &'a HiSlab<T>,
    cursor: BitCursor,
}

impl<'a, T> SlabIter<'a, T> {
    /// The iterator stands at a slot of a well-formed slab.
    #[verifier::type_invariant]
    spec fn wf(self) -> bool {
        self.slab.wf() && self.cursor.wf(&self.slab.tree)
    }

    /// The entries of the slab.
    pub closed spec fn entries(&self) -> Map<u32, T> {
        self.slab@
    }

    /// The indices that are still to come.
    pub closed spec fn pending(&self) -> Set<u32> {
        self.cursor.remaining(&self.slab.tree)
    }
}

/// The entries of `m` under the keys of `s`, in ascending order.
pub open spec fn sorted_entries<'a, T>(s: Set<u32>, m: Map<u32, T>) -> Seq<(u32, &'a T)> {
    Seq::new(sorted(s).len(), |k: int| (sorted(s)[k], &m[sorted(s)[k]]))
}

impl<'a, T> vstd::std_specs::iter::IteratorSpecImpl for SlabIter<'a, T> {
    open spec fn obeys_prophetic_iter_laws(&self) -> bool {
        true
    }

    open spec fn remaining(&self) -> Seq<(u32, &'a T)> {
        sorted_entries(self.pending(), self.entries())
    }

    open spec fn will_return_none(&self) -> bool {
        true
    }

    open spec fn decrease(&self) -> Option<nat> {
        Some(self.pending().len())
    }

    open spec fn initial_value_relation(&self, init: &Self) -> bool {
        self.entries() == init.entries() && self.pending() == init.pending()
    }

    open spec fn peek(&self, index: int) -> Option<(u32, &'a T)> {
        None
    }
}

impl<'a, T> Iterator for SlabIter<'a, T> {
    type Item = (u32, &'a T);

    /// The next occupied slot and its value, or `None` when all have come.
    fn next(&mut self) -> (r: Option<(u32, &'a T)>)
        ensures
            final(self).entries() == old(self).entries(),
            match r {
                Some((i, v)) => {
                    &&& old(self).entries().contains_key(i)
                    &&& *v == old(self).entries()[i]
                    &&& is_least(old(self).pending(), i)
                    &&& final(self).pending() == old(self).pending().remove(i)
                },
                None => {
                    &&& old(self).pending() == Set::<u32>::empty()
                    &&& final(self).pending() == Set::<u32>::empty()
                },
            },
    {
        proof {
            use_type_invariant(&*self);
            lemma_set_count(self.pending());
        }
        let slab: &'a HiSlab<T> = self.slab;
        let mut cursor = self.cursor;
        let r = cursor.next(&slab.tree);
        self.cursor = cursor;
        match r {
            Some(idx) => {
                proof {
                    lemma_sorted_first(old(self).pending(), idx);
                    assert(sorted_entries::<T>(self.pending(), self.entries())
                        =~= sorted_entries::<T>(old(self).pending(), self.entries()).drop_first());
                }
                Some((idx, slab.get_unchecked(idx)))
            },
            None => None,
        }
    }
}

impl<'a, T> IntoIterator for &'a HiSlab<T> {
    type Item = (u32, &'a T);

    type IntoIter = SlabIter<'a, T>;

    fn into_iter(self) -> (it: SlabIter<'a, T>)
        requires
            self.wf(),
        ensures
            it.entries() == self@,
            it.pending() == self@.dom(),
    {
        self.iter()
    }
}

/// Cuts a run of slots before the occupied slot `at` and lends out the slots
/// before it and its value.
fn split_value<'a, T>(slots: &'a mut [Option<T>], at: usize) -> (r: (
    &'a mut [Option<T>],
    &'a mut T,
))
    requires
        at < old(slots)@.len(),
        old(slots)@[at as int] is Some,
    ensures
        r.0@ == old(slots)@.take(at as int),
        Some(*r.1) == old(slots)@[at as int],
        final(slots)@ == final(r.0)@ + old(slots)@.skip(at as int).update(0, Some(*final(r.1))),
{
    let (head, tail) = slots.split_at_mut(at);
    let val = tail.first_mut().unwrap().as_mut().unwrap();
    (head, val)
}

/// Lends out the values of the occupied slots `indices`, the last one first.
fn split_values<'a, T>(slots: &'a mut Vec<Option<T>>, indices: &Vec<u32>) -> (v: Vec<
    (u32, &'a mut T),
>)
    requires
        ascending(indices@),
        forall|k: int|
            0 <= k < indices@.len() ==> (#[trigger] indices@[k]) < old(slots)@.len()
                && old(slots)@[indices@[k] as int] is Some,
    ensures
        v@.len() == indices@.len(),
        forall|k: int| 0 <= k < v@.len() ==> (#[trigger] v@[k]).0 == indices@[v@.len() - 1 - k],
        forall|k: int|
            0 <= k < v@.len() ==> Some(*(#[trigger] v@[k]).1) == old(slots)@[v@[k].0 as int],
        final(slots)@.len() == old(slots)@.len(),
        forall|k: int|
            0 <= k < v@.len() ==> Some(*final((#[trigger] v@[k]).1))
                == final(slots)@[v@[k].0 as int],
        forall|i: int|
            0 <= i < old(slots)@.len() && (forall|k: int|
                0 <= k < indices@.len() ==> #[trigger] indices@[k] != i)
                ==> #[trigger] final(slots)@[i] == old(slots)@[i],
{
    let ghost all = slots@;
    let mut v: Vec<(u32, &'a mut T)> = Vec::new();
    let mut k: usize = indices.len();
    // The slots below the values lent out so far.
    let mut rest: &'a mut [Option<T>] = slots.as_mut_slice();
    while k > 0
        invariant
            k <= indices@.len(),
            ascending(indices@),
            forall|k: int|
                0 <= k < indices@.len() ==> (#[trigger] indices@[k]) < all.len()
                    && all[indices@[k] as int] is Some,
            rest@ == all.take(rest@.len() as int),
            rest@.len() <= all.len(),
            k < indices@.len() ==> rest@.len() == indices@[k as int],
            k == indices@.len() ==> rest@.len() == all.len(),
            after_borrow(slots)@.len() == final(rest)@.len() + (all.len() - rest@.len()),
            after_borrow(slots)@.take(final(rest)@.len() as int) == final(rest)@,
            v@.len() == indices@.len() - k,
            forall|j: int|
                0 <= j < v@.len() ==> (#[trigger] v@[j]).0 == indices@[indices@.len() - 1 - j],
            forall|j: int| 0 <= j < v@.len() ==> Some(*(#[trigger] v@[j]).1) == all[v@[j].0 as int],
            forall|j: int|
                0 <= j < v@.len() ==> (#[trigger] v@[j]).0 >= rest@.len() && Some(*final(v@[j].1))
                    == after_borrow(slots)@[final(rest)@.len() + (v@[j].0 - rest@.len())],
            forall|i: int|
                rest@.len() <= i < all.len() && (forall|k: int|
                    0 <= k < indices@.len() ==> #[trigger] indices@[k] != i)
                    ==> after_borrow(slots)@[final(rest)@.len() + (i - rest@.len())]
                    == #[trigger] all[i],
        decreases k,
    {
        k = k - 1;
        let idx: u32 = indices[k];
        let ghost len0 = rest@.len();
        let cur: &'a mut [Option<T>] = rest;
        assert forall|m: int| 0 <= m < final(cur)@.len() implies after_borrow(slots)@[m]
            == #[trigger] final(cur)@[m] by {
            assert(after_borrow(slots)@.take(final(cur)@.len() as int)[m] == final(cur)@[m]);
        }
        let (head, val) = split_value(cur, idx as usize);
        rest = head;
        assert forall|i: int| idx <= i < len0 implies after_borrow(slots)@[final(rest)@.len() + (i
            - idx)] == if i == idx {
            Some(*final(val))
        } else {
            #[trigger] all[i]
        } by {
            let part = all.take(len0 as int).skip(idx as int);
            assert((final(rest)@ + part.update(0, Some(*final(val))))[final(rest)@.len() + (i
                - idx)] == part.update(0, Some(*final(val)))[i - idx]);
        }
        assert(all[idx as int] is Some);
        assert(after_borrow(slots)@[final(rest)@.len() as int] == Some(*final(val)));
        v.push((idx, val));
    }
    assert forall|i: int| 0 <= i < rest@.len() implies #[trigger] after_borrow(slots)@[i]
        == all[i] by {
        assert(after_borrow(slots)@.take(rest@.len() as int)[i] == rest@[i]);
    }
    v
}

/// Goes through the occupied slots of a slab in ascending order and lets their
/// values be changed.
pub struct SlabIterMut<'a, T> {
    /// What is still to come, the next one last.
    stack: Vec<(u32, &'a mut T)>,
}

impl<'a, T> SlabIterMut<'a, T> {
    /// The slots that are still to come, with their values.
    pub closed spec fn items(&self) -> Seq<(u32, &'a mut T)> {
        self.stack@.reverse()
    }
}

impl<'a, T> vstd::std_specs::iter::IteratorSpecImpl for SlabIterMut<'a, T> {
    open spec fn obeys_prophetic_iter_laws(&self) -> bool {
        true
    }

    open spec fn remaining(&self) -> Seq<(u32, &'a mut T)> {
        self.items()
    }

    open spec fn will_return_none(&self) -> bool {
        true
    }

    open spec fn decrease(&self) -> Option<nat> {
        Some(self.items().len())
    }

    open spec fn initial_value_relation(&self, init: &Self) -> bool {
        self.items() == init.items()
    }

    open spec fn peek(&self, index: int) -> Option<(u32, &'a mut T)> {
        None
    }
}

impl<'a, T> Iterator for SlabIterMut<'a, T> {
    type Item = (u32, &'a mut T);

    /// The next occupied slot and its value, or `None` when all have come.
    fn next(&mut self) -> (r: Option<(u32, &'a mut T)>)
        ensures
            match r {
                Some(item) => {
                    &&& old(self).items().len() > 0
                    &&& item == old(self).items()[0]
                    &&& final(self).items() == old(self).items().drop_first()
                },
                None => old(self).items().len() == 0 && final(self).items().len() == 0,
            },
    {
        let r = self.stack.pop();
        assert(r is Some ==> self.items() =~= old(self).items().drop_first());
        r
    }
}

impl<'a, T> IntoIterator for &'a mut HiSlab<T> {
    type Item = (u32, &'a mut T);

    type IntoIter = SlabIterMut<'a, T>;

    fn into_iter(self) -> (it: SlabIterMut<'a, T>)
        requires
            old(self).wf(),
        ensures
            lends_entries(it.items(), sorted(old(self)@.dom()), old(self)@),
            final(self).wf(),
            final(self).capacity() == old(self).capacity(),
            final(self).written() == old(self).written(),
            final(self)@.dom() == old(self)@.dom(),
            forall|k: int|
                0 <= k < it.items().len() ==> final(self)@[(#[trigger] it.items()[k]).0]
                    == *final(it.items()[k].1),
    {
        self.iter_mut()
    }
}

/// Moves the values of a slab out, in ascending order of their slots. Values
/// that have not been taken are dropped with the iterator.
pub struct SlabIntoIter<T> {
    slots: Vec<Option<T>>,
    tree: BitmapTree,
    cursor: BitCursor,
}

impl<T> SlabIntoIter<T> {
    /// Every index that is still to come has its value.
    #[verifier::type_invariant]
    spec fn wf(self) -> bool {
        &&& self.tree.wf()
        &&& self.cursor.wf(&self.tree)
        &&& forall|i: u32| #[trigger]
            self.cursor.remaining(&self.tree).contains(i) ==> i < self.slots@.len()
                && self.slots@[i as int] is Some
    }

    /// The entries that are still to come.
    pub closed spec fn entries(&self) -> Map<u32, T> {
        Map::new(
            |i: u32| self.cursor.remaining(&self.tree).contains(i),
            |i: u32| self.slots@[i as int]->0,
        )
    }
}

/// The entries of `m`, in ascending order of their keys.
pub open spec fn sorted_pairs<T>(m: Map<u32, T>) -> Seq<(u32, T)> {
    Seq::new(sorted(m.dom()).len(), |k: int| (sorted(m.dom())[k], m[sorted(m.dom())[k]]))
}

impl<T> vstd::std_specs::iter::IteratorSpecImpl for SlabIntoIter<T> {
    open spec fn obeys_prophetic_iter_laws(&self) -> bool {
        true
    }

    open spec fn remaining(&self) -> Seq<(u32, T)> {
        sorted_pairs(self.entries())
    }

    open spec fn will_return_none(&self) -> bool {
        true
    }

    open spec fn decrease(&self) -> Option<nat> {
        Some(self.entries().dom().len())
    }

    open spec fn initial_value_relation(&self, init: &Self) -> bool {
        self.entries() == init.entries()
    }

    open spec fn peek(&self, index: int) -> Option<(u32, T)> {
        None
    }
}

impl<T> Iterator for SlabIntoIter<T> {
    type Item = (u32, T);

    /// The next entry, or `None` when all have come.
    fn next(&mut self) -> (r: Option<(u32, T)>)
        ensures
            match r {
                Some((i, v)) => {
                    &&& is_least(old(self).entries().dom(), i)
                    &&& v == old(self).entries()[i]
                    &&& final(self).entries() == old(self).entries().remove(i)
                },
                None => {
                    &&& old(self).entries() == Map::<u32, T>::empty()
                    &&& final(self).entries() == Map::<u32, T>::empty()
                },
            },
    {
        proof {
            use_type_invariant(&*self);
            lemma_set_count(self.entries().dom());
        }
        let mut cursor = self.cursor;
        let r = cursor.next(&self.tree);
        self.cursor = cursor;
        match r {
            Some(idx) => {
                let v = self.slots[idx as usize].take().unwrap();
                proof {
                    let before = old(self).entries();
                    assert(before.dom() =~= old(self).cursor.remaining(&self.tree));
                    assert(self.entries() =~= before.remove(idx));
                    lemma_sorted_first(before.dom(), idx);
                    assert(self.entries().dom() =~= before.dom().remove(idx));
                    lemma_sorted_lists(self.entries().dom());
                    assert(sorted_pairs(self.entries()) =~= sorted_pairs(before).drop_first());
                }
                Some((idx, v))
            },
            None => {
                proof {
                    assert(self.entries() =~= Map::<u32, T>::empty());
                    assert(old(self).entries() =~= Map::<u32, T>::empty());
                }
                None
            },
        }
    }
}

impl<T> IntoIterator for HiSlab<T> {
    type Item = (u32, T);

    type IntoIter = SlabIntoIter<T>;

    /// An iterator that moves the values out, in ascending order of their
    /// slots.
    fn into_iter(self) -> (it: SlabIntoIter<T>)
        requires
            self.wf(),
        ensures
            it.entries() == self@,
    {
        let cursor = BitCursor::new(&self.tree);
        let it = SlabIntoIter { slots: self.slots, tree: self.tree, cursor };
        assert(it.entries() =~= self@);
        it
    }
}

} // verus!
