//! A slab whose values can carry a tag.
use vstd::prelude::*;

use crate::bitmap_tree::{
    draw_trace, draws_member, draws_members, draws_sample, lemma_draw_trace_push, picks, BitCursor,
    BitmapTree, MAX_SLOTS,
};
use crate::calling::Calls;
use crate::counting::{
    is_least, lemma_set_count, lemma_sorted_first, lemma_sorted_unique, lists_ascending, rank,
    sorted,
};
use crate::error::StorageError;
use crate::random::RandomSource;
use crate::slab::{
    allocator_says, entries_in, has_room, insertion, keys_of, lends_entries, reaching, removal,
    sorted_entries, HiSlab, SlabIntoIter, SlabIter, SlabIterMut,
};

verus! {

/// A [`HiSlab`] with a second bitmap, which marks some of the occupied slots as
/// tagged.
pub struct TaggedHiSlab<T> {
    inner: HiSlab<T>,
    tagged_tree: BitmapTree,
}

/// Tagging `idx` changes something exactly if the slot is occupied and not yet
/// tagged; then `idx` joins the tags.
pub open spec fn tagging(
    occupied: Set<u32>,
    before: Set<u32>,
    idx: u32,
    done: bool,
    after: Set<u32>,
) -> bool {
    &&& done == (occupied.contains(idx) && !before.contains(idx))
    &&& after == if done {
        before.insert(idx)
    } else {
        before
    }
}

/// Untagging `idx` changes something exactly if it is tagged; then it leaves the
/// tags.
pub open spec fn untagging(before: Set<u32>, idx: u32, done: bool, after: Set<u32>) -> bool {
    &&& done == before.contains(idx)
    &&& after == before.remove(idx)
}

/// `f` can answer `keep` when it is shown `val` under index `idx`.
pub open spec fn can_answer<T, F>(f: F, idx: u32, val: T, keep: bool) -> bool where
    F: FnMut(u32, &mut T) -> bool,
 {
    exists|v: &mut T| *v == val && #[trigger] call_ensures(f, (idx, v), keep)
}

/// Of the indices in `before`, those in `judged` stay in `after` exactly as `f`
/// answers on their values; the others stay anyway.
pub open spec fn retaining<T, F>(
    f: F,
    m: Map<u32, T>,
    judged: Set<u32>,
    before: Set<u32>,
    after: Set<u32>,
) -> bool where F: FnMut(u32, &mut T) -> bool {
    &&& after.subset_of(before)
    &&& forall|i: u32| #[trigger]
        judged.contains(i) ==> can_answer(f, i, m[i], after.contains(i))
    &&& forall|i: u32| #[trigger]
        before.contains(i) && !judged.contains(i) ==> after.contains(i)
}

/// One more position of `v` adds just its member.
proof fn lemma_take_next(v: Seq<u32>, k: int)
    requires
        0 <= k < v.len(),
    ensures
        forall|i: u32| #[trigger]
            v.take(k + 1).contains(i) == (v.take(k).contains(i) || i == v[k]),
{
    let a = v.take(k);
    let b = v.take(k + 1);
    assert forall|i: u32| #[trigger] b.contains(i) == (a.contains(i) || i == v[k]) by {
        if a.contains(i) {
            let j = choose|j: int| 0 <= j < a.len() && a[j] == i;
            assert(b[j] == i);
        }
        assert(b[k] == v[k]);
        if b.contains(i) {
            let j = choose|j: int| 0 <= j < b.len() && b[j] == i;
            assert(j < k ==> a[j] == i);
        }
    }
}

impl<T> View for TaggedHiSlab<T> {
    type V = Map<u32, T>;

    /// The values by their indices.
    closed spec fn view(&self) -> Map<u32, T> {
        self.inner@
    }
}

impl<T> TaggedHiSlab<T> {
    /// The slab and the bitmap are well formed, and only occupied slots are
    /// tagged.
    pub closed spec fn wf(&self) -> bool {
        &&& self.inner.wf()
        &&& self.tagged_tree.wf()
        &&& self.tags().subset_of(self@.dom())
    }

    /// The tagged indices.
    pub closed spec fn tags(&self) -> Set<u32> {
        self.tagged_tree@
    }

    /// The largest number of slots.
    pub closed spec fn capacity(&self) -> u32 {
        self.inner.capacity()
    }

    /// The number of slots that have been written; see [`HiSlab::written`].
    pub closed spec fn written(&self) -> nat {
        self.inner.written()
    }

    /// Only occupied slots are tagged.
    pub proof fn law_tagged_is_occupied(&self)
        requires
            self.wf(),
        ensures
            forall|i: u32| #[trigger] self.tags().contains(i) ==> self@.contains_key(i),
    {
        assert forall|i: u32| #[trigger] self.tags().contains(i) implies self@.contains_key(i) by {
            assert(self@.dom().contains(i));
        }
    }

    /// A slab without tags around the outcome of creating the inner slab.
    pub fn from_inner(inner: Result<HiSlab<T>, StorageError>) -> (r: Result<Self, StorageError>)
        requires
            inner matches Ok(slab) ==> slab.wf(),
        ensures
            match inner {
                Ok(slab) => {
                    &&& r is Ok
                    &&& r->Ok_0.wf()
                    &&& r->Ok_0@ == slab@
                    &&& r->Ok_0.tags() == Set::<u32>::empty()
                    &&& r->Ok_0.capacity() == slab.capacity()
                    &&& r->Ok_0.written() == slab.written()
                },
                Err(e) => r == Err::<Self, StorageError>(e),
            },
    {
        match inner {
            Ok(slab) => Ok(TaggedHiSlab { inner: slab, tagged_tree: BitmapTree::new() }),
            Err(e) => Err(e),
        }
    }

    /// Puts `val` into the lowest free slot, without a tag, and returns the
    /// slot's index.
    pub fn insert(&mut self, val: T) -> (r: u32)
        requires
            old(self).wf(),
            has_room(old(self)@.dom(), old(self).capacity()),
        ensures
            final(self).wf(),
            final(self).capacity() == old(self).capacity(),
            final(self).written() == reaching(old(self).written(), r),
            r < old(self).capacity(),
            r < MAX_SLOTS,
            insertion(old(self)@, val, r, final(self)@),
            final(self).tags() == old(self).tags(),
    {
        let idx = self.inner.insert(val);
        self.tagged_tree.clear_bit(idx);
        proof {
            assert(!old(self)@.dom().contains(idx));
            assert(self.tags() =~= old(self).tags());
        }
        idx
    }

    /// Puts `val` into the lowest free slot, with a tag, and returns the slot's
    /// index.
    pub fn insert_tagged(&mut self, val: T) -> (r: u32)
        requires
            old(self).wf(),
            has_room(old(self)@.dom(), old(self).capacity()),
        ensures
            final(self).wf(),
            final(self).capacity() == old(self).capacity(),
            final(self).written() == reaching(old(self).written(), r),
            r < old(self).capacity(),
            r < MAX_SLOTS,
            insertion(old(self)@, val, r, final(self)@),
            final(self).tags() == old(self).tags().insert(r),
    {
        let idx = self.inner.insert(val);
        self.tagged_tree.set_bit(idx);
        idx
    }

    /// Takes the value out of a slot, or returns `None` if the slot is empty.
    /// The slot becomes free and loses its tag.
    pub fn remove(&mut self, idx: u32) -> (r: Option<T>)
        requires
            old(self).wf(),
        ensures
            final(self).wf(),
            final(self).capacity() == old(self).capacity(),
            final(self).written() == old(self).written(),
            removal(old(self)@, idx, r, final(self)@),
            final(self).tags() == old(self).tags().remove(idx),
    {
        let result = self.inner.remove(idx);
        if result.is_some() {
            self.tagged_tree.clear_bit(idx);
        }
        assert(self.tags() =~= old(self).tags().remove(idx));
        result
    }

    /// Tags an occupied slot. Returns `false`, and does nothing, if the slot is
    /// empty or already tagged.
    pub fn tag(&mut self, idx: u32) -> (r: bool)
        requires
            old(self).wf(),
        ensures
            final(self).wf(),
            final(self).capacity() == old(self).capacity(),
            final(self).written() == old(self).written(),
            final(self)@ == old(self)@,
            tagging(old(self)@.dom(), old(self).tags(), idx, r, final(self).tags()),
    {
        if !self.inner.is_occupied(idx) {
            return false;
        }
        if self.tagged_tree.is_set(idx) {
            return false;
        }
        proof {
            self.inner.law_indices_bounded();
        }
        self.tagged_tree.set_bit(idx);
        true
    }

    /// Takes the tag off a slot. Returns `false`, and does nothing, if the slot
    /// is empty or not tagged.
    pub fn untag(&mut self, idx: u32) -> (r: bool)
        requires
            old(self).wf(),
        ensures
            final(self).wf(),
            final(self).capacity() == old(self).capacity(),
            final(self).written() == old(self).written(),
            final(self)@ == old(self)@,
            untagging(old(self).tags(), idx, r, final(self).tags()),
    {
        if !self.inner.is_occupied(idx) {
            assert(self.tags() =~= old(self).tags().remove(idx));
            return false;
        }
        if !self.tagged_tree.is_set(idx) {
            assert(self.tags() =~= old(self).tags().remove(idx));
            return false;
        }
        self.tagged_tree.clear_bit(idx);
        true
    }

    /// Whether a slot is tagged.
    pub fn is_tagged(&self, idx: u32) -> (r: bool)
        ensures
            r == self.tags().contains(idx),
    {
        self.tagged_tree.is_set(idx)
    }

    /// Makes the calls that are due, one for each tagged slot, whose value may be
    /// changed by it, and returns the indices for which the answer was `false`.
    fn judge_tagged<F>(&mut self, calls: &mut Calls<F>) -> (rejected: Vec<u32>) where
        F: FnMut(u32, &mut T) -> bool,

        requires
            old(self).wf(),
            old(calls).due() == sorted(old(self).tags()),
            forall|i: u32, v: &mut T|
                old(self).tags().contains(i) && *v == old(self)@[i] ==> #[trigger] call_requires(
                    old(calls).callee(),
                    (i, v),
                ),
        ensures
            final(calls).due() == Seq::<u32>::empty(),
            final(self).wf(),
            final(self).capacity() == old(self).capacity(),
            final(self).written() == old(self).written(),
            final(self)@.dom() == old(self)@.dom(),
            final(self).tags() == old(self).tags(),
            forall|i: u32|
                old(self)@.contains_key(i) && !old(self).tags().contains(i)
                    ==> #[trigger] final(self)@[i] == old(self)@[i],
            forall|i: u32| #[trigger]
                old(self).tags().contains(i) ==> exists|v: &mut T, keep: bool|
                    *v == old(self)@[i] && *final(v) == final(self)@[i] && keep
                        == !rejected@.contains(i) && #[trigger] call_ensures(
                        old(calls).callee(),
                        (i, v),
                        keep,
                    ),
            forall|k: int|
                0 <= k < rejected@.len() ==> old(self).tags().contains(#[trigger] rejected@[k]),
    {
        let ghost f = calls.callee();
        let mut rejected: Vec<u32> = Vec::new();
        let mut cursor = BitCursor::new(&self.tagged_tree);
        loop
            invariant
                self.wf(),
                cursor.wf(&self.tagged_tree),
                self.capacity() == old(self).capacity(),
                self.written() == old(self).written(),
                self@.dom() == old(self)@.dom(),
                self.tagged_tree == old(self).tagged_tree,
                cursor.remaining(&self.tagged_tree).subset_of(self.tags()),
                calls.callee() == f,
                calls.due() == sorted(cursor.remaining(&self.tagged_tree)),
                forall|i: u32, v: &mut T|
                    self.tags().contains(i) && *v == old(self)@[i] ==> #[trigger] call_requires(
                        f,
                        (i, v),
                    ),
                forall|i: u32|
                    old(self)@.contains_key(i) && (!self.tags().contains(i) || cursor.remaining(
                        &self.tagged_tree,
                    ).contains(i)) ==> #[trigger] self@[i] == old(self)@[i],
                forall|i: u32| #[trigger]
                    self.tags().contains(i) && !cursor.remaining(&self.tagged_tree).contains(i)
                        ==> exists|v: &mut T, keep: bool|
                        *v == old(self)@[i] && *final(v) == self@[i] && keep
                            == !rejected@.contains(i) && #[trigger] call_ensures(f, (i, v), keep),
                forall|k: int|
                    0 <= k < rejected@.len() ==> self.tags().contains(#[trigger] rejected@[k])
                        && !cursor.remaining(&self.tagged_tree).contains(rejected@[k]),
            ensures
                cursor.remaining(&self.tagged_tree) == Set::<u32>::empty(),
            decreases cursor.remaining(&self.tagged_tree).len(),
        {
            proof {
                lemma_set_count(cursor.remaining(&self.tagged_tree));
                self.law_tagged_is_occupied();
            }
            let ghost remaining = cursor.remaining(&self.tagged_tree);
            match cursor.next(&self.tagged_tree) {
                Some(idx) => {
                    let ghost before = rejected@;
                    proof {
                        lemma_sorted_first(remaining, idx);
                    }
                    let val = self.inner.get_unchecked_mut(idx);
                    let keep = calls.call_entry_mut(idx, val);
                    if !keep {
                        rejected.push(idx);
                    }
                    proof {
                        assert forall|i: u32| i != idx implies rejected@.contains(i)
                            == before.contains(i) by {
                            if before.contains(i) {
                                let k = choose|k: int| 0 <= k < before.len() && before[k] == i;
                                assert(rejected@[k] == i);
                            }
                        }
                        assert(!before.contains(idx));
                        assert(!keep ==> rejected@[rejected@.len() - 1] == idx);
                        assert(rejected@.contains(idx) == !keep);
                    }
                },
                None => {
                    break;
                },
            }
        }
        rejected
    }
}

impl<T: Default> TaggedHiSlab<T> {
    /// An empty slab of at most `virtual_capacity` slots; see [`HiSlab::new`].
    pub fn new(initial_capacity: u32, virtual_capacity: u32) -> (r: Result<Self, StorageError>)
        requires
            initial_capacity <= virtual_capacity,
        ensures
            match r {
                Ok(slab) => {
                    &&& slab.wf()
                    &&& slab@ == Map::<u32, T>::empty()
                    &&& slab.tags() == Set::<u32>::empty()
                    &&& slab.capacity() == virtual_capacity
                    &&& slab.written() == initial_capacity
                    &&& virtual_capacity > 0 ==> allocator_says::<T>(virtual_capacity, true)
                },
                Err(e) => {
                    &&& e is Reservation
                    &&& virtual_capacity > 0
                    &&& allocator_says::<T>(virtual_capacity, false)
                },
            },
    {
        Self::from_inner(HiSlab::new(initial_capacity, virtual_capacity))
    }
}

impl<T> TaggedHiSlab<T> {
    /// Shows every tagged value to `f`, which may change it, and removes the
    /// entries for which `f` says `false`.
    pub fn retain_tagged<F>(&mut self, f: F) where F: FnMut(u32, &mut T) -> bool
        requires
            old(self).wf(),
            forall|i: u32, v: &mut T|
                old(self).tags().contains(i) && *v == old(self)@[i] ==> #[trigger] call_requires(
                    f,
                    (i, v),
                ),
        ensures
            final(self).wf(),
            final(self).capacity() == old(self).capacity(),
            final(self).written() == old(self).written(),
            forall|i: u32|
                #![trigger final(self)@.contains_key(i)]
                !old(self).tags().contains(i) ==> {
                    &&& final(self)@.contains_key(i) == old(self)@.contains_key(i)
                    &&& old(self)@.contains_key(i) ==> final(self)@[i] == old(self)@[i]
                },
            forall|i: u32| #[trigger]
                old(self).tags().contains(i) ==> exists|v: &mut T, keep: bool|
                    {
                        &&& *v == old(self)@[i]
                        &&& #[trigger] call_ensures(f, (i, v), keep)
                        &&& final(self)@.contains_key(i) == keep
                        &&& keep ==> final(self)@[i] == *final(v)
                    },
            final(self).tags() == old(self).tags().intersect(final(self)@.dom()),
            retaining(f, old(self)@, old(self).tags(), old(self)@.dom(), final(self)@.dom()),
    {
        let mut calls = Calls::new(f, Ghost(self.tags()));
        let rejected = self.judge_tagged(&mut calls);
        let ghost judged = self@;
        let mut k: usize = 0;
        while k < rejected.len()
            invariant
                self.wf(),
                k <= rejected@.len(),
                self.capacity() == old(self).capacity(),
                self.written() == old(self).written(),
                judged.dom() == old(self)@.dom(),
                old(self).tags().subset_of(old(self)@.dom()),
                forall|j: int|
                    0 <= j < rejected@.len() ==> old(self).tags().contains(#[trigger] rejected@[j]),
                forall|i: u32| #[trigger]
                    self@.contains_key(i) == (judged.contains_key(i) && !rejected@.take(
                        k as int,
                    ).contains(i)),
                forall|i: u32| #[trigger] self@.contains_key(i) ==> self@[i] == judged[i],
                forall|i: u32| #[trigger]
                    self.tags().contains(i) == (old(self).tags().contains(i) && !rejected@.take(
                        k as int,
                    ).contains(i)),
            decreases rejected@.len() - k,
        {
            let idx: u32 = rejected[k];
            self.remove(idx);
            proof {
                lemma_take_next(rejected@, k as int);
            }
            k = k + 1;
        }
        proof {
            assert(rejected@.take(k as int) =~= rejected@);
            assert forall|i: u32| #[trigger] old(self).tags().contains(i) implies (
            self@.contains_key(i) == !rejected@.contains(i)) by {
                assert(old(self)@.dom().contains(i));
                assert(judged.contains_key(i));
            }
            assert(self.tags() =~= old(self).tags().intersect(self@.dom()));
        }
    }

    /// Shows every tagged value to `f`, which may change it, and takes the tag
    /// off the values for which `f` says `false`. They stay in the slab.
    pub fn retain_tag<F>(&mut self, f: F) where F: FnMut(u32, &mut T) -> bool
        requires
            old(self).wf(),
            forall|i: u32, v: &mut T|
                old(self).tags().contains(i) && *v == old(self)@[i] ==> #[trigger] call_requires(
                    f,
                    (i, v),
                ),
        ensures
            final(self).wf(),
            final(self).capacity() == old(self).capacity(),
            final(self).written() == old(self).written(),
            final(self)@.dom() == old(self)@.dom(),
            forall|i: u32|
                old(self)@.contains_key(i) && !old(self).tags().contains(i)
                    ==> #[trigger] final(self)@[i] == old(self)@[i],
            forall|i: u32| #[trigger]
                old(self).tags().contains(i) ==> exists|v: &mut T, keep: bool|
                    {
                        &&& *v == old(self)@[i]
                        &&& #[trigger] call_ensures(f, (i, v), keep)
                        &&& final(self).tags().contains(i) == keep
                        &&& final(self)@[i] == *final(v)
                    },
            retaining(f, old(self)@, old(self).tags(), old(self).tags(), final(self).tags()),
    {
        let mut calls = Calls::new(f, Ghost(self.tags()));
        let rejected = self.judge_tagged(&mut calls);
        let ghost judged = self@;
        let mut k: usize = 0;
        while k < rejected.len()
            invariant
                self.wf(),
                k <= rejected@.len(),
                self.capacity() == old(self).capacity(),
                self.written() == old(self).written(),
                self@ == judged,
                forall|i: u32| #[trigger]
                    self.tags().contains(i) == (old(self).tags().contains(i) && !rejected@.take(
                        k as int,
                    ).contains(i)),
            decreases rejected@.len() - k,
        {
            let idx: u32 = rejected[k];
            self.tagged_tree.clear_bit(idx);
            proof {
                lemma_take_next(rejected@, k as int);
            }
            k = k + 1;
        }
        assert(rejected@.take(k as int) =~= rejected@);
    }

    /// Whether a slot is occupied.
    pub fn is_occupied(&self, idx: u32) -> (r: bool)
        requires
            self.wf(),
        ensures
            r == self@.contains_key(idx),
    {
        self.inner.is_occupied(idx)
    }

    /// The value in a slot, or `None` if the slot is empty.
    pub fn get(&self, idx: u32) -> (r: Option<&T>)
        requires
            self.wf(),
        ensures
            r == if self@.contains_key(idx) {
                Some(&self@[idx])
            } else {
                None
            },
    {
        self.inner.get(idx)
    }

    /// The value in a slot, to be changed in place, or `None` if the slot is
    /// empty.
    pub fn get_mut(&mut self, idx: u32) -> (r: Option<&mut T>)
        requires
            old(self).wf(),
        ensures
            final(self).wf(),
            final(self).capacity() == old(self).capacity(),
            final(self).written() == old(self).written(),
            final(self).tags() == old(self).tags(),
            match r {
                Some(v) => {
                    &&& old(self)@.contains_key(idx)
                    &&& *v == old(self)@[idx]
                    &&& final(self)@ == old(self)@.insert(idx, *final(v))
                },
                None => !old(self)@.contains_key(idx) && final(self)@ == old(self)@,
            },
    {
        self.inner.get_mut(idx)
    }

    /// The value in a slot that is known to be occupied.
    pub fn get_unchecked(&self, idx: u32) -> (r: &T)
        requires
            self.wf(),
            self@.contains_key(idx),
        ensures
            *r == self@[idx],
    {
        self.inner.get_unchecked(idx)
    }

    /// The value in a slot that is known to be occupied, to be changed in
    /// place.
    pub fn get_unchecked_mut(&mut self, idx: u32) -> (r: &mut T)
        requires
            old(self).wf(),
            old(self)@.contains_key(idx),
        ensures
            *r == old(self)@[idx],
            final(self).wf(),
            final(self).capacity() == old(self).capacity(),
            final(self).written() == old(self).written(),
            final(self).tags() == old(self).tags(),
            final(self)@ == old(self)@.insert(idx, *final(r)),
    {
        self.inner.get_unchecked_mut(idx)
    }

    /// Calls `f` with each occupied slot's index and value, in ascending order.
    pub fn for_each_occupied<F>(&self, f: F) where F: FnMut(u32, &T)
        requires
            self.wf(),
            forall|i: u32| #[trigger]
                self@.contains_key(i) ==> call_requires(f, (i, &self@[i])),
        ensures
            forall|i: u32| #[trigger]
                self@.contains_key(i) ==> call_ensures(f, (i, &self@[i]), ()),
    {
        self.inner.for_each_occupied(f)
    }

    /// Calls `f` with each tagged slot's index and value, in ascending order.
    pub fn for_each_tagged<F>(&self, f: F) where F: FnMut(u32, &T)
        requires
            self.wf(),
            forall|i: u32| #[trigger]
                self.tags().contains(i) ==> call_requires(f, (i, &self@[i])),
        ensures
            forall|i: u32| #[trigger]
                self.tags().contains(i) ==> call_ensures(f, (i, &self@[i]), ()),
    {
        let mut calls = Calls::new(f, Ghost(self.tags()));
        self.call_each_tagged(&mut calls);
    }

    /// Makes the calls that are due, one for each tagged slot.
    pub(crate) fn call_each_tagged<F>(&self, calls: &mut Calls<F>) where F: FnMut(u32, &T)
        requires
            self.wf(),
            old(calls).due() == sorted(self.tags()),
            forall|i: u32| #[trigger]
                self.tags().contains(i) ==> call_requires(old(calls).callee(), (i, &self@[i])),
        ensures
            final(calls).due() == Seq::<u32>::empty(),
            forall|i: u32| #[trigger]
                self.tags().contains(i) ==> call_ensures(
                    old(calls).callee(),
                    (i, &self@[i]),
                    (),
                ),
    {
        let ghost f = calls.callee();
        let mut it = self.iter_tagged();
        loop
            invariant
                self.wf(),
                it.entries() == self@,
                calls.callee() == f,
                calls.due() == sorted(it.pending()),
                forall|i: u32| #[trigger]
                    self.tags().contains(i) ==> call_requires(f, (i, &self@[i])),
                it.pending().subset_of(self.tags()),
                forall|i: u32| #[trigger]
                    self.tags().contains(i) && !it.pending().contains(i) ==> call_ensures(
                        f,
                        (i, &self@[i]),
                        (),
                    ),
            ensures
                it.pending() == Set::<u32>::empty(),
            decreases it.pending().len(),
        {
            proof {
                lemma_set_count(it.pending());
            }
            let ghost before = it.pending();
            match it.next() {
                Some((idx, val)) => {
                    proof {
                        lemma_sorted_first(before, idx);
                    }
                    calls.call_entry(idx, val);
                },
                None => {
                    break;
                },
            }
        }
    }

    /// An iterator over the occupied slots, in ascending order.
    pub fn iter<'a>(&'a self) -> (it: SlabIter<'a, T>)
        requires
            self.wf(),
        ensures
            it.entries() == self@,
            it.pending() == self@.dom(),
    {
        self.inner.iter()
    }

    /// An iterator over the occupied slots, in ascending order, that lets the
    /// values be changed.
    pub fn iter_mut<'a>(&'a mut self) -> (it: SlabIterMut<'a, T>)
        requires
            old(self).wf(),
        ensures
            lends_entries(it.items(), sorted(old(self)@.dom()), old(self)@),
            final(self).wf(),
            final(self).capacity() == old(self).capacity(),
            final(self).written() == old(self).written(),
            final(self)@.dom() == old(self)@.dom(),
            final(self).tags() == old(self).tags(),
            forall|k: int|
                0 <= k < it.items().len() ==> final(self)@[(#[trigger] it.items()[k]).0]
                    == *final(it.items()[k].1),
    {
        self.inner.iter_mut()
    }

    /// An iterator over the tagged slots, in ascending order.
    pub fn iter_tagged<'a>(&'a self) -> (it: TaggedIter<'a, T>)
        requires
            self.wf(),
        ensures
            it.entries() == self@,
            it.pending() == self.tags(),
    {
        TaggedIter { slab: self, cursor: BitCursor::new(&self.tagged_tree) }
    }

    /// An iterator over the tagged slots, in ascending order, that lets the
    /// values be changed.
    pub fn iter_tagged_mut<'a>(&'a mut self) -> (it: TaggedIterMut<'a, T>)
        requires
            old(self).wf(),
        ensures
            lends_entries(it.items(), sorted(old(self).tags()), old(self)@),
            final(self).wf(),
            final(self).capacity() == old(self).capacity(),
            final(self).written() == old(self).written(),
            final(self)@.dom() == old(self)@.dom(),
            final(self).tags() == old(self).tags(),
            forall|k: int|
                0 <= k < it.items().len() ==> final(self)@[(#[trigger] it.items()[k]).0]
                    == *final(it.items()[k].1),
            forall|i: u32|
                old(self)@.contains_key(i) && !old(self).tags().contains(i)
                    ==> #[trigger] final(self)@[i] == old(self)@[i],
    {
        let indices = self.tagged_tree.set_indices();
        proof {
            self.law_tagged_is_occupied();
            lemma_sorted_unique(indices@, self.tags());
        }
        TaggedIterMut { stack: self.inner.entries_at_mut(&indices) }
    }

    /// The number of tagged slots.
    pub fn count_tagged(&self) -> (r: usize)
        requires
            self.wf(),
        ensures
            self.tags().finite(),
            r == self.tags().len(),
    {
        self.tagged_tree.count_set()
    }

    /// The number of occupied slots.
    pub fn count_occupied(&self) -> (r: usize)
        requires
            self.wf(),
        ensures
            self@.dom().finite(),
            r == self@.len(),
    {
        self.inner.count_occupied()
    }

    /// The occupied slot whose rank is given by one draw below the number of
    /// occupied slots, with its value, or `None`, without a draw, if the slab is
    /// empty.
    pub fn random_occupied<R: RandomSource>(&self, rng: &mut R) -> (r: Option<(u32, &T)>)
        requires
            self.wf(),
        ensures
            match r {
                Some((i, v)) => {
                    &&& draws_member(self@.dom(), *old(rng), i, *final(rng))
                    &&& *v == self@[i]
                },
                None => self@ == Map::<u32, T>::empty() && *final(rng) == *old(rng),
            },
    {
        self.inner.random_occupied(rng)
    }

    /// The occupied slot whose rank is given by one draw below the number of
    /// occupied slots, with its value to be changed in place, or `None`, without a
    /// draw, if the slab is empty.
    pub fn random_occupied_mut<R: RandomSource>(&mut self, rng: &mut R) -> (r: Option<
        (u32, &mut T),
    >)
        requires
            old(self).wf(),
        ensures
            final(self).wf(),
            final(self).capacity() == old(self).capacity(),
            final(self).written() == old(self).written(),
            final(self).tags() == old(self).tags(),
            match r {
                Some((i, v)) => {
                    &&& draws_member(old(self)@.dom(), *old(rng), i, *final(rng))
                    &&& *v == old(self)@[i]
                    &&& final(self)@ == old(self)@.insert(i, *final(v))
                },
                None => {
                    &&& old(self)@ == Map::<u32, T>::empty()
                    &&& final(self)@ == old(self)@
                    &&& *final(rng) == *old(rng)
                },
            },
    {
        self.inner.random_occupied_mut(rng)
    }

    /// `count` occupied slots, each picked by one draw, so that a slot can occur
    /// more than once; none, without a draw, if the slab is empty.
    pub fn random_occupied_many<R: RandomSource>(&self, rng: &mut R, count: usize) -> (v: Vec<
        (u32, &T),
    >)
        requires
            self.wf(),
        ensures
            entries_in(v@, self@),
            v@.len() == if self@ == Map::<u32, T>::empty() {
                0
            } else {
                count as nat
            },
            draws_members(self@.dom(), *old(rng), keys_of(v@), *final(rng)),
    {
        self.inner.random_occupied_many(rng, count)
    }

    /// `count` different occupied slots picked by draws, or all of them, in
    /// ascending order and without a draw, if there are no more than `count`.
    ///
    /// A draw that hits a slot already picked is repeated. Should
    /// [`MAX_DRAWS`](crate::bitmap_tree::MAX_DRAWS) draws not be enough, the lowest
    /// slots not yet picked make up the rest.
    pub fn random_occupied_unique<R: RandomSource>(&self, rng: &mut R, count: usize) -> (v: Vec<
        (u32, &T),
    >)
        requires
            self.wf(),
        ensures
            entries_in(v@, self@),
            count >= self@.len() ==> {
                &&& lists_ascending(keys_of(v@), self@.dom())
                &&& *final(rng) == *old(rng)
            },
            count < self@.len() ==> {
                &&& picks(keys_of(v@), self@.dom(), count as int)
                &&& draws_sample(
                    self@.dom(),
                    count as int,
                    *old(rng),
                    keys_of(v@),
                    *final(rng),
                )
            },
    {
        self.inner.random_occupied_unique(rng, count)
    }

    /// The tagged slot that has exactly `choice` tagged slots below it, with its
    /// value, or `None` if there are not that many.
    pub fn nth_tagged(&self, choice: u32) -> (r: Option<(u32, &T)>)
        requires
            self.wf(),
        ensures
            match r {
                Some((i, v)) => {
                    &&& self.tags().contains(i)
                    &&& *v == self@[i]
                    &&& rank(self.tags(), i) == choice
                },
                None => self.tags().len() <= choice,
            },
    {
        proof {
            self.law_tagged_is_occupied();
        }
        match self.tagged_tree.nth_set(choice) {
            Some(idx) => Some((idx, self.inner.get_unchecked(idx))),
            None => None,
        }
    }

    /// The tagged slot whose rank is given by one draw below the number of tagged
    /// slots, with its value, or `None`, without a draw, if nothing is tagged.
    pub fn random_tagged<R: RandomSource>(&self, rng: &mut R) -> (r: Option<(u32, &T)>)
        requires
            self.wf(),
        ensures
            match r {
                Some((i, v)) => {
                    &&& draws_member(self.tags(), *old(rng), i, *final(rng))
                    &&& *v == self@[i]
                },
                None => self.tags() == Set::<u32>::empty() && *final(rng) == *old(rng),
            },
    {
        proof {
            self.law_tagged_is_occupied();
        }
        match self.tagged_tree.random_set(rng) {
            Some(idx) => Some((idx, self.inner.get_unchecked(idx))),
            None => None,
        }
    }

    /// The tagged slot whose rank is given by one draw below the number of tagged
    /// slots, with its value to be changed in place, or `None`, without a draw, if
    /// nothing is tagged.
    pub fn random_tagged_mut<R: RandomSource>(&mut self, rng: &mut R) -> (r: Option<(u32, &mut T)>)
        requires
            old(self).wf(),
        ensures
            final(self).wf(),
            final(self).capacity() == old(self).capacity(),
            final(self).written() == old(self).written(),
            final(self).tags() == old(self).tags(),
            match r {
                Some((i, v)) => {
                    &&& draws_member(old(self).tags(), *old(rng), i, *final(rng))
                    &&& *v == old(self)@[i]
                    &&& final(self)@ == old(self)@.insert(i, *final(v))
                },
                None => {
                    &&& old(self).tags() == Set::<u32>::empty()
                    &&& final(self)@ == old(self)@
                    &&& *final(rng) == *old(rng)
                },
            },
    {
        proof {
            self.law_tagged_is_occupied();
        }
        match self.tagged_tree.random_set(rng) {
            Some(idx) => Some((idx, self.inner.get_unchecked_mut(idx))),
            None => None,
        }
    }

    /// `count` tagged slots, each picked by one draw, so that a slot can occur
    /// more than once; none, without a draw, if nothing is tagged.
    pub fn random_tagged_many<R: RandomSource>(&self, rng: &mut R, count: usize) -> (v: Vec<
        (u32, &T),
    >)
        requires
            self.wf(),
        ensures
            entries_in(v@, self@),
            forall|k: int| 0 <= k < v@.len() ==> self.tags().contains((#[trigger] v@[k]).0),
            v@.len() == if self.tags() == Set::<u32>::empty() {
                0
            } else {
                count as nat
            },
            draws_members(self.tags(), *old(rng), keys_of(v@), *final(rng)),
    {
        let mut results: Vec<(u32, &T)> = Vec::new();
        let mut k: usize = 0;
        let ghost mut states: Seq<R> = seq![*rng];
        proof {
            self.law_tagged_is_occupied();
        }
        while k < count
            invariant
                self.wf(),
                k <= count,
                forall|i: u32| #[trigger] self.tags().contains(i) ==> self@.contains_key(i),
                entries_in(results@, self@),
                forall|k: int|
                    0 <= k < results@.len() ==> self.tags().contains((#[trigger] results@[k]).0),
                results@.len() == k,
                k > 0 ==> self.tags() != Set::<u32>::empty(),
                draw_trace(self.tags(), states, keys_of(results@)),
                states.first() == *old(rng),
                states.last() == *rng,
            decreases count - k,
        {
            let ghost drawn = keys_of(results@);
            match self.random_tagged(rng) {
                Some(item) => {
                    results.push(item);
                    proof {
                        lemma_draw_trace_push(self.tags(), states, drawn, item.0, *rng);
                        assert(keys_of(results@) =~= drawn.push(item.0));
                        states = states.push(*rng);
                    }
                },
                None => {
                    return results;
                },
            }
            k = k + 1;
        }
        results
    }

    /// `count` different tagged slots picked by draws, or all of them, in
    /// ascending order and without a draw, if there are no more than `count`.
    ///
    /// A draw that hits a slot already picked is repeated. Should
    /// [`MAX_DRAWS`](crate::bitmap_tree::MAX_DRAWS) draws not be enough, the lowest
    /// slots not yet picked make up the rest.
    pub fn random_tagged_unique<R: RandomSource>(&self, rng: &mut R, count: usize) -> (v: Vec<
        (u32, &T),
    >)
        requires
            self.wf(),
        ensures
            entries_in(v@, self@),
            count >= self.tags().len() ==> {
                &&& lists_ascending(keys_of(v@), self.tags())
                &&& *final(rng) == *old(rng)
            },
            count < self.tags().len() ==> {
                &&& picks(keys_of(v@), self.tags(), count as int)
                &&& draws_sample(
                    self.tags(),
                    count as int,
                    *old(rng),
                    keys_of(v@),
                    *final(rng),
                )
            },
    {
        proof {
            self.law_tagged_is_occupied();
        }
        let indices = self.tagged_tree.random_set_unique(rng, count);
        self.inner.entries_at(&indices)
    }
}

impl<T> vstd::std_specs::core::IndexSpecImpl<u32> for TaggedHiSlab<T> {
    open spec fn index_req(&self, idx: &u32) -> bool {
        self.wf() && self@.contains_key(*idx)
    }
}

impl<T> std::ops::Index<u32> for TaggedHiSlab<T> {
    type Output = T;

    /// The value in an occupied slot.
    fn index(&self, idx: u32) -> (r: &T)
        ensures
            *r == self@[idx],
    {
        self.get_unchecked(idx)
    }
}

impl<T> std::ops::IndexMut<u32> for TaggedHiSlab<T> {
    /// The value in an occupied slot, to be changed in place.
    fn index_mut(&mut self, idx: u32) -> (r: &mut T)
        requires
            old(self).wf(),
            old(self)@.contains_key(idx),
        ensures
            *r == old(self)@[idx],
            final(self).wf(),
            final(self).capacity() == old(self).capacity(),
            final(self).written() == old(self).written(),
            final(self).tags() == old(self).tags(),
            final(self)@ == old(self)@.insert(idx, *final(r)),
    {
        self.get_unchecked_mut(idx)
    }
}

/// Goes through the tagged slots of a slab in ascending order.
pub struct TaggedIter<'a, T> {
    slab: &'a TaggedHiSlab<T>,
    cursor: BitCursor,
}

impl<'a, T> TaggedIter<'a, T> {
    /// The iterator stands at a slot of a well-formed slab.
    #[verifier::type_invariant]
    spec fn wf(self) -> bool {
        self.slab.wf() && self.cursor.wf(&self.slab.tagged_tree)
    }

    /// The entries of the slab.
    pub closed spec fn entries(&self) -> Map<u32, T> {
        self.slab@
    }

    /// The tagged indices that are still to come.
    pub closed spec fn pending(&self) -> Set<u32> {
        self.cursor.remaining(&self.slab.tagged_tree)
    }
}

impl<'a, T> vstd::std_specs::iter::IteratorSpecImpl for TaggedIter<'a, T> {
    open spec fn obeys_prophetic_iter_laws(&self) -> bool {
        true
    }

    open spec fn remaining(&self) -> Seq<(u32, &'a T)> {
        sorted_entries(self.pending(), self.entries())
    }

    open spec fn will_return_none(&self) -> bool {
        true
    }

    open spec fn decrease(&self) -> Option<nat> {
        Some(self.pending().len())
    }

    open spec fn initial_value_relation(&self, init: &Self) -> bool {
        self.entries() == init.entries() && self.pending() == init.pending()
    }

    open spec fn peek(&self, index: int) -> Option<(u32, &'a T)> {
        None
    }
}

impl<'a, T> Iterator for TaggedIter<'a, T> {
    type Item = (u32, &'a T);

    /// The next tagged slot and its value, or `None` when all have come.
    fn next(&mut self) -> (r: Option<(u32, &'a T)>)
        ensures
            final(self).entries() == old(self).entries(),
            match r {
                Some((i, v)) => {
                    &&& old(self).entries().contains_key(i)
                    &&& *v == old(self).entries()[i]
                    &&& is_least(old(self).pending(), i)
                    &&& final(self).pending() == old(self).pending().remove(i)
                },
                None => {
                    &&& old(self).pending() == Set::<u32>::empty()
                    &&& final(self).pending() == Set::<u32>::empty()
                },
            },
    {
        proof {
            use_type_invariant(&*self);
            lemma_set_count(self.pending());
            self.slab.law_tagged_is_occupied();
        }
        let slab: &'a TaggedHiSlab<T> = self.slab;
        let mut cursor = self.cursor;
        let r = cursor.next(&slab.tagged_tree);
        self.cursor = cursor;
        match r {
            Some(idx) => {
                proof {
                    lemma_sorted_first(old(self).pending(), idx);
                    assert(sorted_entries::<T>(self.pending(), self.entries())
                        =~= sorted_entries::<T>(old(self).pending(), self.entries()).drop_first());
                }
                Some((idx, slab.inner.get_unchecked(idx)))
            },
            None => None,
        }
    }
}

impl<'a, T> IntoIterator for &'a TaggedHiSlab<T> {
    type Item = (u32, &'a T);

    type IntoIter = SlabIter<'a, T>;

    fn into_iter(self) -> (it: SlabIter<'a, T>)
        requires
            self.wf(),
        ensures
            it.entries() == self@,
            it.pending() == self@.dom(),
    {
        self.iter()
    }
}

impl<'a, T> IntoIterator for &'a mut TaggedHiSlab<T> {
    type Item = (u32, &'a mut T);

    type IntoIter = SlabIterMut<'a, T>;

    fn into_iter(self) -> (it: SlabIterMut<'a, T>)
        requires
            old(self).wf(),
        ensures
            lends_entries(it.items(), sorted(old(self)@.dom()), old(self)@),
            final(self).wf(),
            final(self).capacity() == old(self).capacity(),
            final(self).written() == old(self).written(),
            final(self)@.dom() == old(self)@.dom(),
            final(self).tags() == old(self).tags(),
            forall|k: int|
                0 <= k < it.items().len() ==> final(self)@[(#[trigger] it.items()[k]).0]
                    == *final(it.items()[k].1),
    {
        self.iter_mut()
    }
}

impl<T> IntoIterator for TaggedHiSlab<T> {
    type Item = (u32, T);

    type IntoIter = SlabIntoIter<T>;

    /// An iterator that moves the values out, in ascending order of their
    /// slots.
    fn into_iter(self) -> (it: SlabIntoIter<T>)
        requires
            self.wf(),
        ensures
            it.entries() == self@,
    {
        self.inner.into_iter()
    }
}

/// Goes through the tagged slots of a slab in ascending order and lets their
/// values be changed.
pub struct TaggedIterMut<'a, T> {
    /// What is still to come, the next one last.
    stack: Vec<(u32, &'a mut T)>,
}

impl<'a, T> TaggedIterMut<'a, T> {
    /// The tagged slots that are still to come, with their values.
    pub closed spec fn items(&self) -> Seq<(u32, &'a mut T)> {
        self.stack@.reverse()
    }
}

impl<'a, T> vstd::std_specs::iter::IteratorSpecImpl for TaggedIterMut<'a, T> {
    open spec fn obeys_prophetic_iter_laws(&self) -> bool {
        true
    }

    open spec fn remaining(&self) -> Seq<(u32, &'a mut T)> {
        self.items()
    }

    open spec fn will_return_none(&self) -> bool {
        true
    }

    open spec fn decrease(&self) -> Option<nat> {
        Some(self.items().len())
    }

    open spec fn initial_value_relation(&self, init: &Self) -> bool {
        self.items() == init.items()
    }

    open spec fn peek(&self, index: int) -> Option<(u32, &'a mut T)> {
        None
    }
}

impl<'a, T> Iterator for TaggedIterMut<'a, T> {
    type Item = (u32, &'a mut T);

    /// The next tagged slot and its value, or `None` when all have come.
    fn next(&mut self) -> (r: Option<(u32, &'a mut T)>)
        ensures
            match r {
                Some(item) => {
                    &&& old(self).items().len() > 0
                    &&& item == old(self).items()[0]
                    &&& final(self).items() == old(self).items().drop_first()
                },
                None => old(self).items().len() == 0 && final(self).items().len() == 0,
            },
    {
        let r = self.stack.pop();
        assert(r is Some ==> self.items() =~= old(self).items().drop_first());
        r
    }
}

} // verus!
