//! What the main operations do, stated over the outcomes of their calls.
//!
//! Each law speaks of every call on a well-formed value: of the value before the
//! call, the arguments, the result and the value after it.
use vstd::prelude::*;

use std::collections::TryReserveError;

use crate::bitmap_tree::{draws_members, samples_drawn, BitmapTree};
use crate::buffer_slab::{AutoGuard, BufferSlab};
use crate::calling::Calls;
use crate::counting::{below, lemma_set_count, sorted};
use crate::error::StorageError;
use crate::laws::{law_creation_fails_only_if_refused, law_sample_comes_from_draws};
use crate::monoio_buffer::MonoBuffer;
use crate::random::RandomSource;
use crate::slab::{keys_of, HiSlab, SlabIter};
use crate::tagged::{TaggedHiSlab, TaggedIter};

verus! {

/// `HiSlab::insert` puts the value into a slot that was free, the lowest such,
/// and leaves every other slot as it was.
pub proof fn law_of_insert<T>()
    ensures
        forall|m: &mut HiSlab<T>, val: T, r: u32|
            m.wf() && #[trigger] call_ensures(HiSlab::<T>::insert, (m, val), r) ==> {
                &&& (*final(m)).wf()
                &&& (*final(m)).capacity() == m.capacity()
                &&& r < m.capacity()
                &&& !m@.contains_key(r)
                &&& (*final(m))@.contains_key(r)
                &&& (*final(m))@[r] == val
                &&& forall|i: u32| i < r ==> #[trigger] m@.contains_key(i)
                &&& forall|i: u32|
                    i != r ==> (#[trigger] (*final(m))@.contains_key(i) == m@.contains_key(i))
                &&& forall|i: u32|
                    i != r && m@.contains_key(i) ==> #[trigger] (*final(m))@[i] == m@[i]
            },
{
    assert forall|m: &mut HiSlab<T>, val: T, r: u32|
        m.wf() && #[trigger] call_ensures(HiSlab::<T>::insert, (m, val), r) implies forall|i: u32|
        i < r ==> #[trigger] m@.contains_key(i) by {
        assert forall|i: u32| i < r implies #[trigger] m@.contains_key(i) by {
            assert(m@.dom().contains(i));
        }
    }
}

/// `HiSlab::remove` hands out the value of an occupied slot and empties the slot;
/// it hands out nothing at an empty one, and leaves every other slot as it was.
pub proof fn law_of_remove<T>()
    ensures
        forall|m: &mut HiSlab<T>, idx: u32, out: Option<T>|
            m.wf() && #[trigger] call_ensures(HiSlab::<T>::remove, (m, idx), out) ==> {
                &&& (*final(m)).wf()
                &&& (*final(m)).capacity() == m.capacity()
                &&& out is Some == m@.contains_key(idx)
                &&& out matches Some(v) ==> v == m@[idx]
                &&& !(*final(m))@.contains_key(idx)
                &&& forall|i: u32|
                    i != idx ==> (#[trigger] (*final(m))@.contains_key(i) == m@.contains_key(i))
                &&& forall|i: u32|
                    i != idx && m@.contains_key(i) ==> #[trigger] (*final(m))@[i] == m@[i]
            },
{
}

/// `HiSlab::get` finds the value of an occupied slot and nothing elsewhere, and
/// `HiSlab::is_occupied` tells the two apart.
pub proof fn law_of_get<T>()
    ensures
        forall|s: &HiSlab<T>, idx: u32, r: Option<&T>|
            s.wf() && #[trigger] call_ensures(HiSlab::<T>::get, (s, idx), r) ==> {
                &&& r is Some == s@.contains_key(idx)
                &&& r matches Some(v) ==> *v == s@[idx]
            },
        forall|s: &HiSlab<T>, idx: u32, r: bool|
            s.wf() && #[trigger] call_ensures(HiSlab::<T>::is_occupied, (s, idx), r) ==> r
                == s@.contains_key(idx),
{
}

/// What is written through the reference of `HiSlab::get_mut` is in that slot
/// afterwards, and every other slot is as it was.
pub proof fn law_of_get_mut<T>()
    ensures
        forall|m: &mut HiSlab<T>, idx: u32, r: Option<&mut T>|
            m.wf() && #[trigger] call_ensures(HiSlab::<T>::get_mut, (m, idx), r) ==> {
                &&& r is Some == m@.contains_key(idx)
                &&& r matches Some(v) ==> *v == m@[idx] && (*final(m))@[idx] == *final(v)
                &&& forall|i: u32| #[trigger]
                    (*final(m))@.contains_key(i) == m@.contains_key(i)
                &&& forall|i: u32|
                    i != idx && m@.contains_key(i) ==> #[trigger] (*final(m))@[i] == m@[i]
            },
{
}

/// The counts are the numbers of occupied and of tagged slots.
pub proof fn law_of_counts<T>()
    ensures
        forall|s: &HiSlab<T>, r: usize|
            s.wf() && #[trigger] call_ensures(HiSlab::<T>::count_occupied, (s,), r) ==> r
                == s@.dom().len(),
        forall|s: &TaggedHiSlab<T>, r: usize|
            s.wf() && #[trigger] call_ensures(TaggedHiSlab::<T>::count_occupied, (s,), r) ==> r
                == s@.dom().len(),
        forall|s: &TaggedHiSlab<T>, r: usize|
            s.wf() && #[trigger] call_ensures(TaggedHiSlab::<T>::count_tagged, (s,), r) ==> r
                == s.tags().len(),
{
}

/// Creating a slab fails only if the allocator, asked for room for all the slots,
/// refused it.
pub proof fn law_of_new<T: Default>()
    ensures
        forall|initial: u32, virt: u32, r: Result<HiSlab<T>, StorageError>|
            initial <= virt && #[trigger] call_ensures(HiSlab::<T>::new, (initial, virt), r) ==> {
                &&& r is Err ==> exists|
                    v: &mut Vec<Option<T>>,
                    e: TryReserveError,
                |
                    (*v)@.len() == 0 && #[trigger] call_ensures(
                        Vec::<Option<T>>::try_reserve,
                        (v, virt as usize),
                        Err(e),
                    )
                &&& r matches Ok(slab) ==> slab.capacity() == virt && slab@.dom()
                    =~= Set::<u32>::empty()
            },
        forall|initial: u32, virt: u32, r: Result<TaggedHiSlab<T>, StorageError>|
            initial <= virt && #[trigger] call_ensures(TaggedHiSlab::<T>::new, (initial, virt), r)
                ==> {
                &&& r is Err ==> exists|
                    v: &mut Vec<Option<T>>,
                    e: TryReserveError,
                |
                    (*v)@.len() == 0 && #[trigger] call_ensures(
                        Vec::<Option<T>>::try_reserve,
                        (v, virt as usize),
                        Err(e),
                    )
                &&& r matches Ok(slab) ==> slab.capacity() == virt && slab@.dom()
                    =~= Set::<u32>::empty() && slab.tags() =~= Set::<u32>::empty()
            },
{
    assert forall|initial: u32, virt: u32, r: Result<HiSlab<T>, StorageError>|
        initial <= virt && #[trigger] call_ensures(
            HiSlab::<T>::new,
            (initial, virt),
            r,
        ) && r is Err implies exists|
        v: &mut Vec<Option<T>>,
        e: TryReserveError,
    |
        (*v)@.len() == 0 && #[trigger] call_ensures(
            Vec::<Option<T>>::try_reserve,
            (v, virt as usize),
            Err(e),
        ) by {
        law_creation_fails_only_if_refused(initial, virt, r);
    }
    assert forall|initial: u32, virt: u32, r: Result<TaggedHiSlab<T>, StorageError>|
        initial <= virt && #[trigger] call_ensures(
            TaggedHiSlab::<T>::new,
            (initial, virt),
            r,
        ) && r is Err implies exists|
        v: &mut Vec<Option<T>>,
        e: TryReserveError,
    |
        (*v)@.len() == 0 && #[trigger] call_ensures(
            Vec::<Option<T>>::try_reserve,
            (v, virt as usize),
            Err(e),
        ) by {
        law_creation_fails_only_if_refused::<T>(
            initial,
            virt,
            Err(StorageError::Reservation),
        );
    }
}

/// `TaggedHiSlab::tag` reports success exactly on an occupied slot that was not
/// tagged. Afterwards the slot is tagged if it is occupied, and nothing else has
/// changed.
pub proof fn law_of_tag<T>()
    ensures
        forall|m: &mut TaggedHiSlab<T>, idx: u32, done: bool|
            m.wf() && #[trigger] call_ensures(TaggedHiSlab::<T>::tag, (m, idx), done) ==> {
                &&& (*final(m)).wf()
                &&& (*final(m))@ == m@
                &&& done == (m@.contains_key(idx) && !m.tags().contains(idx))
                &&& (*final(m)).tags().contains(idx) == m@.contains_key(idx)
                &&& forall|i: u32|
                    i != idx ==> (#[trigger] (*final(m)).tags().contains(i) == m.tags().contains(i))
            },
{
    assert forall|m: &mut TaggedHiSlab<T>, idx: u32, done: bool|
        m.wf() && #[trigger] call_ensures(TaggedHiSlab::<T>::tag, (m, idx), done) implies (
    m.tags().contains(idx) ==> m@.contains_key(idx)) by {
        m.law_tagged_is_occupied();
    }
}

/// `TaggedHiSlab::untag` reports success exactly on a tagged slot. Afterwards the
/// slot is not tagged, and nothing else has changed.
pub proof fn law_of_untag<T>()
    ensures
        forall|m: &mut TaggedHiSlab<T>, idx: u32, done: bool|
            m.wf() && #[trigger] call_ensures(TaggedHiSlab::<T>::untag, (m, idx), done) ==> {
                &&& (*final(m)).wf()
                &&& (*final(m))@ == m@
                &&& done == m.tags().contains(idx)
                &&& !(*final(m)).tags().contains(idx)
                &&& forall|i: u32|
                    i != idx ==> (#[trigger] (*final(m)).tags().contains(i) == m.tags().contains(i))
            },
{
}

/// `TaggedHiSlab::is_tagged` is true of the tagged slots, which are occupied.
pub proof fn law_of_is_tagged<T>()
    ensures
        forall|s: &TaggedHiSlab<T>, idx: u32, r: bool|
            s.wf() && #[trigger] call_ensures(TaggedHiSlab::<T>::is_tagged, (s, idx), r) ==> r
                == s.tags().contains(idx) && (r ==> s@.contains_key(idx)),
{
    assert forall|s: &TaggedHiSlab<T>, idx: u32, r: bool|
        s.wf() && #[trigger] call_ensures(TaggedHiSlab::<T>::is_tagged, (s, idx), r) implies (
    s.tags().contains(idx) ==> s@.contains_key(idx)) by {
        s.law_tagged_is_occupied();
    }
}

/// `TaggedHiSlab::insert` leaves its slot without a tag, `insert_tagged` gives it
/// one and `remove` takes it off; no other slot's tag changes.
pub proof fn law_of_tags_on_insert_and_remove<T>()
    ensures
        forall|m: &mut TaggedHiSlab<T>, val: T, r: u32|
            m.wf() && #[trigger] call_ensures(TaggedHiSlab::<T>::insert, (m, val), r) ==> {
                &&& !m@.contains_key(r)
                &&& (*final(m))@ == m@.insert(r, val)
                &&& !(*final(m)).tags().contains(r)
                &&& forall|i: u32| #[trigger]
                    (*final(m)).tags().contains(i) == m.tags().contains(i)
            },
        forall|m: &mut TaggedHiSlab<T>, val: T, r: u32|
            m.wf() && #[trigger] call_ensures(TaggedHiSlab::<T>::insert_tagged, (m, val), r) ==> {
                &&& !m@.contains_key(r)
                &&& (*final(m))@ == m@.insert(r, val)
                &&& (*final(m)).tags().contains(r)
                &&& forall|i: u32|
                    i != r ==> (#[trigger] (*final(m)).tags().contains(i) == m.tags().contains(i))
            },
        forall|m: &mut TaggedHiSlab<T>, idx: u32, out: Option<T>|
            m.wf() && #[trigger] call_ensures(TaggedHiSlab::<T>::remove, (m, idx), out) ==> {
                &&& out is Some == m@.contains_key(idx)
                &&& out matches Some(v) ==> v == m@[idx]
                &&& (*final(m))@ == m@.remove(idx)
                &&& !(*final(m)).tags().contains(idx)
                &&& forall|i: u32|
                    i != idx ==> (#[trigger] (*final(m)).tags().contains(i) == m.tags().contains(i))
            },
{
    assert forall|m: &mut TaggedHiSlab<T>, val: T, r: u32|
        m.wf() && #[trigger] call_ensures(
            TaggedHiSlab::<T>::insert,
            (m, val),
            r,
        ) implies !m.tags().contains(r) && !m@.contains_key(r) by {
        m.law_tagged_is_occupied();
        assert(!m@.dom().contains(r));
    }
    assert forall|m: &mut TaggedHiSlab<T>, val: T, r: u32|
        m.wf() && #[trigger] call_ensures(
            TaggedHiSlab::<T>::insert_tagged,
            (m, val),
            r,
        ) implies !m@.contains_key(r) by {
        assert(!m@.dom().contains(r));
    }
}

/// The iterators start before the lowest of the occupied or tagged slots, with
/// all of them to come, and every step gives the lowest that is left.
pub proof fn law_of_iteration<T>()
    ensures
        forall|s: &HiSlab<T>, it: SlabIter<T>|
            s.wf() && #[trigger] call_ensures(HiSlab::<T>::iter, (s,), it) ==> it.entries() == s@
                && it.pending() == s@.dom(),
        forall|s: &TaggedHiSlab<T>, it: TaggedIter<T>|
            s.wf() && #[trigger] call_ensures(TaggedHiSlab::<T>::iter_tagged, (s,), it)
                ==> it.entries() == s@ && it.pending() == s.tags(),
        forall|it: &mut SlabIter<T>, r: Option<(u32, &T)>| #[trigger]
            call_ensures(SlabIter::<T>::next, (it,), r) ==> match r {
                Some((i, v)) => {
                    &&& it.pending().contains(i)
                    &&& *v == it.entries()[i]
                    &&& forall|j: u32| #[trigger] it.pending().contains(j) ==> i <= j
                    &&& forall|j: u32| #[trigger]
                        (*final(it)).pending().contains(j) == (it.pending().contains(j) && j != i)
                },
                None => forall|j: u32| !it.pending().contains(j),
            },
        forall|it: &mut TaggedIter<T>, r: Option<(u32, &T)>| #[trigger]
            call_ensures(TaggedIter::<T>::next, (it,), r) ==> match r {
                Some((i, v)) => {
                    &&& it.pending().contains(i)
                    &&& *v == it.entries()[i]
                    &&& forall|j: u32| #[trigger] it.pending().contains(j) ==> i <= j
                    &&& forall|j: u32| #[trigger]
                        (*final(it)).pending().contains(j) == (it.pending().contains(j) && j != i)
                },
                None => forall|j: u32| !it.pending().contains(j),
            },
{
}

/// A random pick from a slab is empty exactly if the slab is, without a draw.
/// Otherwise it takes one draw below the number of occupied slots, and the number
/// drawn is how many occupied slots are below the one picked.
pub proof fn law_of_random_occupied<T, R: RandomSource>()
    ensures
        forall|s: &HiSlab<T>, rng: &mut R, r: Option<(u32, &T)>|
            s.wf() && #[trigger] call_ensures(HiSlab::<T>::random_occupied::<R>, (s, rng), r)
                ==> match r {
                Some((i, v)) => {
                    &&& s@.contains_key(i)
                    &&& *v == s@[i]
                    &&& R::drew(
                        *rng,
                        s@.dom().len() as u32,
                        s@.dom().filter(|x: u32| x < i).len() as u32,
                        *final(rng),
                    )
                },
                None => s@.dom().len() == 0 && *final(rng) == *rng,
            },
{
    assert forall|s: &HiSlab<T>, rng: &mut R, i: u32, v: &T|
        s.wf() && #[trigger] call_ensures(
            HiSlab::<T>::random_occupied::<R>,
            (s, rng),
            Some((i, v)),
        ) implies s@.dom().filter(|x: u32| x < i) =~= below(s@.dom(), i as int) by {}
}

/// A random pick of a tagged slot is none exactly if nothing is tagged, without a
/// draw. Otherwise it takes one draw below the number of tagged slots, and the
/// number drawn is how many tagged slots are below the one picked.
pub proof fn law_of_random_tagged<T, R: RandomSource>()
    ensures
        forall|s: &TaggedHiSlab<T>, rng: &mut R, r: Option<(u32, &T)>|
            s.wf() && #[trigger] call_ensures(TaggedHiSlab::<T>::random_tagged::<R>, (s, rng), r)
                ==> match r {
                Some((i, v)) => {
                    &&& s.tags().contains(i)
                    &&& *v == s@[i]
                    &&& R::drew(
                        *rng,
                        s.tags().len() as u32,
                        s.tags().filter(|x: u32| x < i).len() as u32,
                        *final(rng),
                    )
                },
                None => s.tags().len() == 0 && *final(rng) == *rng,
            },
{
    assert forall|s: &TaggedHiSlab<T>, rng: &mut R, i: u32, v: &T|
        s.wf() && #[trigger] call_ensures(
            TaggedHiSlab::<T>::random_tagged::<R>,
            (s, rng),
            Some((i, v)),
        ) implies s.tags().filter(|x: u32| x < i) =~= below(s.tags(), i as int) by {}
}

/// A sample of occupied slots without repetition holds as many different ones as
/// were asked for, or all there are, with their values. If it does not hold all,
/// it holds just those that came up in the draws, unless 2^64 - 1 draws were made.
pub proof fn law_of_random_occupied_unique<T, R: RandomSource>()
    ensures
        forall|s: &HiSlab<T>, rng: &mut R, count: usize, v: Vec<(u32, &T)>|
            s.wf() && #[trigger] call_ensures(
                HiSlab::<T>::random_occupied_unique::<R>,
                (s, rng, count),
                v,
            ) ==> {
                &&& v@.len() == if count < s@.dom().len() {
                    count as nat
                } else {
                    s@.dom().len()
                }
                &&& keys_of(v@).no_duplicates()
                &&& forall|k: int|
                    0 <= k < v@.len() ==> s@.dom().contains((#[trigger] v@[k]).0) && *v@[k].1
                        == s@[v@[k].0]
                &&& count >= s@.dom().len() ==> *final(rng) == *rng
                &&& count < s@.dom().len() ==> exists|drawn: Seq<u32>| #[trigger]
                    draws_members(s@.dom(), *rng, drawn, *final(rng)) && (drawn.len()
                        < 0xffff_ffff_ffff_ffff ==> forall|i: u32|
                        keys_of(v@).contains(i) <==> drawn.contains(i))
            },
{
    assert forall|s: &HiSlab<T>, rng: &mut R, count: usize, v: Vec<(u32, &T)>|
        s.wf() && #[trigger] call_ensures(
            HiSlab::<T>::random_occupied_unique::<R>,
            (s, rng, count),
            v,
        ) implies {
        &&& forall|k: int| 0 <= k < v@.len() ==> s@.dom().contains((#[trigger] v@[k]).0)
        &&& count < s@.dom().len() ==> exists|drawn: Seq<u32>| #[trigger]
            draws_members(s@.dom(), *rng, drawn, *final(rng)) && (drawn.len()
                < 0xffff_ffff_ffff_ffff ==> forall|i: u32|
                keys_of(v@).contains(i) <==> drawn.contains(i))
    } by {
        let keys = keys_of(v@);
        assert forall|k: int| 0 <= k < v@.len() implies s@.dom().contains((#[trigger] v@[k]).0) by {
            assert(keys[k] == v@[k].0);
        }
        if count < s@.dom().len() {
            let drawn = choose|drawn: Seq<u32>| #[trigger]
                draws_members(s@.dom(), *rng, drawn, *final(rng)) && samples_drawn(
                    s@.dom(),
                    count as int,
                    drawn,
                    keys,
                );
            if drawn.len() < 0xffff_ffff_ffff_ffff {
                law_sample_comes_from_draws(s@.dom(), count as int, drawn, keys);
            }
        }
    }
}

/// Picks of occupied slots with repetition are as many as were asked for, or none if
/// there is nothing to pick, and each answers to one draw.
pub proof fn law_of_random_occupied_many<T, R: RandomSource>()
    ensures
        forall|s: &HiSlab<T>, rng: &mut R, count: usize, v: Vec<(u32, &T)>|
            s.wf() && #[trigger] call_ensures(
                HiSlab::<T>::random_occupied_many::<R>,
                (s, rng, count),
                v,
            ) ==> {
                &&& s@.dom().len() > 0 ==> v@.len() == count
                &&& s@.dom().len() == 0 ==> v@.len() == 0
                &&& forall|k: int|
                    0 <= k < v@.len() ==> s@.dom().contains((#[trigger] v@[k]).0) && *v@[k].1
                        == s@[v@[k].0]
                &&& draws_members(s@.dom(), *rng, keys_of(v@), *final(rng))
            },
{
    assert forall|s: &HiSlab<T>, rng: &mut R, count: usize, v: Vec<(u32, &T)>|
        s.wf() && #[trigger] call_ensures(
            HiSlab::<T>::random_occupied_many::<R>,
            (s, rng, count),
            v,
        ) implies (s@.dom().len() > 0 ==> v@.len() == count) && (s@.dom().len() == 0 ==> v@.len()
        == 0) by {
        lemma_set_count(s@.dom());
        if s@.dom().len() == 0 {
            assert(s@.dom() =~= Set::<u32>::empty());
            assert(s@ =~= Map::<u32, T>::empty());
        }
    }
}

/// A sample of tagged slots without repetition holds as many different ones as
/// were asked for, or all there are, with their values. If it does not hold all,
/// it holds just those that came up in the draws, unless 2^64 - 1 draws were made.
pub proof fn law_of_random_tagged_unique<T, R: RandomSource>()
    ensures
        forall|s: &TaggedHiSlab<T>, rng: &mut R, count: usize, v: Vec<(u32, &T)>|
            s.wf() && #[trigger] call_ensures(
                TaggedHiSlab::<T>::random_tagged_unique::<R>,
                (s, rng, count),
                v,
            ) ==> {
                &&& v@.len() == if count < s.tags().len() {
                    count as nat
                } else {
                    s.tags().len()
                }
                &&& keys_of(v@).no_duplicates()
                &&& forall|k: int|
                    0 <= k < v@.len() ==> s.tags().contains((#[trigger] v@[k]).0) && *v@[k].1
                        == s@[v@[k].0]
                &&& count >= s.tags().len() ==> *final(rng) == *rng
                &&& count < s.tags().len() ==> exists|drawn: Seq<u32>| #[trigger]
                    draws_members(s.tags(), *rng, drawn, *final(rng)) && (drawn.len()
                        < 0xffff_ffff_ffff_ffff ==> forall|i: u32|
                        keys_of(v@).contains(i) <==> drawn.contains(i))
            },
{
    assert forall|s: &TaggedHiSlab<T>, rng: &mut R, count: usize, v: Vec<(u32, &T)>|
        s.wf() && #[trigger] call_ensures(
            TaggedHiSlab::<T>::random_tagged_unique::<R>,
            (s, rng, count),
            v,
        ) implies {
        &&& forall|k: int| 0 <= k < v@.len() ==> s.tags().contains((#[trigger] v@[k]).0)
        &&& count < s.tags().len() ==> exists|drawn: Seq<u32>| #[trigger]
            draws_members(s.tags(), *rng, drawn, *final(rng)) && (drawn.len()
                < 0xffff_ffff_ffff_ffff ==> forall|i: u32|
                keys_of(v@).contains(i) <==> drawn.contains(i))
    } by {
        let keys = keys_of(v@);
        assert forall|k: int| 0 <= k < v@.len() implies s.tags().contains((#[trigger] v@[k]).0) by {
            assert(keys[k] == v@[k].0);
        }
        if count < s.tags().len() {
            let drawn = choose|drawn: Seq<u32>| #[trigger]
                draws_members(s.tags(), *rng, drawn, *final(rng)) && samples_drawn(
                    s.tags(),
                    count as int,
                    drawn,
                    keys,
                );
            if drawn.len() < 0xffff_ffff_ffff_ffff {
                law_sample_comes_from_draws(s.tags(), count as int, drawn, keys);
            }
        }
    }
}

/// Picks of tagged slots with repetition are as many as were asked for, or none if
/// there is nothing to pick, and each answers to one draw.
pub proof fn law_of_random_tagged_many<T, R: RandomSource>()
    ensures
        forall|s: &TaggedHiSlab<T>, rng: &mut R, count: usize, v: Vec<(u32, &T)>|
            s.wf() && #[trigger] call_ensures(
                TaggedHiSlab::<T>::random_tagged_many::<R>,
                (s, rng, count),
                v,
            ) ==> {
                &&& s.tags().len() > 0 ==> v@.len() == count
                &&& s.tags().len() == 0 ==> v@.len() == 0
                &&& forall|k: int|
                    0 <= k < v@.len() ==> s.tags().contains((#[trigger] v@[k]).0) && *v@[k].1
                        == s@[v@[k].0]
                &&& draws_members(s.tags(), *rng, keys_of(v@), *final(rng))
            },
{
    assert forall|s: &TaggedHiSlab<T>, rng: &mut R, count: usize, v: Vec<(u32, &T)>|
        s.wf() && #[trigger] call_ensures(
            TaggedHiSlab::<T>::random_tagged_many::<R>,
            (s, rng, count),
            v,
        ) implies (s.tags().len() > 0 ==> v@.len() == count) && (s.tags().len() == 0 ==> v@.len()
        == 0) by {
        lemma_set_count(s.tags());
        if s.tags().len() == 0 {
            assert(s.tags() =~= Set::<u32>::empty());
        }
    }
}

/// Filtering by removal keeps a tagged entry only on a `true` answer and drops one
/// only on a `false` answer; it keeps every other entry with its value. What stays
/// keeps its tag.
pub proof fn law_of_retain_tagged<T, F>() where F: FnMut(u32, &mut T) -> bool
    ensures
        forall|m: &mut TaggedHiSlab<T>, f: F|
            m.wf() && #[trigger] call_ensures(TaggedHiSlab::<T>::retain_tagged::<F>, (m, f), ())
                ==> {
                &&& (*final(m)).wf()
                &&& forall|i: u32|
                    !m.tags().contains(i) ==> #[trigger] (*final(m))@.contains_key(i)
                        == m@.contains_key(i)
                &&& forall|i: u32|
                    !m.tags().contains(i) && m@.contains_key(i) ==> #[trigger] (*final(m))@[i]
                        == m@[i]
                &&& forall|i: u32| #[trigger]
                    m.tags().contains(i) ==> exists|v: &mut T|
                        *v == m@[i] && #[trigger] call_ensures(
                            f,
                            (i, v),
                            (*final(m))@.contains_key(i),
                        )
                &&& forall|i: u32| #[trigger]
                    (*final(m)).tags().contains(i) == (m.tags().contains(i)
                        && (*final(m))@.contains_key(i))
            },
{
}

/// Filtering of tags keeps every entry. It keeps a tag only on a `true` answer and
/// takes one off only on a `false` answer, and gives none.
pub proof fn law_of_retain_tag<T, F>() where F: FnMut(u32, &mut T) -> bool
    ensures
        forall|m: &mut TaggedHiSlab<T>, f: F|
            m.wf() && #[trigger] call_ensures(TaggedHiSlab::<T>::retain_tag::<F>, (m, f), ()) ==> {
                &&& (*final(m)).wf()
                &&& forall|i: u32| #[trigger]
                    (*final(m))@.contains_key(i) == m@.contains_key(i)
                &&& forall|i: u32|
                    !m.tags().contains(i) && m@.contains_key(i) ==> #[trigger] (*final(m))@[i]
                        == m@[i]
                &&& forall|i: u32| #[trigger]
                    m.tags().contains(i) ==> exists|v: &mut T|
                        *v == m@[i] && #[trigger] call_ensures(
                            f,
                            (i, v),
                            (*final(m)).tags().contains(i),
                        )
                &&& forall|i: u32| #[trigger]
                    (*final(m)).tags().contains(i) ==> m.tags().contains(i)
            },
{
}

/// The walks over the set, occupied and tagged slots make all the calls that are
/// due, one for each of the slots in ascending order, and no other.
pub(crate) proof fn law_of_walks<T, F, G>() where F: FnMut(u32), G: FnMut(u32, &T)
    ensures
        forall|s: &BitmapTree, c: &mut Calls<F>|
            s.wf() && c.due() == sorted(s@) && #[trigger] call_ensures(
                BitmapTree::call_each_set::<F>,
                (s, c),
                (),
            ) ==> (*final(c)).due().len() == 0,
        forall|s: &HiSlab<T>, c: &mut Calls<G>|
            s.wf() && c.due() == sorted(s@.dom()) && #[trigger] call_ensures(
                HiSlab::<T>::call_each_occupied::<G>,
                (s, c),
                (),
            ) ==> (*final(c)).due().len() == 0,
        forall|s: &TaggedHiSlab<T>, c: &mut Calls<G>|
            s.wf() && c.due() == sorted(s.tags()) && #[trigger] call_ensures(
                TaggedHiSlab::<T>::call_each_tagged::<G>,
                (s, c),
                (),
            ) ==> (*final(c)).due().len() == 0,
{
}

/// A bit is set after it was set and clear after it was cleared; no other bit
/// changes, and the lowest free index is clear with none clear below it.
pub proof fn law_of_bits()
    ensures
        forall|m: &mut BitmapTree, idx: u32|
            m.wf() && #[trigger] call_ensures(BitmapTree::set_bit, (m, idx), ()) ==> forall|i: u32|
                #[trigger] (*final(m))@.contains(i) == (m@.contains(i) || i == idx),
        forall|m: &mut BitmapTree, idx: u32|
            m.wf() && #[trigger] call_ensures(BitmapTree::clear_bit, (m, idx), ()) ==> forall|
                i: u32,
            | #[trigger]
                (*final(m))@.contains(i) == (m@.contains(i) && i != idx),
        forall|m: &mut BitmapTree, r: u32|
            m.wf() && #[trigger] call_ensures(BitmapTree::find_free_idx, (m,), r) ==> {
                &&& (*final(m))@ == m@
                &&& !m@.contains(r)
                &&& forall|i: u32| !#[trigger] m@.contains(i) ==> r <= i
            },
        forall|s: &BitmapTree, idx: u32, r: bool| #[trigger]
            call_ensures(BitmapTree::is_set, (s, idx), r) ==> r == s@.contains(idx),
        forall|s: &BitmapTree, r: usize|
            s.wf() && #[trigger] call_ensures(BitmapTree::count_set, (s,), r) ==> r == s@.len(),
{
}

/// Taking a buffer gives the lowest free one, or none if all are taken; giving one
/// back frees just that one. Neither touches a byte.
pub proof fn law_of_buffers<const N: usize>()
    ensures
        forall|m: &mut BufferSlab<N>, r: Option<AutoGuard<N>>|
            m.wf() && #[trigger] call_ensures(BufferSlab::<N>::try_allocate, (m,), r) ==> {
                &&& match r {
                    Some(g) => {
                        &&& g.idx() < m.capacity()
                        &&& !m@.contains(g.idx())
                        &&& forall|i: u32| !#[trigger] m@.contains(i) ==> g.idx() <= i
                        &&& forall|i: u32| #[trigger]
                            (*final(m))@.contains(i) == (m@.contains(i) || i == g.idx())
                    },
                    None => {
                        &&& forall|i: u32| i < m.capacity() ==> #[trigger] m@.contains(i)
                        &&& (*final(m))@ == m@
                    },
                }
                &&& (*final(m)).wf()
                &&& forall|i: u32| #[trigger] (*final(m)).slot(i) == m.slot(i)
            },
        forall|m: &mut BufferSlab<N>, idx: u32|
            m.wf() && #[trigger] call_ensures(BufferSlab::<N>::free_at, (m, idx), ()) ==> {
                &&& forall|i: u32| #[trigger]
                    (*final(m))@.contains(i) == (m@.contains(i) && i != idx)
                &&& forall|i: u32| #[trigger] (*final(m)).slot(i) == m.slot(i)
            },
        forall|g: &AutoGuard<N>, r: u32| #[trigger]
            call_ensures(AutoGuard::<N>::index, (g,), r) ==> r == g.idx(),
{
}

/// What is written to a buffer is what is read from it, and no other buffer
/// changes.
pub proof fn law_of_buffer_bytes<const N: usize>()
    ensures
        forall|g: &mut AutoGuard<N>, m: &mut BufferSlab<N>, s: &mut [u8]|
            m.wf() && #[trigger] call_ensures(AutoGuard::<N>::as_slice_mut, (g, m), s) ==> {
                &&& s@ == m.slot(g.idx())
                &&& (*final(m)).slot(g.idx()) == final(s)@
                &&& (*final(m))@ == m@
                &&& forall|i: u32|
                    i != g.idx() && i < m.capacity() ==> #[trigger] (*final(m)).slot(i) == m.slot(
                        i,
                    )
            },
        forall|g: &AutoGuard<N>, p: &BufferSlab<N>, s: &[u8]|
            p.wf() && #[trigger] call_ensures(AutoGuard::<N>::as_slice, (g, p), s) ==> s@ == p.slot(
                g.idx(),
            ),
{
}

/// The record of initialised bytes is the largest position recorded so far.
pub proof fn law_of_set_init<const N: usize>()
    ensures
        forall|m: &mut MonoBuffer<N>, pos: usize| #[trigger]
            call_ensures(MonoBuffer::<N>::set_init, (m, pos), ()) ==> {
                &&& (*final(m)).initialized() >= m.initialized()
                &&& (*final(m)).initialized() >= pos
                &&& (*final(m)).initialized() == m.initialized() || (*final(m)).initialized() == pos
                &&& (*final(m)).idx() == m.idx()
            },
        forall|b: &MonoBuffer<N>, r: usize| #[trigger]
            call_ensures(MonoBuffer::<N>::initialized_len, (b,), r) ==> r == b.initialized(),
{
}

} // verus!
