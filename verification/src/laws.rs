//! What holds across several calls, stated over the views and relations that
//! the functions' contracts use.
use vstd::prelude::*;

use std::collections::TryReserveError;

use crate::bitmap_tree::{
    draw_trace, draws_member, draws_members, first_occurrences, group_full, has_free,
    is_first_free, picks, samples_drawn, MAX_SLOTS,
};
use crate::bits::{byte_bit, lemma_byte_first_clear};
use crate::buffer_slab::{all_taken, slot_start, taking, BufferSlab};
use crate::calling::due_call;
use crate::counting::{
    below, lemma_below_count, lemma_count_all, lemma_count_bound, lemma_count_gap,
    lemma_count_none, lemma_count_split, lemma_rank_increases, lemma_set_count, lemma_sorted_lists,
    member, rank, sorted,
};
use crate::error::StorageError;
use crate::monoio_buffer::advanced;
use crate::random::RandomSource;
use crate::slab::{
    creation, entries_in, has_room, insertion, keys_of, lends_entries, lookup, removal,
    sorted_entries, sorted_pairs, HiSlab,
};
use crate::tagged::{can_answer, retaining, tagging, untagging, TaggedHiSlab};

verus! {

/// Creation fails only if the allocator was asked for room for all the slots and
/// refused; a slab that was created is empty and has the capacity asked for.
pub proof fn law_creation_fails_only_if_refused<T>(
    initial_capacity: u32,
    virtual_capacity: u32,
    r: Result<HiSlab<T>, StorageError>,
)
    requires
        creation(initial_capacity, virtual_capacity, r),
    ensures
        r is Err ==> exists|v: &mut Vec<Option<T>>, e: TryReserveError|
            (*v)@.len() == 0 && #[trigger] call_ensures(
                Vec::<Option<T>>::try_reserve,
                (v, virtual_capacity as usize),
                Err(e),
            ),
        r is Ok && virtual_capacity > 0 ==> exists|v: &mut Vec<Option<T>>|
            (*v)@.len() == 0 && #[trigger] call_ensures(
                Vec::<Option<T>>::try_reserve,
                (v, virtual_capacity as usize),
                Ok(()),
            ),
        virtual_capacity == 0 ==> r is Ok,
        r matches Ok(slab) ==> slab.wf() && slab.capacity() == virtual_capacity && (forall|i: u32|
            !slab@.contains_key(i)),
{
    if virtual_capacity > 0 {
        let granted = r is Ok;
        let (v, answer) = choose|
            v: &mut Vec<Option<T>>,
            answer: Result<(), TryReserveError>,
        |
            (*v)@.len() == 0 && granted == (answer is Ok) && #[trigger] call_ensures(
                Vec::<Option<T>>::try_reserve,
                (v, virtual_capacity as usize),
                answer,
            );
        match answer {
            Ok(unit) => {
                assert(call_ensures(
                    Vec::<Option<T>>::try_reserve,
                    (v, virtual_capacity as usize),
                    Ok(()),
                ));
            },
            Err(e) => {
                assert(call_ensures(
                    Vec::<Option<T>>::try_reserve,
                    (v, virtual_capacity as usize),
                    Err(e),
                ));
            },
        }
    }
}

/// If the calls that are due are made one by one until none is left, each index
/// gets one call, in ascending order, and no other index gets any.
pub proof fn law_callback_is_called_once_per_index(
    s: Set<u32>,
    dues: Seq<Seq<u32>>,
    called: Seq<u32>,
)
    requires
        dues.len() == called.len() + 1,
        dues[0] == sorted(s),
        forall|k: int|
            0 <= k < called.len() ==> due_call(dues[k], #[trigger] called[k], dues[k + 1]),
        dues.last().len() == 0,
    ensures
        called.len() == s.len(),
        forall|a: int, b: int| 0 <= a < b < called.len() ==> called[a] < called[b],
        forall|i: u32| s.contains(i) <==> called.contains(i),
{
    let keys = sorted(s);
    lemma_sorted_lists(s);
    lemma_dues_run_down(keys, dues, called, called.len() as int);
    assert(keys.skip(called.len() as int).len() == 0);
    assert(called =~= called.take(called.len() as int));
    assert(keys =~= keys.take(called.len() as int));
    assert forall|i: u32| s.contains(i) <==> called.contains(i) by {
        if called.contains(i) {
            let k = choose|k: int| 0 <= k < called.len() && called[k] == i;
            assert(s.contains(keys[k]));
        }
    }
}

/// After `n` calls the first `n` of `keys` have been called and the others are
/// due.
proof fn lemma_dues_run_down(keys: Seq<u32>, dues: Seq<Seq<u32>>, called: Seq<u32>, n: int)
    requires
        dues.len() == called.len() + 1,
        dues[0] == keys,
        forall|k: int|
            0 <= k < called.len() ==> due_call(dues[k], #[trigger] called[k], dues[k + 1]),
        0 <= n <= called.len(),
    ensures
        n <= keys.len(),
        dues[n] == keys.skip(n),
        called.take(n) == keys.take(n),
    decreases n,
{
    if n == 0 {
        assert(keys.skip(0) =~= keys);
        assert(called.take(0) =~= keys.take(0));
    } else {
        lemma_dues_run_down(keys, dues, called, n - 1);
        assert(due_call(dues[n - 1], called[n - 1], dues[n - 1 + 1]));
        assert(keys.skip(n - 1).drop_first() =~= keys.skip(n));
        assert(called.take(n) =~= called.take(n - 1).push(called[n - 1]));
        assert(keys.take(n) =~= keys.take(n - 1).push(keys[n - 1]));
    }
}

/// An insertion takes a free index, and no free index is lower.
pub proof fn law_insert_takes_least<T>(
    before: Map<u32, T>,
    val: T,
    idx: u32,
    after: Map<u32, T>,
    other: u32,
)
    requires
        insertion(before, val, idx, after),
    ensures
        !before.contains_key(idx),
        after.contains_key(idx),
        !before.contains_key(other) ==> idx <= other,
        after.contains_key(other) <==> before.contains_key(other) || other == idx,
{
    if !before.contains_key(other) && other < idx {
        assert(before.dom().contains(other));
    }
}

/// A removal hands out the value of an occupied slot and empties it; at an empty
/// slot it hands out nothing and changes nothing.
pub proof fn law_removal_gives_what_was_there<T>(
    before: Map<u32, T>,
    idx: u32,
    out: Option<T>,
    after: Map<u32, T>,
)
    requires
        removal(before, idx, out, after),
    ensures
        before.contains_key(idx) ==> out == Some(before[idx]),
        !before.contains_key(idx) ==> out is None && after == before,
        !after.contains_key(idx),
        forall|i: u32|
            i != idx ==> #[trigger] after.contains_key(i) == before.contains_key(i),
        forall|i: u32| #[trigger] after.contains_key(i) ==> after[i] == before[i],
{
    if !before.contains_key(idx) {
        assert(after =~= before);
    }
}

/// There is at most one lowest free index.
pub proof fn law_first_free_is_unique(s: Set<u32>, i: u32, j: u32)
    requires
        is_first_free(s, i),
        is_first_free(s, j),
    ensures
        i == j,
{
    if i < j {
        assert(s.contains(i));
    } else if j < i {
        assert(s.contains(j));
    }
}

/// An inserted value is found under the index that came back.
pub proof fn law_insert_then_get<T>(before: Map<u32, T>, val: T, idx: u32, after: Map<u32, T>)
    requires
        insertion(before, val, idx, after),
    ensures
        lookup(after, idx) == Some(val),
{
}

/// Indices are stable: what an insertion or a removal does at one index changes
/// nothing at any other.
pub proof fn law_indices_are_stable<T>(
    before: Map<u32, T>,
    val: T,
    idx: u32,
    out: Option<T>,
    after: Map<u32, T>,
    other: u32,
)
    requires
        insertion(before, val, idx, after) || removal(before, idx, out, after),
        other != idx,
    ensures
        lookup(after, other) == lookup(before, other),
{
}

/// One step of work on a slab that does not write to or free slot `idx`: a read,
/// an insertion, or a removal or a write in place at another index.
pub open spec fn step_elsewhere<T>(before: Map<u32, T>, idx: u32, after: Map<u32, T>) -> bool {
    ||| after == before
    ||| exists|val: T, i: u32| #[trigger] insertion(before, val, i, after)
    ||| exists|i: u32, out: Option<T>| i != idx && #[trigger] removal(before, i, out, after)
    ||| exists|i: u32, val: T|
        i != idx && before.contains_key(i) && after == #[trigger] before.insert(i, val)
}

/// Indices are stable: after an insertion, and any sequence of steps that do not
/// write to or free its slot, the value is still found under the index that came
/// back.
pub proof fn law_index_is_stable_until_removed<T>(
    start: Map<u32, T>,
    val: T,
    idx: u32,
    states: Seq<Map<u32, T>>,
)
    requires
        states.len() > 0,
        insertion(start, val, idx, states[0]),
        forall|k: int|
            0 <= k < states.len() - 1 ==> step_elsewhere(
                #[trigger] states[k],
                idx,
                states[k + 1],
            ),
    ensures
        lookup(states.last(), idx) == Some(val),
    decreases states.len(),
{
    if states.len() > 1 {
        let front = states.drop_last();
        assert forall|k: int| 0 <= k < front.len() - 1 implies step_elsewhere(
            #[trigger] front[k],
            idx,
            front[k + 1],
        ) by {
            assert(step_elsewhere(states[k], idx, states[k + 1]));
        }
        law_index_is_stable_until_removed(start, val, idx, front);
        let m = states[states.len() - 2];
        let after = states.last();
        assert(step_elsewhere(m, idx, after));
        assert(m.dom().contains(idx));
        if exists|v: T, i: u32| #[trigger] insertion(m, v, i, after) {
            let (v, i) = choose|v: T, i: u32| #[trigger] insertion(m, v, i, after);
            law_insert_overwrites_nothing(m, v, i, after, idx);
        }
    }
}

/// A value is found under an index exactly if the slot is occupied.
pub proof fn law_found_if_occupied<T>(m: Map<u32, T>, idx: u32)
    ensures
        lookup(m, idx) is None <==> !m.contains_key(idx),
        lookup(m, idx) matches Some(v) ==> v == m[idx],
{
}

/// An insertion overwrites nothing: its index was free.
pub proof fn law_insert_overwrites_nothing<T>(
    before: Map<u32, T>,
    val: T,
    idx: u32,
    after: Map<u32, T>,
    other: u32,
)
    requires
        insertion(before, val, idx, after),
        before.contains_key(other),
    ensures
        other != idx,
        lookup(after, other) == Some(before[other]),
{
    assert(before.dom().contains(other));
}

/// Removing what was just inserted gives it back and leaves the slab as it was
/// before the insertion.
pub proof fn law_remove_undoes_insert<T>(
    before: Map<u32, T>,
    val: T,
    idx: u32,
    between: Map<u32, T>,
    out: Option<T>,
    after: Map<u32, T>,
)
    requires
        insertion(before, val, idx, between),
        removal(between, idx, out, after),
    ensures
        out == Some(val),
        after == before,
{
    assert(!before.dom().contains(idx));
    assert(after =~= before);
}

/// After a removal the slot is empty, and a second removal there does nothing.
pub proof fn law_removed_is_gone<T>(
    before: Map<u32, T>,
    idx: u32,
    out: Option<T>,
    between: Map<u32, T>,
    again: Option<T>,
    after: Map<u32, T>,
)
    requires
        removal(before, idx, out, between),
        removal(between, idx, again, after),
    ensures
        lookup(between, idx) is None,
        again is None,
        after == between,
{
    assert(after =~= between);
}

/// A freed slot is reused: insert, remove and insert again gives the same index.
pub proof fn law_freed_slot_is_reused<T>(
    start: Map<u32, T>,
    val: T,
    idx: u32,
    full: Map<u32, T>,
    out: Option<T>,
    freed: Map<u32, T>,
    next: T,
    idx2: u32,
    end: Map<u32, T>,
)
    requires
        insertion(start, val, idx, full),
        removal(full, idx, out, freed),
        insertion(freed, next, idx2, end),
    ensures
        idx2 == idx,
{
    law_remove_undoes_insert(start, val, idx, full, out, freed);
    law_first_free_is_unique(start.dom(), idx, idx2);
}

/// Holes are filled from below: after a removal at `idx`, the next insertion
/// takes the lower of `idx` and the index that was free before.
pub proof fn law_lowest_hole_is_filled<T>(
    before: Map<u32, T>,
    free: u32,
    idx: u32,
    out: Option<T>,
    between: Map<u32, T>,
    val: T,
    idx2: u32,
    after: Map<u32, T>,
)
    requires
        is_first_free(before.dom(), free),
        before.contains_key(idx),
        removal(before, idx, out, between),
        insertion(between, val, idx2, after),
    ensures
        idx2 == if idx < free {
            idx
        } else {
            free
        },
{
    let low = if idx < free {
        idx
    } else {
        free
    };
    assert(is_first_free(between.dom(), low)) by {
        assert forall|j: u32| j < low implies #[trigger] between.dom().contains(j) by {
            assert(before.dom().contains(j));
        }
    }
    law_first_free_is_unique(between.dom(), low, idx2);
}

/// A slab whose occupied slots are exactly the first `n` gives out index `n`
/// next, and its occupied slots are then the first `n + 1`.
pub proof fn law_fills_in_order<T>(
    before: Map<u32, T>,
    n: u32,
    val: T,
    idx: u32,
    after: Map<u32, T>,
)
    requires
        forall|i: u32| #[trigger] before.contains_key(i) <==> i < n,
        insertion(before, val, idx, after),
    ensures
        idx == n,
        forall|i: u32| #[trigger] after.contains_key(i) <==> i <= n,
{
    assert(is_first_free(before.dom(), n)) by {
        assert(!before.contains_key(n));
        assert forall|j: u32| j < n implies #[trigger] before.dom().contains(j) by {
            assert(before.contains_key(j));
        }
    }
    law_first_free_is_unique(before.dom(), n, idx);
}

/// An insertion adds one entry; a removal takes one away if there was one.
pub proof fn law_entries_are_counted<T>(
    before: Map<u32, T>,
    val: T,
    idx: u32,
    between: Map<u32, T>,
    idx2: u32,
    out: Option<T>,
    after: Map<u32, T>,
)
    requires
        insertion(before, val, idx, between),
        removal(between, idx2, out, after),
    ensures
        between.dom().len() == before.dom().len() + 1,
        after.dom().len() == between.dom().len() - if out is Some {
            1int
        } else {
            0int
        },
{
    lemma_set_count(before.dom());
    lemma_set_count(between.dom());
    assert(between.dom() =~= before.dom().insert(idx));
    assert(after.dom() =~= between.dom().remove(idx2));
}

/// Setting a clear bit raises the number of set bits by one and clearing a set
/// bit lowers it by one; any other setting or clearing leaves it.
pub proof fn law_set_bits_are_counted(s: Set<u32>, i: u32)
    ensures
        s.insert(i).len() == s.len() + if s.contains(i) {
            0int
        } else {
            1int
        },
        s.remove(i).len() == s.len() - if s.contains(i) {
            1int
        } else {
            0int
        },
{
    lemma_set_count(s);
}

/// A set of indices below `n` leaves one of them free exactly while it has fewer
/// than `n` members, and never has more.
proof fn lemma_room_by_count(s: Set<u32>, n: int)
    requires
        0 <= n <= 0x1_0000_0000,
        forall|i: u32| #[trigger] s.contains(i) ==> i < n,
    ensures
        s.len() <= n,
        s.len() < n <==> exists|i: u32| i < n && !#[trigger] s.contains(i),
{
    let p = member(s);
    lemma_set_count(s);
    lemma_count_split(p, 0, n, 0x1_0000_0000);
    lemma_count_none(p, n, 0x1_0000_0000);
    lemma_count_bound(p, 0, n);
    if exists|i: u32| i < n && !#[trigger] s.contains(i) {
        let i = choose|i: u32| i < n && !#[trigger] s.contains(i);
        lemma_count_gap(p, 0, n, i as int);
    } else {
        assert forall|i: int| 0 <= i < n implies #[trigger] p(i) by {
            assert(s.contains(i as u32));
        }
        lemma_count_all(p, 0, n);
    }
}

/// The capacity is a hard cap: there are never more entries, and there is room
/// for another exactly while there are fewer.
pub proof fn law_capacity_is_hard_cap<T>(slab: HiSlab<T>)
    requires
        slab.wf(),
    ensures
        slab@.dom().len() <= slab.capacity(),
        slab.capacity() <= MAX_SLOTS ==> (has_room(slab@.dom(), slab.capacity())
            <==> slab@.dom().len() < slab.capacity()),
        slab.capacity() > MAX_SLOTS ==> (has_room(slab@.dom(), slab.capacity())
            <==> slab@.dom().len() < MAX_SLOTS),
{
    slab.law_indices_bounded();
    let dom = slab@.dom();
    let n = if slab.capacity() < MAX_SLOTS {
        slab.capacity()
    } else {
        MAX_SLOTS
    };
    assert forall|i: u32| #[trigger] dom.contains(i) implies i < n by {
        assert(slab@.contains_key(i));
    }
    lemma_room_by_count(dom, n as int);
}

/// The iteration over some of the slots, be it the occupied or the tagged ones,
/// gives every one of them once, in ascending order, with its value.
pub proof fn law_iteration_lists_entries<T>(s: Set<u32>, m: Map<u32, T>)
    ensures
        sorted_entries::<T>(s, m).len() == s.len(),
        forall|a: int, b: int|
            0 <= a < b < s.len() ==> (#[trigger] sorted_entries::<T>(s, m)[a]).0 < (
            #[trigger] sorted_entries::<T>(s, m)[b]).0,
        forall|k: int|
            0 <= k < s.len() ==> {
                let (i, v) = #[trigger] sorted_entries::<T>(s, m)[k];
                s.contains(i) && *v == m[i]
            },
        forall|i: u32| #[trigger]
            s.contains(i) ==> exists|k: int|
                0 <= k < s.len() && #[trigger] sorted_entries::<T>(s, m)[k] == (i, &m[i]),
{
    lemma_sorted_lists(s);
    let keys = sorted(s);
    let items = sorted_entries::<T>(s, m);
    assert forall|k: int| 0 <= k < s.len() implies {
        let (i, v) = #[trigger] items[k];
        s.contains(i) && *v == m[i]
    } by {
        assert(s.contains(keys[k]));
    }
    assert forall|i: u32| #[trigger] s.contains(i) implies exists|k: int|
        0 <= k < s.len() && #[trigger] items[k] == (i, &m[i]) by {
        let k = choose|k: int| 0 <= k < keys.len() && keys[k] == i;
        assert(items[k] == (i, &m[i]));
    }
}

/// The iteration over the tagged slots gives every one of them once, in ascending
/// order, with the value that is found there.
pub proof fn law_tagged_iteration_lists_tags<T>(slab: TaggedHiSlab<T>)
    requires
        slab.wf(),
    ensures
        sorted_entries::<T>(slab.tags(), slab@).len() == slab.tags().len(),
        forall|a: int, b: int|
            0 <= a < b < slab.tags().len() ==> (#[trigger] sorted_entries::<T>(
                slab.tags(),
                slab@,
            )[a]).0 < (#[trigger] sorted_entries::<T>(slab.tags(), slab@)[b]).0,
        forall|k: int|
            0 <= k < slab.tags().len() ==> {
                let (i, v) = #[trigger] sorted_entries::<T>(slab.tags(), slab@)[k];
                slab.tags().contains(i) && lookup(slab@, i) == Some(*v)
            },
        forall|i: u32| #[trigger]
            slab.tags().contains(i) ==> exists|k: int|
                0 <= k < slab.tags().len() && (#[trigger] sorted_entries::<T>(
                    slab.tags(),
                    slab@,
                )[k]).0 == i,
{
    slab.law_tagged_is_occupied();
    law_iteration_lists_entries::<T>(slab.tags(), slab@);
    let items = sorted_entries::<T>(slab.tags(), slab@);
    assert forall|i: u32| #[trigger] slab.tags().contains(i) implies exists|k: int|
        0 <= k < slab.tags().len() && (#[trigger] items[k]).0 == i by {
        let k = choose|k: int|
            0 <= k < slab.tags().len() && #[trigger] items[k] == (i, &slab@[i]);
        assert(items[k].0 == i);
    }
}

/// Moving the values out gives the same entries in the same order.
pub proof fn law_moving_out_lists_entries<T>(m: Map<u32, T>)
    ensures
        sorted_pairs(m).len() == m.dom().len(),
        forall|k: int|
            0 <= k < m.dom().len() ==> {
                let (i, v) = #[trigger] sorted_pairs(m)[k];
                m.contains_key(i) && sorted_entries::<T>(m.dom(), m)[k] == (i, &v)
            },
{
    lemma_sorted_lists(m.dom());
    assert forall|k: int| 0 <= k < m.dom().len() implies {
        let (i, v) = #[trigger] sorted_pairs(m)[k];
        m.contains_key(i) && sorted_entries::<T>(m.dom(), m)[k] == (i, &v)
    } by {
        assert(m.dom().contains(sorted(m.dom())[k]));
    }
}

/// Lending the values out for change gives the same entries in the same order.
pub proof fn law_lending_lists_entries<T>(items: Seq<(u32, &mut T)>, s: Set<u32>, m: Map<u32, T>)
    requires
        lends_entries(items, sorted(s), m),
    ensures
        items.len() == s.len(),
        forall|k: int|
            0 <= k < s.len() ==> {
                let (i, v) = #[trigger] items[k];
                s.contains(i) && sorted_entries::<T>(s, m)[k] == (i, &*v)
            },
{
    lemma_sorted_lists(s);
    assert forall|k: int| 0 <= k < s.len() implies {
        let (i, v) = #[trigger] items[k];
        s.contains(i) && sorted_entries::<T>(s, m)[k] == (i, &*v)
    } by {
        assert(s.contains(sorted(s)[k]));
    }
}

/// The summary byte of a hierarchy without set bits is zero, and it has all its
/// bits exactly when no index is left to hand out.
pub proof fn law_summary_tells_empty_and_full(s: Set<u32>, lvl4: u8)
    requires
        forall|d: int| 0 <= d < 8 ==> #[trigger] byte_bit(lvl4, d) == group_full(s, d),
    ensures
        s == Set::<u32>::empty() ==> lvl4 == 0,
        lvl4 == 0xFF <==> !has_free(s),
{
    lemma_byte_first_clear(lvl4);
    if s == Set::<u32>::empty() {
        assert forall|d: int| 0 <= d < 8 implies !byte_bit(lvl4, d) by {
            let i = (d * 0x800_0000) as u32;
            assert(i as int / 0x800_0000 == d);
            assert(!s.contains(i));
        }
    }
    if has_free(s) {
        let i = choose|i: u32| i < MAX_SLOTS && !#[trigger] s.contains(i);
        assert(!group_full(s, i as int / 0x800_0000));
        assert(!byte_bit(lvl4, i as int / 0x800_0000));
    } else {
        assert forall|d: int| 0 <= d < 8 implies byte_bit(lvl4, d) by {
            assert forall|i: u32| i as int / 0x800_0000 == d implies #[trigger] s.contains(i) by {
                assert(i < MAX_SLOTS);
            }
            assert(group_full(s, d));
        }
    }
}

/// A uniform draw below the number of members picks every member with the same
/// chance: each member answers to one choice in range, and no two to the same.
pub proof fn law_choices_match_members(s: Set<u32>, i: u32, j: u32)
    requires
        s.contains(i),
        s.contains(j),
    ensures
        rank(s, i) < s.len(),
        rank(s, i) == rank(s, j) <==> i == j,
{
    lemma_set_count(s);
    lemma_below_count(s, i as int);
    assert(below(s, i as int).subset_of(s.remove(i)));
    vstd::set_lib::lemma_len_subset(below(s, i as int), s.remove(i));
    if i < j {
        lemma_rank_increases(s, i, j);
    } else if j < i {
        lemma_rank_increases(s, j, i);
    }
}

/// A sample without repetition has as many different members as were asked for.
pub proof fn law_sample_is_distinct(v: Seq<u32>, s: Set<u32>, n: int)
    requires
        picks(v, s, n),
    ensures
        v.to_set().len() == n,
        v.to_set().subset_of(s),
        n <= s.len(),
{
    lemma_set_count(s);
    v.unique_seq_to_set();
    assert(v.to_set().subset_of(s));
    vstd::set_lib::lemma_len_subset(v.to_set(), s);
}

/// The outcome of picking a member of `s` by one draw: none, without a draw, if
/// there is no member.
pub open spec fn random_pick<R: RandomSource>(
    s: Set<u32>,
    before: R,
    pick: Option<u32>,
    after: R,
) -> bool {
    match pick {
        Some(i) => draws_member(s, before, i, after),
        None => s == Set::<u32>::empty() && after == before,
    }
}

/// In the state `before` the source has one possible draw below `bound`.
pub open spec fn draw_is_settled<R: RandomSource>(before: R, bound: u32) -> bool {
    forall|r1: u32, a1: R, r2: u32, a2: R|
        #![trigger R::drew(before, bound, r1, a1), R::drew(before, bound, r2, a2)]
        R::drew(before, bound, r1, a1) && R::drew(before, bound, r2, a2) ==> r1 == r2 && a1 == a2
}

/// From one state of a source whose draw is settled, the shared and the mutable
/// pick give the same index or both none. Writing `val` through the mutable one
/// puts it under that index and leaves all else as it is.
pub proof fn law_shared_and_mutable_pick_agree<T, R: RandomSource>(
    m: Map<u32, T>,
    before: R,
    shared: Option<u32>,
    after_shared: R,
    lent: Option<u32>,
    after_lent: R,
    val: T,
    other: u32,
)
    requires
        draw_is_settled(before, m.dom().len() as u32),
        random_pick(m.dom(), before, shared, after_shared),
        random_pick(m.dom(), before, lent, after_lent),
    ensures
        shared == lent,
        after_shared == after_lent,
        lent matches Some(i) ==> {
            let written = m.insert(i, val);
            &&& lookup(written, i) == Some(val)
            &&& written.dom() == m.dom()
            &&& other != i ==> lookup(written, other) == lookup(m, other)
        },
{
    let s = m.dom();
    match (shared, lent) {
        (Some(i), Some(j)) => {
            law_choices_match_members(s, i, j);
            law_choices_match_members(s, j, i);
        },
        _ => {},
    }
    if let Some(i) = lent {
        assert(m.insert(i, val).dom() =~= s);
    }
}

/// A pick answers to one draw below the number of members, and the number drawn
/// is how many members are smaller than the one picked.
pub proof fn law_pick_answers_to_draw<R: RandomSource>(s: Set<u32>, before: R, i: u32, after: R)
    requires
        draws_member(s, before, i, after),
    ensures
        s.contains(i),
        exists|bound: u32, c: u32| #[trigger]
            R::drew(before, bound, c, after) && bound == s.len() && c == s.filter(
                |x: u32| x < i,
            ).len() && c < bound,
{
    law_choices_match_members(s, i, i);
    assert(s.filter(|x: u32| x < i) =~= below(s, i as int));
    assert(R::drew(before, s.len() as u32, rank(s, i) as u32, after));
}

/// Picks with repetition answer to one draw each, and the source goes from the
/// state that one draw leaves to the next.
pub proof fn law_picks_answer_to_draws<R: RandomSource>(
    s: Set<u32>,
    before: R,
    drawn: Seq<u32>,
    after: R,
)
    requires
        draws_members(s, before, drawn, after),
    ensures
        exists|states: Seq<R>|
            #![trigger states.last()]
            {
                &&& states.len() == drawn.len() + 1
                &&& states[0] == before
                &&& states.last() == after
                &&& forall|k: int|
                    0 <= k < drawn.len() ==> s.contains(#[trigger] drawn[k]) && R::drew(
                        states[k],
                        s.len() as u32,
                        rank(s, drawn[k]) as u32,
                        states[k + 1],
                    )
            },
        drawn.len() == 0 ==> after == before,
{
    let states = choose|states: Seq<R>| #[trigger]
        draw_trace(s, states, drawn) && states.first() == before && states.last() == after;
    assert forall|k: int| 0 <= k < drawn.len() implies s.contains(#[trigger] drawn[k]) && R::drew(
        states[k],
        s.len() as u32,
        rank(s, drawn[k]) as u32,
        states[k + 1],
    ) by {
        assert(draws_member(s, states[k], drawn[k], states[k + 1]));
    }
    assert(states.last() == after);
}

/// Keeping first occurrences loses no member and repeats none.
pub proof fn law_first_occurrences_are_distinct(x: Seq<u32>)
    ensures
        first_occurrences(x).no_duplicates(),
        forall|i: u32|
            #![trigger first_occurrences(x).contains(i)]
            #![trigger x.contains(i)]
            first_occurrences(x).contains(i) <==> x.contains(i),
    decreases x.len(),
{
    if x.len() > 0 {
        let front = x.drop_last();
        let kept = first_occurrences(front);
        let v = first_occurrences(x);
        law_first_occurrences_are_distinct(front);
        assert forall|i: u32|
            #![trigger v.contains(i)]
            #![trigger x.contains(i)]
            v.contains(i) <==> x.contains(i) by {
            if x.contains(i) {
                let k = choose|k: int| 0 <= k < x.len() && x[k] == i;
                if k < front.len() {
                    assert(front[k] == i);
                    assert(front.contains(i) && kept.contains(i));
                    let j = choose|j: int| 0 <= j < kept.len() && kept[j] == i;
                    assert(v[j] == i);
                } else if !kept.contains(i) {
                    assert(v[v.len() - 1] == i);
                }
            }
            if v.contains(i) {
                let j = choose|j: int| 0 <= j < v.len() && v[j] == i;
                if j < kept.len() {
                    assert(kept[j] == i);
                    assert(kept.contains(i) && front.contains(i));
                    let k = choose|k: int| 0 <= k < front.len() && front[k] == i;
                    assert(x[k] == i);
                } else {
                    assert(x[x.len() - 1] == i);
                }
            }
        }
    }
}

/// What has been kept stays in its place when more members follow.
pub proof fn law_first_occurrences_keep_order(x: Seq<u32>, n: int)
    requires
        0 <= n <= x.len(),
    ensures
        first_occurrences(x.take(n)).is_prefix_of(first_occurrences(x)),
    decreases x.len() - n,
{
    if n == x.len() {
        assert(x.take(n) =~= x);
    } else {
        law_first_occurrences_keep_order(x, n + 1);
        assert(x.take(n + 1).drop_last() =~= x.take(n));
    }
}

/// A sample without repetition consists of the members that came up in the
/// draws, and drawing goes on until there are enough of them: short of 2^64 - 1
/// draws nothing else gets into it.
pub proof fn law_sample_comes_from_draws(s: Set<u32>, count: int, drawn: Seq<u32>, v: Seq<u32>)
    requires
        samples_drawn(s, count, drawn, v),
        drawn.len() < 0xffff_ffff_ffff_ffff,
    ensures
        v.len() == count,
        v.no_duplicates(),
        forall|i: u32| v.contains(i) <==> drawn.contains(i),
        drawn.len() > 0 ==> !drawn.drop_last().contains(drawn.last()),
{
    let picked = first_occurrences(drawn);
    law_first_occurrences_are_distinct(drawn);
    assert(v =~= picked);
    if drawn.len() > 0 {
        law_first_occurrences_are_distinct(drawn.drop_last());
    }
}

/// Ranks follow the order of the members.
pub proof fn law_ranks_follow_order(s: Set<u32>, i: u32, j: u32)
    requires
        s.contains(i),
        s.contains(j),
    ensures
        rank(s, i) < rank(s, j) <==> i < j,
        rank(s, i) == s.filter(|x: u32| x < i).len(),
{
    assert(s.filter(|x: u32| x < i) =~= below(s, i as int));
    if i < j {
        lemma_rank_increases(s, i, j);
    } else if j < i {
        lemma_rank_increases(s, j, i);
    }
}

/// What a list of entries pairs with an index is the value found there.
pub proof fn law_listed_entries_are_found<T>(v: Seq<(u32, &T)>, m: Map<u32, T>, k: int)
    requires
        entries_in(v, m),
        0 <= k < v.len(),
    ensures
        lookup(m, v[k].0) == Some(*v[k].1),
        keys_of(v)[k] == v[k].0,
        keys_of(v).len() == v.len(),
{
}

/// Tagging succeeds exactly on an occupied slot without a tag. It reports success
/// exactly if the tags changed, and then just this slot gained its tag.
pub proof fn law_tag_reports_change(
    occupied: Set<u32>,
    before: Set<u32>,
    idx: u32,
    done: bool,
    after: Set<u32>,
)
    requires
        tagging(occupied, before, idx, done, after),
    ensures
        occupied.contains(idx) && !before.contains(idx) ==> done && after.contains(idx),
        !occupied.contains(idx) || before.contains(idx) ==> !done,
        done <==> after != before,
        forall|i: u32| i != idx ==> (#[trigger] after.contains(i) <==> before.contains(i)),
        after.contains(idx) <==> before.contains(idx) || occupied.contains(idx),
{
}

/// Untagging succeeds exactly on a tagged slot. It reports success exactly if the
/// tags changed, and afterwards just this slot has lost its tag.
pub proof fn law_untag_reports_change(before: Set<u32>, idx: u32, done: bool, after: Set<u32>)
    requires
        untagging(before, idx, done, after),
    ensures
        before.contains(idx) ==> done,
        !before.contains(idx) ==> !done,
        done <==> after != before,
        !after.contains(idx),
        forall|i: u32| i != idx ==> (#[trigger] after.contains(i) <==> before.contains(i)),
{
    if !before.contains(idx) {
        assert(after =~= before);
    }
}

/// Tagging marks an occupied slot once: afterwards it is tagged, and a second
/// tagging reports that nothing changed.
pub proof fn law_tag_twice(
    occupied: Set<u32>,
    start: Set<u32>,
    idx: u32,
    first: bool,
    between: Set<u32>,
    second: bool,
    end: Set<u32>,
)
    requires
        tagging(occupied, start, idx, first, between),
        tagging(occupied, between, idx, second, end),
    ensures
        !second,
        end == between,
        occupied.contains(idx) ==> between.contains(idx),
{
}

/// Untagging takes the tag off once: afterwards the slot is not tagged, and a
/// second untagging reports that nothing changed.
pub proof fn law_untag_twice(
    start: Set<u32>,
    idx: u32,
    first: bool,
    between: Set<u32>,
    second: bool,
    end: Set<u32>,
)
    requires
        untagging(start, idx, first, between),
        untagging(between, idx, second, end),
    ensures
        !between.contains(idx),
        !second,
        end == between,
{
    assert(end =~= between);
}

/// Untagging undoes a tagging that changed something.
pub proof fn law_untag_undoes_tag(
    occupied: Set<u32>,
    start: Set<u32>,
    idx: u32,
    between: Set<u32>,
    done: bool,
    end: Set<u32>,
)
    requires
        tagging(occupied, start, idx, true, between),
        untagging(between, idx, done, end),
    ensures
        done,
        end == start,
{
    assert(end =~= start);
}

/// Tagging and untagging one slot leaves the tags of the others as they are.
pub proof fn law_tags_are_independent(
    occupied: Set<u32>,
    before: Set<u32>,
    idx: u32,
    done: bool,
    after: Set<u32>,
    other: u32,
)
    requires
        tagging(occupied, before, idx, done, after) || untagging(before, idx, done, after),
        other != idx,
    ensures
        after.contains(other) == before.contains(other),
{
}

/// The slot that an insertion takes carries no tag, whatever was tagged there
/// before.
pub proof fn law_fresh_slot_is_untagged<T>(
    slab: TaggedHiSlab<T>,
    val: T,
    idx: u32,
    after: Map<u32, T>,
)
    requires
        slab.wf(),
        insertion(slab@, val, idx, after),
    ensures
        !slab.tags().contains(idx),
{
    slab.law_tagged_is_occupied();
    assert(!slab@.dom().contains(idx));
}

/// At most as many slots are tagged as are occupied.
pub proof fn law_tags_are_counted<T>(slab: TaggedHiSlab<T>)
    requires
        slab.wf(),
    ensures
        slab.tags().len() <= slab@.dom().len(),
{
    slab.law_tagged_is_occupied();
    lemma_set_count(slab@.dom());
    lemma_set_count(slab.tags());
    assert(slab.tags().subset_of(slab@.dom()));
    vstd::set_lib::lemma_len_subset(slab.tags(), slab@.dom());
}

/// Filtering with a predicate that accepts all the values it is shown keeps
/// everything; with one that accepts none of them, it drops all it is shown.
pub proof fn law_filter_obeys_predicate<T, F>(
    f: F,
    m: Map<u32, T>,
    judged: Set<u32>,
    before: Set<u32>,
    after: Set<u32>,
) where F: FnMut(u32, &mut T) -> bool
    requires
        retaining(f, m, judged, before, after),
        judged.subset_of(before),
    ensures
        (forall|i: u32| #[trigger] judged.contains(i) ==> !can_answer(f, i, m[i], false))
            ==> after == before,
        (forall|i: u32| #[trigger] judged.contains(i) ==> !can_answer(f, i, m[i], true))
            ==> after == before.difference(judged),
{
    if forall|i: u32| #[trigger] judged.contains(i) ==> !can_answer(f, i, m[i], false) {
        assert forall|i: u32| #[trigger] before.contains(i) implies after.contains(i) by {
            if judged.contains(i) {
                assert(can_answer(f, i, m[i], after.contains(i)));
            }
        }
        assert(after =~= before);
    }
    if forall|i: u32| #[trigger] judged.contains(i) ==> !can_answer(f, i, m[i], true) {
        assert forall|i: u32| #[trigger] judged.contains(i) implies !after.contains(i) by {
            assert(can_answer(f, i, m[i], after.contains(i)));
        }
        assert(after =~= before.difference(judged));
    }
}

/// A buffer that is handed out was not in anyone's hands.
pub proof fn law_buffers_are_handed_out_once(
    before: Set<u32>,
    idx: u32,
    after: Set<u32>,
    held: u32,
)
    requires
        taking(before, idx, after),
        before.contains(held),
    ensures
        idx != held,
        after.contains(held),
{
}

/// The buffer that is handed out is free, and no free one is lower; it is then
/// taken, and nothing else changes.
pub proof fn law_lowest_buffer_is_taken(before: Set<u32>, idx: u32, after: Set<u32>, other: u32)
    requires
        taking(before, idx, after),
    ensures
        !before.contains(idx),
        !before.contains(other) ==> idx <= other,
        after.contains(other) <==> before.contains(other) || other == idx,
        after.len() == before.len() + 1,
{
    lemma_set_count(before);
}

/// All buffers are taken exactly if as many are taken as there are.
pub proof fn law_pool_is_full_by_count(taken: Set<u32>, capacity: u32)
    requires
        forall|i: u32| #[trigger] taken.contains(i) ==> i < capacity,
    ensures
        all_taken(taken, capacity) <==> taken.len() == capacity,
{
    lemma_room_by_count(taken, capacity as int);
}

/// A buffer that was given back is handed out again before any higher one: take,
/// give back and take gives the same index.
pub proof fn law_released_buffer_is_reused(
    start: Set<u32>,
    idx: u32,
    between: Set<u32>,
    idx2: u32,
    end: Set<u32>,
)
    requires
        taking(start, idx, between),
        taking(between.remove(idx), idx2, end),
    ensures
        idx2 == idx,
        end == between,
{
    assert(between.remove(idx) =~= start);
    law_first_free_is_unique(start, idx, idx2);
}

/// A full pool that gets any buffer back has one to hand out, and it is that
/// one.
pub proof fn law_release_makes_room(taken: Set<u32>, capacity: u32, idx: u32, next: u32)
    requires
        all_taken(taken, capacity),
        idx < capacity,
        is_first_free(taken.remove(idx), next),
    ensures
        !all_taken(taken.remove(idx), capacity),
        next == idx,
{
    let s = taken.remove(idx);
    assert(!s.contains(idx));
    assert(is_first_free(s, idx)) by {
        assert forall|j: u32| j < idx implies #[trigger] s.contains(j) by {
            assert(taken.contains(j));
        }
    }
    law_first_free_is_unique(s, idx, next);
}

/// Buffers stand one behind the other, `N` bytes apart, within the bytes of the
/// pool.
pub proof fn law_buffers_do_not_overlap<const N: usize>(pool: BufferSlab<N>, i: u32, j: u32)
    requires
        pool.wf(),
        i < j < pool.capacity(),
    ensures
        slot_start(i, N) + N <= slot_start(j, N),
        j == i + 1 ==> slot_start(j, N) - slot_start(i, N) == N,
        0 <= slot_start(i, N),
        slot_start(j, N) + N <= pool.bytes().len(),
        pool.slot(i).len() == N,
        pool.slot(j).len() == N,
        forall|k: int| 0 <= k < N ==> #[trigger] pool.slot(i)[k] == pool.bytes()[i * N + k],
{
    pool.law_bytes_cover_buffers();
    assert(0 <= i * N && i * N + N <= j * N && j * N + N <= pool.capacity() * N && (i + 1) * N == i
        * N + N) by (nonlinear_arith)
        requires
            0 <= i < j < pool.capacity(),
            0 <= N,
    ;
}

/// The record of initialised bytes never goes back, and the order of two records
/// does not matter.
pub proof fn law_init_only_advances(init: usize, a: usize, b: usize)
    ensures
        advanced(init, a) >= init,
        advanced(init, a) >= a,
        advanced(init, a) == init || advanced(init, a) == a,
        advanced(advanced(init, a), b) == advanced(advanced(init, b), a),
{
}

} // verus!
