//! Counting the positions at which a predicate holds, and the link to the
//! size of a set.
use vstd::prelude::*;

verus! {

/// How many `i` with `lo <= i < hi` satisfy `p`.
pub open spec fn count(p: spec_fn(int) -> bool, lo: int, hi: int) -> nat
    decreases hi - lo,
{
    if hi <= lo {
        0
    } else {
        count(p, lo, hi - 1) + if p(hi - 1) {
            1nat
        } else {
            0nat
        }
    }
}

/// Counting over adjacent ranges adds up.
pub proof fn lemma_count_split(p: spec_fn(int) -> bool, lo: int, mid: int, hi: int)
    requires
        lo <= mid <= hi,
    ensures
        count(p, lo, hi) == count(p, lo, mid) + count(p, mid, hi),
    decreases hi - mid,
{
    if mid < hi {
        lemma_count_split(p, lo, mid, hi - 1);
    }
}

/// Counting is unchanged when the range and the predicate are moved together.
pub proof fn lemma_count_shift(
    p: spec_fn(int) -> bool,
    q: spec_fn(int) -> bool,
    lo: int,
    hi: int,
    d: int,
)
    requires
        forall|i: int| lo <= i < hi ==> #[trigger] p(i) == q(i + d),
    ensures
        count(p, lo, hi) == count(q, lo + d, hi + d),
    decreases hi - lo,
{
    if lo < hi {
        lemma_count_shift(p, q, lo, hi - 1, d);
        assert(p(hi - 1) == q(hi - 1 + d));
    }
}

/// A count is at most the length of the range.
pub proof fn lemma_count_bound(p: spec_fn(int) -> bool, lo: int, hi: int)
    requires
        lo <= hi,
    ensures
        count(p, lo, hi) <= hi - lo,
    decreases hi - lo,
{
    if lo < hi {
        lemma_count_bound(p, lo, hi - 1);
    }
}

/// One position without the property makes the count smaller than the range.
pub proof fn lemma_count_gap(p: spec_fn(int) -> bool, lo: int, hi: int, i: int)
    requires
        lo <= i < hi,
        !p(i),
    ensures
        count(p, lo, hi) < hi - lo,
{
    lemma_count_split(p, lo, i, hi);
    lemma_count_split(p, i, i + 1, hi);
    lemma_count_bound(p, lo, i);
    lemma_count_bound(p, i + 1, hi);
    assert(count(p, i, i) == 0);
    assert(count(p, i, i + 1) == 0);
}

/// One position with the property makes the count positive.
pub proof fn lemma_count_hit(p: spec_fn(int) -> bool, lo: int, hi: int, i: int)
    requires
        lo <= i < hi,
        p(i),
    ensures
        count(p, lo, hi) > 0,
{
    lemma_count_split(p, lo, i, hi);
    lemma_count_split(p, i, i + 1, hi);
    assert(count(p, i, i) == 0);
    assert(count(p, i, i + 1) == 1);
}

/// A range without the property counts zero.
pub proof fn lemma_count_none(p: spec_fn(int) -> bool, lo: int, hi: int)
    requires
        forall|i: int| lo <= i < hi ==> !#[trigger] p(i),
    ensures
        count(p, lo, hi) == 0,
    decreases hi - lo,
{
    if lo < hi {
        lemma_count_none(p, lo, hi - 1);
        assert(!p(hi - 1));
    }
}

/// A range in which every position has the property counts its length.
pub proof fn lemma_count_all(p: spec_fn(int) -> bool, lo: int, hi: int)
    requires
        lo <= hi,
        forall|i: int| lo <= i < hi ==> #[trigger] p(i),
    ensures
        count(p, lo, hi) == hi - lo,
    decreases hi - lo,
{
    if lo < hi {
        lemma_count_all(p, lo, hi - 1);
        assert(p(hi - 1));
    }
}

/// The members of `s` below `n`.
pub open spec fn below(s: Set<u32>, n: int) -> Set<u32> {
    s.filter(|x: u32| x < n)
}

/// How many members of `s` are smaller than `i`.
pub open spec fn rank(s: Set<u32>, i: u32) -> nat {
    below(s, i as int).len()
}

/// Membership of a set of indices, as a predicate on integers.
pub open spec fn member(s: Set<u32>) -> spec_fn(int) -> bool {
    |i: int| 0 <= i <= u32::MAX && s.contains(i as u32)
}

/// The members of `s` below `n` are as many as a count over its membership
/// says.
pub proof fn lemma_below_count(s: Set<u32>, n: int)
    requires
        0 <= n,
    ensures
        below(s, n).finite(),
        below(s, n).len() == count(member(s), 0, n),
    decreases n,
{
    if n == 0 {
        assert(below(s, n) =~= Set::empty());
    } else {
        lemma_below_count(s, n - 1);
        if member(s)(n - 1) {
            assert(below(s, n) =~= below(s, n - 1).insert((n - 1) as u32));
        } else {
            assert(below(s, n) =~= below(s, n - 1));
        }
    }
}

/// Every set of `u32` indices is finite, and its size is a count over its
/// membership.
pub proof fn lemma_set_count(s: Set<u32>)
    ensures
        s.finite(),
        s.len() == count(member(s), 0, 0x1_0000_0000),
{
    lemma_below_count(s, 0x1_0000_0000);
    assert(below(s, 0x1_0000_0000) =~= s);
}

/// A set of integers within a range has as many members as a count says.
pub proof fn lemma_int_set_count(s: Set<int>, lo: int, hi: int)
    requires
        forall|i: int| #[trigger] s.contains(i) ==> lo <= i < hi,
    ensures
        s.finite(),
        s.len() == count(|i: int| s.contains(i), lo, hi),
    decreases hi - lo,
{
    let p = |i: int| s.contains(i);
    if hi <= lo {
        assert(s =~= Set::empty());
    } else {
        let t = s.remove(hi - 1);
        let q = |i: int| t.contains(i);
        lemma_int_set_count(t, lo, hi - 1);
        lemma_count_shift(q, p, lo, hi - 1, 0);
        if s.contains(hi - 1) {
            assert(s =~= t.insert(hi - 1));
        } else {
            assert(s =~= t);
        }
    }
}

/// `i` is the least member of `s`.
pub open spec fn is_least(s: Set<u32>, i: u32) -> bool {
    s.contains(i) && forall|j: u32| #[trigger] s.contains(j) ==> i <= j
}

/// A set of indices that is not empty has a least member.
pub proof fn lemma_least_exists(s: Set<u32>, i: u32)
    requires
        s.contains(i),
    ensures
        exists|j: u32| is_least(s, j),
    decreases i,
{
    if exists|j: u32| s.contains(j) && j < i {
        let j = choose|j: u32| s.contains(j) && j < i;
        lemma_least_exists(s, j);
    } else {
        assert(is_least(s, i));
    }
}

/// The members of `s` in ascending order.
pub open spec fn sorted(s: Set<u32>) -> Seq<u32>
    decreases s.len(),
    when s.finite()
{
    if s =~= Set::empty() {
        Seq::empty()
    } else {
        let i = choose|i: u32| is_least(s, i);
        proof {
            if !(s =~= Set::empty()) {
                let j = choose|j: u32| s.contains(j);
                lemma_least_exists(s, j);
            }
        }
        seq![i] + sorted(s.remove(i))
    }
}

/// The least member comes first.
pub proof fn lemma_sorted_first(s: Set<u32>, i: u32)
    requires
        is_least(s, i),
    ensures
        sorted(s).len() > 0,
        sorted(s)[0] == i,
        sorted(s).drop_first() == sorted(s.remove(i)),
{
    lemma_set_count(s);
    let j = choose|j: u32| is_least(s, j);
    assert(j == i);
    assert(sorted(s).drop_first() =~= sorted(s.remove(i)));
}

/// The members of `v` ascend.
pub open spec fn ascending(v: Seq<u32>) -> bool {
    forall|a: int, b: int| 0 <= a < b < v.len() ==> v[a] < v[b]
}

/// `v` lists the members of `s`, each once and in ascending order.
pub open spec fn lists_ascending(v: Seq<u32>, s: Set<u32>) -> bool {
    &&& ascending(v)
    &&& v.len() == s.len()
    &&& forall|k: int| 0 <= k < v.len() ==> s.contains(#[trigger] v[k])
    &&& forall|i: u32| #[trigger] s.contains(i) ==> v.contains(i)
}

/// `sorted(s)` lists the members of `s`.
pub proof fn lemma_sorted_lists(s: Set<u32>)
    ensures
        lists_ascending(sorted(s), s),
    decreases s.len(),
{
    lemma_set_count(s);
    if s =~= Set::empty() {
    } else {
        let j = choose|j: u32| s.contains(j);
        lemma_least_exists(s, j);
        let i = choose|i: u32| is_least(s, i);
        let t = s.remove(i);
        lemma_sorted_lists(t);
        lemma_sorted_first(s, i);
        let v = sorted(s);
        let w = sorted(t);
        assert(v =~= seq![i] + w);
        assert forall|k: int| 0 <= k < v.len() implies s.contains(#[trigger] v[k]) by {
            if k > 0 {
                assert(v[k] == w[k - 1]);
            }
        }
        assert forall|a: int, b: int| 0 <= a < b < v.len() implies v[a] < v[b] by {
            assert(v[b] == w[b - 1]);
            assert(t.contains(w[b - 1]));
            if a > 0 {
                assert(v[a] == w[a - 1]);
            }
        }
        assert forall|x: u32| #[trigger] s.contains(x) implies v.contains(x) by {
            if x == i {
                assert(v[0] == x);
            } else {
                assert(t.contains(x));
                let k = choose|k: int| 0 <= k < w.len() && w[k] == x;
                assert(v[k + 1] == x);
            }
        }
    }
}

/// Only `sorted(s)` lists the members of `s` in ascending order.
pub proof fn lemma_sorted_unique(v: Seq<u32>, s: Set<u32>)
    requires
        lists_ascending(v, s),
    ensures
        v == sorted(s),
    decreases v.len(),
{
    lemma_set_count(s);
    lemma_sorted_lists(s);
    if v.len() > 0 {
        let i = v[0];
        let t = s.remove(i);
        let w = v.drop_first();
        assert forall|j: u32| #[trigger] s.contains(j) implies i <= j by {
            let k = choose|k: int| 0 <= k < v.len() && v[k] == j;
            assert(k > 0 ==> v[0] < v[k]);
        }
        assert forall|j: u32| #[trigger] t.contains(j) implies w.contains(j) by {
            assert(s.contains(j));
            let k = choose|k: int| 0 <= k < v.len() && v[k] == j;
            assert(w[k - 1] == j);
        }
        assert forall|k: int| 0 <= k < w.len() implies t.contains(#[trigger] w[k]) by {
            assert(s.contains(v[k + 1]));
            assert(v[0] < v[k + 1]);
        }
        lemma_sorted_unique(w, t);
        lemma_sorted_first(s, i);
        assert(v =~= seq![i] + w);
        assert(sorted(s) =~= seq![i] + sorted(t));
    }
}

/// Passing a member raises the rank.
pub proof fn lemma_rank_increases(s: Set<u32>, i: u32, j: u32)
    requires
        s.contains(i),
        i < j,
    ensures
        rank(s, i) < rank(s, j),
{
    lemma_below_count(s, i as int);
    lemma_below_count(s, j as int);
    lemma_count_split(member(s), 0, i as int, j as int);
    lemma_count_hit(member(s), i as int, j as int, i as int);
}

} // verus!
