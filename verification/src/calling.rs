//! Calls of functions that are given as values.
//!
//! What is known of such a call is that it was made: `call_ensures` holds of its
//! arguments and its result. [`Calls`] adds that a callback is called for each
//! index in turn and no other way.
use vstd::prelude::*;

use crate::counting::sorted;

verus! {

/// Calls `f` with one argument.
pub(crate) fn call_with<A, O, F: FnOnce(A) -> O>(f: F, a: A) -> (r: O)
    requires
        call_requires(f, (a,)),
    ensures
        call_ensures(f, (a,), r),
{
    f(a)
}

/// Calls `f` with three arguments.
pub(crate) fn call_with_three<A, B, C, O, F: FnOnce(A, B, C) -> O>(f: F, a: A, b: B, c: C) -> (r: O)
    requires
        call_requires(f, (a, b, c)),
    ensures
        call_ensures(f, (a, b, c), r),
{
    f(a, b, c)
}

/// Calls `f` with something to change and one more argument.
pub(crate) fn call_on<S, A, O, F: FnOnce(&mut S, A) -> O>(f: F, s: &mut S, a: A) -> (r: O)
    requires
        forall|m: &mut S| *m == *old(s) ==> #[trigger] call_requires(f, (m, a)),
    ensures
        exists|m: &mut S|
            *m == *old(s) && *final(m) == *final(s) && #[trigger] call_ensures(f, (m, a), r),
{
    f(s, a)
}

/// The call that is due first, for index `idx`, is made.
pub open spec fn due_call(before: Seq<u32>, idx: u32, after: Seq<u32>) -> bool {
    &&& before.len() > 0
    &&& idx == before[0]
    &&& after == before.drop_first()
}

/// A callback that is to be called once for each of some indices, in ascending
/// order.
pub struct Calls<F> {
    f: F,
    due: Ghost<Seq<u32>>,
}

impl<F> Calls<F> {
    /// The callback.
    pub closed spec fn callee(&self) -> F {
        self.f
    }

    /// The indices for which it is still to be called.
    pub closed spec fn due(&self) -> Seq<u32> {
        self.due@
    }

    /// `f` is to be called for each index of `s`.
    pub(crate) fn new(f: F, s: Ghost<Set<u32>>) -> (calls: Self)
        ensures
            calls.callee() == f,
            calls.due() == sorted(s@),
    {
        Calls { f, due: Ghost(sorted(s@)) }
    }
}

impl<F: FnMut(u32)> Calls<F> {
    /// Makes the call that is due.
    pub(crate) fn call_index(&mut self, idx: u32)
        requires
            old(self).due().len() > 0,
            idx == old(self).due()[0],
            call_requires(old(self).callee(), (idx,)),
        ensures
            final(self).callee() == old(self).callee(),
            due_call(old(self).due(), idx, final(self).due()),
            call_ensures(old(self).callee(), (idx,), ()),
    {
        (self.f)(idx);
        self.due = Ghost(self.due@.drop_first());
    }
}

impl<F> Calls<F> {
    /// Makes the call that is due, with a value to look at.
    pub(crate) fn call_entry<T>(&mut self, idx: u32, val: &T) where F: FnMut(u32, &T)
        requires
            old(self).due().len() > 0,
            idx == old(self).due()[0],
            call_requires(old(self).callee(), (idx, val)),
        ensures
            final(self).callee() == old(self).callee(),
            due_call(old(self).due(), idx, final(self).due()),
            call_ensures(old(self).callee(), (idx, val), ()),
    {
        (self.f)(idx, val);
        self.due = Ghost(self.due@.drop_first());
    }

    /// Makes the call that is due, with a value that may be changed.
    pub(crate) fn call_entry_mut<T>(&mut self, idx: u32, val: &mut T) -> (keep: bool) where
        F: FnMut(u32, &mut T) -> bool,

        requires
            old(self).due().len() > 0,
            idx == old(self).due()[0],
            forall|v: &mut T|
                *v == *old(val) ==> #[trigger] call_requires(old(self).callee(), (idx, v)),
        ensures
            final(self).callee() == old(self).callee(),
            due_call(old(self).due(), idx, final(self).due()),
            exists|v: &mut T|
                *v == *old(val) && *final(v) == *final(val) && #[trigger] call_ensures(
                    old(self).callee(),
                    (idx, v),
                    keep,
                ),
    {
        assert(self.f == old(self).callee());
        let keep = (self.f)(idx, val);
        self.due = Ghost(self.due@.drop_first());
        keep
    }
}

} // verus!
