//! Random draws.
use vstd::prelude::*;

use rand::Rng;
use rand::rngs::{StdRng, ThreadRng};

use crate::calling::call_on;
use crate::sealed::Sealed;

verus! {

/// `rand::rngs::StdRng`, carried through as an opaque value.
#[verifier::external_type_specification]
#[verifier::external_body]
pub struct ExStdRng(rand::rngs::StdRng);

/// `rand::rngs::ThreadRng`, carried through as an opaque value.
#[verifier::external_type_specification]
#[verifier::external_body]
pub struct ExThreadRng(rand::rngs::ThreadRng);

/// A source of uniform draws below a bound.
pub trait RandomSource: Sealed + Sized {
    /// One draw below `bound` can give `r` and take the source from `before` to
    /// `after`.
    spec fn drew(before: Self, bound: u32, r: u32, after: Self) -> bool;

    /// A draw lies below its bound.
    proof fn law_draw_is_below(before: Self, bound: u32, r: u32, after: Self)
        requires
            Self::drew(before, bound, r, after),
        ensures
            r < bound,
    ;

    /// Draws a number below `bound`.
    fn draw_below(&mut self, bound: u32) -> (r: u32)
        requires
            bound > 0,
        ensures
            r < bound,
            Self::drew(*old(self), bound, r, *final(self)),
    ;
}

/// `Rng::gen_range` on a `StdRng`: with a non-empty range, the result lies in
/// it. Which number comes is up to the generator's state and is left unsaid.
#[verifier::external_body]
pub(crate) fn std_rng_draw(rng: &mut StdRng, bound: u32) -> (r: u32)
    requires
        bound > 0,
    ensures
        r < bound,
{
    rng.gen_range(0..bound)
}

/// `Rng::gen_range` on a `ThreadRng`: with a non-empty range, the result lies
/// in it. Which number comes is left to chance.
#[verifier::external_body]
pub(crate) fn thread_rng_draw(rng: &mut ThreadRng, bound: u32) -> (r: u32)
    requires
        bound > 0,
    ensures
        r < bound,
{
    rng.gen_range(0..bound)
}

/// One draw from a `StdRng`, with the states of the generator before and after it.
fn std_rng_step(rng: &mut StdRng, bound: u32) -> (t: (Ghost<StdRng>, u32, Ghost<StdRng>))
    requires
        bound > 0,
    ensures
        t.0@ == *old(rng),
        t.2@ == *final(rng),
        t.1 < bound,
        exists|m: &mut StdRng|
            *m == *old(rng) && *final(m) == *final(rng) && #[trigger] call_ensures(
                std_rng_draw,
                (m, bound),
                t.1,
            ),
{
    let ghost before = *rng;
    let r: u32 = call_on(std_rng_draw, rng, bound);
    (Ghost(before), r, Ghost(*rng))
}

/// What `StdRng` draws is what [`std_rng_draw`] returned, from one state of the
/// generator to the next.
pub(crate) proof fn law_std_rng_draw_is_gen_range(before: StdRng, bound: u32, r: u32, after: StdRng)
    requires
        StdRng::drew(before, bound, r, after),
    ensures
        exists|m: &mut StdRng|
            *m == before && *final(m) == after && #[trigger] call_ensures(
                std_rng_draw,
                (m, bound),
                r,
            ),
{
}

impl RandomSource for StdRng {
    /// A call of [`std_rng_draw`] gave `r` and left the generator in the state
    /// `after`.
    closed spec fn drew(before: Self, bound: u32, r: u32, after: Self) -> bool {
        exists|m: &mut StdRng|
            *m == before && #[trigger] call_ensures(
                std_rng_step,
                (m, bound),
                (Ghost(before), r, Ghost(after)),
            )
    }

    proof fn law_draw_is_below(before: Self, bound: u32, r: u32, after: Self) {
    }

    fn draw_below(&mut self, bound: u32) -> (r: u32) {
        call_on(std_rng_step, self, bound).1
    }
}

/// One draw from a `ThreadRng`, with the states of the generator before and after it.
fn thread_rng_step(rng: &mut ThreadRng, bound: u32) -> (t: (
    Ghost<ThreadRng>,
    u32,
    Ghost<ThreadRng>,
))
    requires
        bound > 0,
    ensures
        t.0@ == *old(rng),
        t.2@ == *final(rng),
        t.1 < bound,
        exists|m: &mut ThreadRng|
            *m == *old(rng) && *final(m) == *final(rng) && #[trigger] call_ensures(
                thread_rng_draw,
                (m, bound),
                t.1,
            ),
{
    let ghost before = *rng;
    let r: u32 = call_on(thread_rng_draw, rng, bound);
    (Ghost(before), r, Ghost(*rng))
}

/// What `ThreadRng` draws is what [`thread_rng_draw`] returned, from one state of the
/// generator to the next.
pub(crate) proof fn law_thread_rng_draw_is_gen_range(
    before: ThreadRng,
    bound: u32,
    r: u32,
    after: ThreadRng,
)
    requires
        ThreadRng::drew(before, bound, r, after),
    ensures
        exists|m: &mut ThreadRng|
            *m == before && *final(m) == after && #[trigger] call_ensures(
                thread_rng_draw,
                (m, bound),
                r,
            ),
{
}

impl RandomSource for ThreadRng {
    /// A call of [`thread_rng_draw`] gave `r` and left the generator in the state
    /// `after`.
    closed spec fn drew(before: Self, bound: u32, r: u32, after: Self) -> bool {
        exists|m: &mut ThreadRng|
            *m == before && #[trigger] call_ensures(
                thread_rng_step,
                (m, bound),
                (Ghost(before), r, Ghost(after)),
            )
    }

    proof fn law_draw_is_below(before: Self, bound: u32, r: u32, after: Self) {
    }

    fn draw_below(&mut self, bound: u32) -> (r: u32) {
        call_on(thread_rng_step, self, bound).1
    }
}

} // verus!
