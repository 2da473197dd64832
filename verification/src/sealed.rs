//! Keeps the random sources to the types of this crate's choice.
use vstd::prelude::*;

verus! {

/// Implemented only here, so that no other type becomes a random source.
pub trait Sealed {

}

impl Sealed for rand::rngs::StdRng {

}

impl Sealed for rand::rngs::ThreadRng {

}

} // verus!
