use vstd::prelude::*;

pub mod rng;

verus! {

} // verus!
