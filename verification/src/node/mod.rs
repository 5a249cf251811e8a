use vstd::prelude::*;

pub mod bootstrap;
pub mod errors;

verus! {

} // verus!
