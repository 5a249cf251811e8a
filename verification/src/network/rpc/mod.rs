use vstd::prelude::*;

pub mod id;
pub mod message;

verus! {

} // verus!
