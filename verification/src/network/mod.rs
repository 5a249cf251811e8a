use vstd::prelude::*;

pub mod addr;
pub mod errors;
pub mod rpc;
pub mod tcp;

verus! {

} // verus!
