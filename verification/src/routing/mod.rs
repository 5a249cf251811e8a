use vstd::prelude::*;

pub mod entry;
pub mod errors;
pub mod kbucket;
pub mod table;

verus! {

} // verus!
