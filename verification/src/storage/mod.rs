use vstd::prelude::*;

verus! {

/// The node's local key/value store.
pub struct LocalStorage {}

impl LocalStorage {
    /// An empty store.
    pub fn new() -> (r: LocalStorage)
        ensures
            r == (LocalStorage {}),
    {
        LocalStorage {}
    }
}

} // verus!
