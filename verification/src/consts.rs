use vstd::prelude::*;

verus! {

/// Capacity of every bucket past the small ones.
pub const KUSIZE: usize = 32;

/// Buckets `0..=SMALL_BUCKET_COUNT` hold `2^i` entries.
pub const SMALL_BUCKET_COUNT: usize = 4;

/// One bucket per bit of a 256-bit identifier.
pub const N_BUCKETS: usize = 256;

/// How many times a ping is attempted before the peer counts as dead.
pub const PING_MAX_RETRY: usize = 3;

/// Per-attempt timeout of a request, in milliseconds.
pub const T_MAX_MS: u64 = 800;

/// Largest number of nodes a `FoundNodes` reply may carry.
pub const ALPHA: usize = 3;

} // verus!
