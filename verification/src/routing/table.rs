use vstd::prelude::*;
use vstd::arithmetic::power2::{pow2, lemma2_to64};
use crate::consts::{KUSIZE, N_BUCKETS, SMALL_BUCKET_COUNT};
use crate::primitives::{
    U256, be_value, is_zero_bytes, leading_zero_bits, lemma_be_value_leading_zeros,
    lemma_be_value_zero, lemma_xor_symmetric, lemma_xor_zero, xor_bytes,
};
use crate::routing::entry::NodeEntry;
use crate::routing::errors::{BucketError, RoutingError};
use crate::routing::kbucket::{
    KBucket, KBucketView, InsertDecision, bucket_wf, contains_id, distinct_ids, index_of_id,
    is_first_with_id, lemma_index_of_id, ping_outcome, remove_outcome,
    try_insert_outcome,
};

verus! {

/// The bucket that holds identifier `target` in the table of `local`: the
/// position of the highest set bit of their XOR distance, counted from the
/// least significant bit; none for `local` itself.
pub open spec fn bucket_index(local: Seq<u8>, target: Seq<u8>) -> Option<int> {
    let d = xor_bytes(local, target);
    if is_zero_bytes(d) {
        None
    } else {
        Some(255 - leading_zero_bits(d))
    }
}

/// Capacity of bucket `i`: `2^i` for the first `SMALL_BUCKET_COUNT + 1`
/// buckets, `KUSIZE` past them.
pub open spec fn bucket_capacity(i: int) -> nat {
    if i <= SMALL_BUCKET_COUNT {
        pow2(i as nat)
    } else {
        KUSIZE as nat
    }
}

proof fn lemma_leading_zero_bits_bound(s: Seq<u8>)
    ensures
        leading_zero_bits(s) <= 8 * s.len(),
        !is_zero_bytes(s) ==> leading_zero_bits(s) < 8 * s.len(),
    decreases s.len(),
{
    if s.len() > 0 {
        lemma_leading_zero_bits_bound(s.drop_first());
        if s[0] == 0 && !is_zero_bytes(s) {
            let k = choose|k: int| 0 <= k < s.len() && s[k] != 0;
            assert(s.drop_first()[k - 1] != 0);
        }
    }
}

fn small_capacity(i: usize) -> (r: usize)
    requires
        i <= SMALL_BUCKET_COUNT,
    ensures
        r == pow2(i as nat),
{
    proof {
        lemma2_to64();
    }
    assert(i == 0 ==> (1usize << i) == 1usize) by (bit_vector);
    assert(i == 1 ==> (1usize << i) == 2usize) by (bit_vector);
    assert(i == 2 ==> (1usize << i) == 4usize) by (bit_vector);
    assert(i == 3 ==> (1usize << i) == 8usize) by (bit_vector);
    assert(i == 4 ==> (1usize << i) == 16usize) by (bit_vector);
    1usize << i
}

/// An eviction that `RoutingTable::insert` leaves to its caller: ping
/// `oldest`; if it does not answer, `complete_insert` replaces it by `entry`
/// in bucket `bucket_id`.
#[derive(Debug, Clone, Copy)]
pub struct PendingEviction {
    pub bucket_id: usize,
    pub oldest: NodeEntry,
    pub entry: NodeEntry,
}

/// The routing table: one k-bucket per possible highest differing bit.
pub struct RoutingTable {
    local_id: U256,
    buckets: Vec<KBucket>,
}

/// What a routing table holds: the local identifier and its buckets.
pub struct RoutingTableView {
    pub local_id: Seq<u8>,
    pub buckets: Seq<KBucketView>,
}

impl View for RoutingTable {
    type V = RoutingTableView;

    closed spec fn view(&self) -> RoutingTableView {
        RoutingTableView {
            local_id: self.local_id@,
            buckets: self.buckets@.map_values(|b: KBucket| b@),
        }
    }
}

/// Every entry of bucket `i` lies at distance `[2^i, 2^(i+1))` from the
/// local identifier.
pub open spec fn entries_placed(t: RoutingTableView, i: int) -> bool {
    forall|k: int|
        0 <= k < t.buckets[i].entries.len() ==> bucket_index(
            t.local_id,
            #[trigger] t.buckets[i].entries[k].id@,
        ) == Some(i)
}

/// The table's invariant: `N_BUCKETS` buckets, each with its capacity,
/// distinct identifiers, at most `capacity` entries, and every entry in the
/// bucket of its distance.
pub open spec fn table_wf(t: RoutingTableView) -> bool {
    &&& t.local_id.len() == 32
    &&& t.buckets.len() == N_BUCKETS
    &&& forall|i: int|
        0 <= i < N_BUCKETS ==> {
            &&& #[trigger] t.buckets[i].capacity == bucket_capacity(i)
            &&& bucket_wf(t.buckets[i])
            &&& entries_placed(t, i)
        }
}

/// What every routing table satisfies, whatever its callers did: the local
/// identifier is 32 bytes and there are `N_BUCKETS` buckets, each with its
/// capacity.
pub open spec fn table_shape(t: RoutingTableView) -> bool {
    &&& t.local_id.len() == 32
    &&& t.buckets.len() == N_BUCKETS
    &&& forall|i: int| 0 <= i < N_BUCKETS ==> #[trigger] t.buckets[i].capacity == bucket_capacity(i)
}

proof fn lemma_update_keeps_shape(t: RoutingTableView, b: int, nb: KBucketView)
    requires
        table_shape(t),
        0 <= b < N_BUCKETS,
        nb.capacity == t.buckets[b].capacity,
    ensures
        table_shape(RoutingTableView { local_id: t.local_id, buckets: t.buckets.update(b, nb) }),
{
    let nt = RoutingTableView { local_id: t.local_id, buckets: t.buckets.update(b, nb) };
    assert forall|i: int| 0 <= i < N_BUCKETS implies #[trigger] nt.buckets[i].capacity
        == bucket_capacity(i) by {
        assert(t.buckets[i].capacity == bucket_capacity(i));
    }
}

/// The table and the result that `insert` yields.
pub open spec fn table_insert(t: RoutingTableView, e: NodeEntry) -> (
    RoutingTableView,
    Result<Option<PendingEviction>, RoutingError>,
) {
    match bucket_index(t.local_id, e.id@) {
        None => (t, Err(RoutingError::SelfNode)),
        Some(b) => {
            let (nb, d) = try_insert_outcome(t.buckets[b], e);
            (
                RoutingTableView { local_id: t.local_id, buckets: t.buckets.update(b, nb) },
                match d {
                    InsertDecision::PingOldest(o) => Ok(
                        Some(PendingEviction { bucket_id: b as usize, oldest: o, entry: e }),
                    ),
                    _ => Ok(None),
                },
            )
        },
    }
}

/// The table and the result that `complete_insert` yields.
pub open spec fn table_complete(t: RoutingTableView, p: PendingEviction, oldest_alive: bool) -> (
    RoutingTableView,
    Result<(), RoutingError>,
) {
    let b = t.buckets[p.bucket_id as int];
    if oldest_alive {
        (t, Ok(()))
    } else if contains_id(b.entries, p.oldest.id@) {
        let nb = KBucketView {
            entries: remove_outcome(b, p.oldest).entries.push(p.entry),
            capacity: b.capacity,
        };
        (RoutingTableView { local_id: t.local_id, buckets: t.buckets.update(p.bucket_id as int, nb) }, Ok(()))
    } else {
        (t, Err(RoutingError::BucketError(BucketError::NodeNotFound)))
    }
}

/// `p` is still what `insert` left: its bucket is full, holds `p.oldest`
/// but not `p.entry`, and is the bucket of `p.entry`.
pub open spec fn eviction_fresh(t: RoutingTableView, p: PendingEviction) -> bool {
    let b = t.buckets[p.bucket_id as int];
    &&& p.bucket_id < t.buckets.len()
    &&& b.entries.len() == b.capacity
    &&& contains_id(b.entries, p.oldest.id@)
    &&& !contains_id(b.entries, p.entry.id@)
    &&& bucket_index(t.local_id, p.entry.id@) == Some(p.bucket_id as int)
}

impl RoutingTable {
    /// An empty table for the node `id`.
    pub fn new_from_id(id: U256) -> (r: RoutingTable)
        ensures
            r@.local_id == id@,
            r@.buckets.len() == N_BUCKETS,
            forall|i: int| 0 <= i < N_BUCKETS ==> (#[trigger] r@.buckets[i]).entries.len() == 0,
            table_shape(r@),
            table_wf(r@),
    {
        let mut buckets: Vec<KBucket> = Vec::with_capacity(N_BUCKETS);
        let mut i: usize = 0;
        while i < N_BUCKETS
            invariant
                0 <= i <= N_BUCKETS,
                buckets@.len() == i,
                forall|j: int|
                    0 <= j < i ==> (#[trigger] buckets@[j])@.entries.len() == 0
                        && buckets@[j]@.capacity == bucket_capacity(j),
            decreases N_BUCKETS - i,
        {
            let size = if i <= SMALL_BUCKET_COUNT {
                small_capacity(i)
            } else {
                KUSIZE
            };
            buckets.push(KBucket::new(size));
            i = i + 1;
        }
        let r = RoutingTable { local_id: id, buckets };
        proof {
            assert forall|i: int| 0 <= i < N_BUCKETS implies {
                &&& #[trigger] r@.buckets[i].capacity == bucket_capacity(i)
                &&& bucket_wf(r@.buckets[i])
                &&& entries_placed(r@, i)
            } by {
                assert(r@.buckets[i] == r.buckets@[i]@);
            }
        }
        r
    }

    /// The bucket for `target`: `None` for the local identifier itself.
    pub fn find_corresponding_bucket(&self, target: &U256) -> (r: Option<usize>)
        ensures
            match r {
                Some(b) => bucket_index(self@.local_id, target@) == Some(b as int) && b < N_BUCKETS,
                None => bucket_index(self@.local_id, target@) is None,
            },
    {
        let distance = self.local_id.xor(target);
        if distance.is_zero() {
            return None;
        }
        let lz = distance.leading_zeros();
        proof {
            lemma_leading_zero_bits_bound(distance@);
        }
        Some(N_BUCKETS - 1 - lz as usize)
    }

    /// The entries of bucket `i`, least recently seen first.
    pub fn bucket_entries(&self, i: usize) -> (r: Vec<NodeEntry>)
        requires
            i < self@.buckets.len(),
        ensures
            r@ == self@.buckets[i as int].entries,
    {
        self.buckets[i].snapshot()
    }

    /// Applies the outcome of pinging `entry`, an entry of bucket `i`: a
    /// round-trip time updates it, no answer evicts it.
    pub fn record_ping(&mut self, i: usize, entry: &NodeEntry, outcome: Option<u64>)
        requires
            table_shape(old(self)@),
            i < N_BUCKETS,
        ensures
            final(self)@.local_id == old(self)@.local_id,
            final(self)@.buckets == old(self)@.buckets.update(
                i as int,
                ping_outcome(old(self)@.buckets[i as int], *entry, outcome),
            ),
            table_shape(final(self)@),
            table_wf(old(self)@) ==> table_wf(final(self)@),
    {
        let ghost t = self@;
        proof {
            assert(t.buckets[i as int] == self.buckets@[i as int]@);
        }
        self.buckets[i].apply_ping_result(entry, outcome);
        proof {
            let nb = ping_outcome(t.buckets[i as int], *entry, outcome);
            assert(self@.buckets =~= t.buckets.update(i as int, nb));
            lemma_update_keeps_shape(t, i as int, nb);
            if table_wf(t) {
                lemma_ping_result_placed(t, i as int, *entry, outcome);
            }
        }
    }

    /// First step of inserting `entry`: refused for the local identifier;
    /// otherwise `try_insert` on its bucket. When that bucket is full, the
    /// eviction is handed back: the caller pings the oldest entry and calls
    /// `complete_insert` with the outcome.
    pub fn insert(&mut self, entry: NodeEntry) -> (r: Result<Option<PendingEviction>, RoutingError>)
        requires
            table_shape(old(self)@),
        ensures
            (final(self)@, r) == table_insert(old(self)@, entry),
            table_shape(final(self)@),
            table_wf(old(self)@) ==> table_wf(final(self)@),
            r matches Ok(Some(p)) ==> eviction_fresh(final(self)@, p),
    {
        let bucket_id = match self.find_corresponding_bucket(&entry.id) {
            Some(bi) => bi,
            None => {
                return Err(RoutingError::SelfNode);
            },
        };
        let ghost t = self@;
        let ghost b = bucket_id as int;
        proof {
            lemma_bucket_capacity_pos(b);
            assert(t.buckets[b] == self.buckets@[b]@);
        }
        let decision = self.buckets[bucket_id].try_insert(entry);
        proof {
            let nb = try_insert_outcome(t.buckets[b], entry).0;
            assert(self@.buckets =~= t.buckets.update(b, nb));
            lemma_update_keeps_shape(t, b, nb);
            if table_wf(t) {
                lemma_try_insert_placed(t, b, entry);
            }
        }
        match decision {
            InsertDecision::PingOldest(oldest) => {
                proof {
                    assert(contains_id(self@.buckets[b].entries, oldest.id@)) by {
                        assert(self@.buckets[b].entries[0] == oldest);
                    }
                }
                Ok(Some(PendingEviction { bucket_id, oldest, entry }))
            },
            InsertDecision::Inserted => Ok(None),
            InsertDecision::Refreshed => Ok(None),
        }
    }

    /// Second step of an insertion that found its bucket full: when the
    /// oldest entry did not answer, it is removed and the new entry
    /// appended; when it answered, nothing changes.
    pub fn complete_insert(&mut self, pending: &PendingEviction, oldest_alive: bool) -> (r: Result<
        (),
        RoutingError,
    >)
        requires
            table_shape(old(self)@),
            pending.bucket_id < N_BUCKETS,
        ensures
            (final(self)@, r) == table_complete(old(self)@, *pending, oldest_alive),
            table_shape(final(self)@),
            table_wf(old(self)@) && eviction_fresh(old(self)@, *pending) ==> table_wf(final(self)@),
    {
        if oldest_alive {
            return Ok(());
        }
        let ghost t = self@;
        let ghost b = pending.bucket_id as int;
        proof {
            assert(t.buckets[b] == self.buckets@[b]@);
        }
        let bucket_id = pending.bucket_id;
        match self.buckets[bucket_id].remove(pending.oldest) {
            Ok(()) => {},
            Err(e) => {
                proof {
                    assert(self@.buckets =~= t.buckets);
                }
                return Err(RoutingError::BucketError(e));
            },
        }
        self.buckets[bucket_id].force_insert(pending.entry);
        proof {
            let nb = KBucketView {
                entries: remove_outcome(t.buckets[b], pending.oldest).entries.push(pending.entry),
                capacity: t.buckets[b].capacity,
            };
            assert(self@.buckets =~= t.buckets.update(b, nb));
            lemma_update_keeps_shape(t, b, nb);
            if table_wf(t) && eviction_fresh(t, *pending) {
                lemma_evict_placed(t, *pending);
            }
        }
        Ok(())
    }
}

proof fn lemma_ping_result_placed(t: RoutingTableView, b: int, e: NodeEntry, outcome: Option<u64>)
    requires
        table_wf(t),
        0 <= b < N_BUCKETS,
        bucket_wf(ping_outcome(t.buckets[b], e, outcome)),
    ensures
        table_wf(
            RoutingTableView {
                local_id: t.local_id,
                buckets: t.buckets.update(b, ping_outcome(t.buckets[b], e, outcome)),
            },
        ),
{
    let old_b = t.buckets[b];
    let s = old_b.entries;
    let nb = ping_outcome(old_b, e, outcome);
    let nt = RoutingTableView { local_id: t.local_id, buckets: t.buckets.update(b, nb) };
    assert(entries_placed(t, b));
    assert forall|k: int| 0 <= k < nb.entries.len() implies bucket_index(
        t.local_id,
        #[trigger] nb.entries[k].id@,
    ) == Some(b) by {
        if contains_id(s, e.id@) {
            let w = choose|w: int| 0 <= w < s.len() && s[w].id@ == e.id@;
            lemma_index_of_id(s, e.id@, w);
            let p = index_of_id(s, e.id@);
            match outcome {
                Some(d) => {
                    assert(nb.entries[k].id == s[k].id);
                },
                None => {
                    if k < p {
                        assert(nb.entries[k] == s[k]);
                    } else {
                        assert(nb.entries[k] == s[k + 1]);
                    }
                },
            }
        }
    }
    assert forall|i: int| 0 <= i < N_BUCKETS implies {
        &&& #[trigger] nt.buckets[i].capacity == bucket_capacity(i)
        &&& bucket_wf(nt.buckets[i])
        &&& entries_placed(nt, i)
    } by {
        assert(t.buckets[i].capacity == bucket_capacity(i));
        if i != b {
            assert(nt.buckets[i] == t.buckets[i]);
            assert(entries_placed(t, i));
        } else {
            assert(nb.capacity == old_b.capacity);
            assert(nt.buckets[b] == nb);
        }
    }
    assert(nt.buckets.len() == N_BUCKETS);
    assert(nt.local_id.len() == 32);
    assert(table_wf(nt));
}

proof fn lemma_bucket_capacity_pos(i: int)
    ensures
        bucket_capacity(i) > 0,
{
    if i <= SMALL_BUCKET_COUNT {
        vstd::arithmetic::power2::lemma_pow2_pos(i as nat);
    }
}

proof fn lemma_try_insert_placed(t: RoutingTableView, b: int, e: NodeEntry)
    requires
        table_wf(t),
        bucket_index(t.local_id, e.id@) == Some(b),
    ensures
        ({
            let nt = RoutingTableView {
                local_id: t.local_id,
                buckets: t.buckets.update(b, try_insert_outcome(t.buckets[b], e).0),
            };
            table_wf(nt)
        }),
{
    let old_b = t.buckets[b];
    let nb = try_insert_outcome(old_b, e).0;
    let nt = RoutingTableView { local_id: t.local_id, buckets: t.buckets.update(b, nb) };
    lemma_leading_zero_bits_bound(xor_bytes(t.local_id, e.id@));
    assert(0 <= b < N_BUCKETS);
    let s = old_b.entries;
    assert forall|k: int| 0 <= k < nb.entries.len() implies bucket_index(
        t.local_id,
        #[trigger] nb.entries[k].id@,
    ) == Some(b) by {
        if contains_id(s, e.id@) {
            let w = choose|w: int| 0 <= w < s.len() && s[w].id@ == e.id@;
            lemma_index_of_id(s, e.id@, w);
            let p = index_of_id(s, e.id@);
            if k < p {
                assert(nb.entries[k] == s[k]);
            } else if k < s.len() - 1 {
                assert(nb.entries[k] == s[k + 1]);
            } else {
                assert(nb.entries[k] == s[p]);
            }
        } else if s.len() != old_b.capacity {
            if k < s.len() {
                assert(nb.entries[k] == s[k]);
            }
        }
    }
    assert forall|i: int| 0 <= i < N_BUCKETS implies {
        &&& #[trigger] nt.buckets[i].capacity == bucket_capacity(i)
        &&& bucket_wf(nt.buckets[i])
        &&& entries_placed(nt, i)
    } by {
        assert(t.buckets[i].capacity == bucket_capacity(i));
        if i != b {
            assert(nt.buckets[i] == t.buckets[i]);
            assert(entries_placed(t, i));
        } else {
            assert(entries_placed(t, b));
            assert(bucket_wf(t.buckets[b]));
            crate::routing::kbucket::lemma_try_insert_wf(old_b, e);
        }
    }
}

proof fn lemma_evict_placed(t: RoutingTableView, p: PendingEviction)
    requires
        table_wf(t),
        eviction_fresh(t, p),
    ensures
        table_wf(table_complete(t, p, false).0),
{
    let b = p.bucket_id as int;
    let old_b = t.buckets[b];
    let s = old_b.entries;
    let q = index_of_id(s, p.oldest.id@);
    let w = choose|w: int| 0 <= w < s.len() && s[w].id@ == p.oldest.id@;
    assert(is_first_with_id(s, p.oldest.id@, w)) by {
        assert forall|j: int| 0 <= j < w implies s[j].id@ != p.oldest.id@ by {
            assert(distinct_ids(s));
        }
    }
    assert(is_first_with_id(s, p.oldest.id@, q));
    let r = s.remove(q);
    let ne = r.push(p.entry);
    let nt = table_complete(t, p, false).0;
    assert(nt.buckets[b].entries == ne);
    assert(distinct_ids(r)) by {
        assert forall|i: int, j: int| 0 <= i < j < r.len() implies r[i].id@ != r[j].id@ by {
            let i0 = if i < q { i } else { i + 1 };
            let j0 = if j < q { j } else { j + 1 };
            assert(r[i] == s[i0] && r[j] == s[j0]);
        }
    }
    assert(distinct_ids(ne)) by {
        assert forall|i: int, j: int| 0 <= i < j < ne.len() implies ne[i].id@ != ne[j].id@ by {
            if j == r.len() {
                let i0 = if i < q { i } else { i + 1 };
                assert(ne[i] == s[i0]);
            } else {
                assert(ne[i] == r[i] && ne[j] == r[j]);
            }
        }
    }
    assert forall|k: int| 0 <= k < ne.len() implies bucket_index(
        t.local_id,
        #[trigger] ne[k].id@,
    ) == Some(b) by {
        assert(entries_placed(t, b));
        if k < r.len() {
            let k0 = if k < q { k } else { k + 1 };
            assert(ne[k] == s[k0]);
        }
    }
    assert forall|i: int| 0 <= i < N_BUCKETS implies {
        &&& #[trigger] nt.buckets[i].capacity == bucket_capacity(i)
        &&& bucket_wf(nt.buckets[i])
        &&& entries_placed(nt, i)
    } by {
        assert(t.buckets[i].capacity == bucket_capacity(i));
        if i != b {
            assert(nt.buckets[i] == t.buckets[i]);
            assert(entries_placed(t, i));
        }
    }
}

/// Bucket `i` is for the identifiers whose XOR distance to the local one
/// lies in `[2^i, 2^(i+1))`; the local identifier itself, at distance zero,
/// has no bucket.
pub proof fn lemma_bucket_index_distance(local: Seq<u8>, target: Seq<u8>)
    requires
        local.len() == 32,
        target.len() == 32,
    ensures
        match bucket_index(local, target) {
            Some(i) => {
                &&& 0 <= i < N_BUCKETS
                &&& pow2(i as nat) <= be_value(xor_bytes(local, target))
                &&& be_value(xor_bytes(local, target)) < pow2((i + 1) as nat)
            },
            None => local == target && be_value(xor_bytes(local, target)) == 0,
        },
{
    let d = xor_bytes(local, target);
    lemma_xor_zero(local, target);
    lemma_be_value_zero(d);
    if !is_zero_bytes(d) {
        lemma_be_value_leading_zeros(d);
    }
}

/// The bucket relation is symmetric: `b` lies in `a`'s bucket `i` exactly
/// when `a` lies in `b`'s bucket `i`.
pub proof fn lemma_bucket_index_symmetric(a: Seq<u8>, b: Seq<u8>)
    requires
        a.len() == b.len(),
    ensures
        bucket_index(a, b) == bucket_index(b, a),
{
    lemma_xor_symmetric(a, b);
}

proof fn lemma_insert_fresh(t: RoutingTableView, e: NodeEntry)
    requires
        table_wf(t),
    ensures
        table_insert(t, e).1 matches Ok(Some(p)) ==> eviction_fresh(table_insert(t, e).0, p),
{
    if let Some(b) = bucket_index(t.local_id, e.id@) {
        lemma_leading_zero_bits_bound(xor_bytes(t.local_id, e.id@));
        lemma_bucket_capacity_pos(b);
        assert(t.buckets[b].capacity == bucket_capacity(b));
        let old_b = t.buckets[b];
        if !contains_id(old_b.entries, e.id@) && old_b.entries.len() == old_b.capacity {
            assert(contains_id(old_b.entries, old_b.entries[0].id@));
        }
    }
}

/// Inserting keeps the table's invariant, and so does completing the
/// eviction it hands back, whether the oldest entry answered or not. An
/// entry that was not handed back for eviction is in its bucket afterwards.
pub proof fn lemma_insert_keeps_wf(t: RoutingTableView, e: NodeEntry, oldest_alive: bool)
    requires
        table_wf(t),
    ensures
        table_wf(table_insert(t, e).0),
        table_insert(t, e).1 matches Ok(Some(p)) ==> table_wf(
            table_complete(table_insert(t, e).0, p, oldest_alive).0,
        ),
        table_insert(t, e).1 == Ok::<Option<PendingEviction>, RoutingError>(None) ==> contains_id(
            table_insert(t, e).0.buckets[bucket_index(t.local_id, e.id@)->0].entries,
            e.id@,
        ),
{
    if let Some(b) = bucket_index(t.local_id, e.id@) {
        lemma_try_insert_placed(t, b, e);
        lemma_insert_fresh(t, e);
        let t1 = table_insert(t, e).0;
        if let Ok(Some(p)) = table_insert(t, e).1 {
            if !oldest_alive {
                lemma_evict_placed(t1, p);
            }
        }
        lemma_leading_zero_bits_bound(xor_bytes(t.local_id, e.id@));
        let old_b = t.buckets[b];
        let s = old_b.entries;
        if contains_id(s, e.id@) {
            let w = choose|w: int| 0 <= w < s.len() && s[w].id@ == e.id@;
            lemma_index_of_id(s, e.id@, w);
            let q = index_of_id(s, e.id@);
            let ne = t1.buckets[b].entries;
            assert(ne[ne.len() - 1] == s[q]);
        } else if s.len() != old_b.capacity {
            let ne = t1.buckets[b].entries;
            assert(ne[ne.len() - 1] == e);
        }
    }
}

} // verus!
