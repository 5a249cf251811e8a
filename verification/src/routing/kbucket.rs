use vstd::prelude::*;
use std::collections::VecDeque;
use crate::primitives::U256;
use crate::routing::entry::NodeEntry;
use crate::routing::errors::BucketError;

verus! {

/// What `KBucket::try_insert` decided.
#[derive(Debug, Clone, Copy)]
pub enum InsertDecision {
    /// The entry was appended.
    Inserted,
    /// The bucket is full and the entry is new: the caller should ping the
    /// least recently seen entry, carried here, and evict it if it is dead.
    PingOldest(NodeEntry),
    /// The entry was known and moved to the most recently seen end.
    Refreshed,
}

/// A bucket of peers, least recently seen first.
pub struct KBucket {
    entries: VecDeque<NodeEntry>,
    capacity: usize,
}

/// What a bucket holds: its entries, least recently seen first, and its
/// capacity.
pub struct KBucketView {
    pub entries: Seq<NodeEntry>,
    pub capacity: nat,
}

impl View for KBucket {
    type V = KBucketView;

    closed spec fn view(&self) -> KBucketView {
        KBucketView { entries: self.entries@, capacity: self.capacity as nat }
    }
}

/// `p` is the first position of an entry with identifier `id`.
pub open spec fn is_first_with_id(s: Seq<NodeEntry>, id: Seq<u8>, p: int) -> bool {
    &&& 0 <= p < s.len()
    &&& s[p].id@ == id
    &&& forall|j: int| 0 <= j < p ==> s[j].id@ != id
}

/// Some entry has identifier `id`.
pub open spec fn contains_id(s: Seq<NodeEntry>, id: Seq<u8>) -> bool {
    exists|p: int| 0 <= p < s.len() && s[p].id@ == id
}

/// The first position of an entry with identifier `id` (meaningful where
/// `contains_id(s, id)`).
pub open spec fn index_of_id(s: Seq<NodeEntry>, id: Seq<u8>) -> int {
    choose|p: int| is_first_with_id(s, id, p)
}

/// No two entries share an identifier.
pub open spec fn distinct_ids(s: Seq<NodeEntry>) -> bool {
    forall|i: int, j: int| 0 <= i < j < s.len() ==> s[i].id@ != s[j].id@
}

/// The bucket's invariant as the routing table keeps it: identifiers are
/// distinct and the bucket holds at most `capacity` entries.
pub open spec fn bucket_wf(b: KBucketView) -> bool {
    &&& distinct_ids(b.entries)
    &&& b.entries.len() <= b.capacity
}

/// The entries after the entry at `p` moved to the most recently seen end.
pub open spec fn move_to_back(s: Seq<NodeEntry>, p: int) -> Seq<NodeEntry> {
    s.remove(p).push(s[p])
}

/// The bucket and the decision that `try_insert` yields.
pub open spec fn try_insert_outcome(b: KBucketView, e: NodeEntry) -> (KBucketView, InsertDecision) {
    if contains_id(b.entries, e.id@) {
        (
            KBucketView {
                entries: move_to_back(b.entries, index_of_id(b.entries, e.id@)),
                capacity: b.capacity,
            },
            InsertDecision::Refreshed,
        )
    } else if b.entries.len() != b.capacity {
        (KBucketView { entries: b.entries.push(e), capacity: b.capacity }, InsertDecision::Inserted)
    } else {
        (b, InsertDecision::PingOldest(b.entries[0]))
    }
}

/// The bucket after the entry with `e`'s identifier was removed, if any.
pub open spec fn remove_outcome(b: KBucketView, e: NodeEntry) -> KBucketView {
    if contains_id(b.entries, e.id@) {
        KBucketView { entries: b.entries.remove(index_of_id(b.entries, e.id@)), capacity: b.capacity }
    } else {
        b
    }
}

/// The bucket after the round-trip time of the entry with `e`'s identifier
/// became `duration`, if there is such an entry.
pub open spec fn update_outcome(b: KBucketView, e: NodeEntry, duration: u64) -> KBucketView {
    if contains_id(b.entries, e.id@) {
        let p = index_of_id(b.entries, e.id@);
        KBucketView {
            entries: b.entries.update(p, NodeEntry { respond_time: duration, ..b.entries[p] }),
            capacity: b.capacity,
        }
    } else {
        b
    }
}

/// Where some entry has identifier `id`, `index_of_id` is the first one.
pub proof fn lemma_index_of_id(s: Seq<NodeEntry>, id: Seq<u8>, w: int)
    requires
        0 <= w < s.len(),
        s[w].id@ == id,
    ensures
        is_first_with_id(s, id, index_of_id(s, id)),
    decreases w,
{
    if exists|j: int| 0 <= j < w && s[j].id@ == id {
        let j = choose|j: int| 0 <= j < w && s[j].id@ == id;
        lemma_index_of_id(s, id, j);
    } else {
        assert(is_first_with_id(s, id, w));
    }
}

/// `try_insert` keeps a bucket's invariant.
pub proof fn lemma_try_insert_wf(b: KBucketView, e: NodeEntry)
    requires
        bucket_wf(b),
    ensures
        bucket_wf(try_insert_outcome(b, e).0),
        try_insert_outcome(b, e).0.capacity == b.capacity,
{
    let s = b.entries;
    if contains_id(s, e.id@) {
        let w = choose|w: int| 0 <= w < s.len() && s[w].id@ == e.id@;
        lemma_index_of_id(s, e.id@, w);
        let p = index_of_id(s, e.id@);
        lemma_distinct_remove(s, p);
        lemma_distinct_push(s.remove(p), s[p]);
    } else if s.len() != b.capacity {
        lemma_distinct_push(s, e);
    }
}

/// The bucket after the outcome of pinging `e`: a round-trip time updates
/// the entry, no answer removes it.
pub open spec fn ping_outcome(b: KBucketView, e: NodeEntry, outcome: Option<u64>) -> KBucketView {
    match outcome {
        Some(d) => update_outcome(b, e, d),
        None => remove_outcome(b, e),
    }
}

proof fn lemma_first_is_index_of(s: Seq<NodeEntry>, id: Seq<u8>, p: int)
    requires
        is_first_with_id(s, id, p),
    ensures
        contains_id(s, id),
        index_of_id(s, id) == p,
{
    let q = index_of_id(s, id);
    assert(is_first_with_id(s, id, q));
    if q < p {
        assert(s[q].id@ != id);
    } else if p < q {
        assert(s[p].id@ != id);
    }
}

proof fn lemma_distinct_remove(s: Seq<NodeEntry>, p: int)
    requires
        distinct_ids(s),
        0 <= p < s.len(),
    ensures
        distinct_ids(s.remove(p)),
        !contains_id(s.remove(p), s[p].id@),
{
    let r = s.remove(p);
    assert forall|i: int, j: int| 0 <= i < j < r.len() implies r[i].id@ != r[j].id@ by {
        let i0 = if i < p { i } else { i + 1 };
        let j0 = if j < p { j } else { j + 1 };
        assert(r[i] == s[i0] && r[j] == s[j0]);
    }
    assert forall|k: int| 0 <= k < r.len() implies r[k].id@ != s[p].id@ by {
        let k0 = if k < p { k } else { k + 1 };
        assert(r[k] == s[k0]);
    }
}

proof fn lemma_distinct_push(s: Seq<NodeEntry>, e: NodeEntry)
    requires
        distinct_ids(s),
        !contains_id(s, e.id@),
    ensures
        distinct_ids(s.push(e)),
{
    let t = s.push(e);
    assert forall|i: int, j: int| 0 <= i < j < t.len() implies t[i].id@ != t[j].id@ by {
        if j == s.len() {
            assert(t[i] == s[i]);
        } else {
            assert(t[i] == s[i] && t[j] == s[j]);
        }
    }
}

// ---------------------------------------------------------------------------
// Laws of the least-recently-seen rule
// ---------------------------------------------------------------------------

/// A peer seen again moves to the most recently seen end: the result ends
/// with the entry that held its identifier, and the other entries keep
/// their order.
pub proof fn lemma_refresh_moves_seen_peer(b: KBucketView, e: NodeEntry, p: int)
    requires
        0 <= p < b.entries.len(),
        b.entries[p].id@ == e.id@,
        forall|j: int| 0 <= j < p ==> b.entries[j].id@ != e.id@,
    ensures
        try_insert_outcome(b, e).1 is Refreshed,
        try_insert_outcome(b, e).0.capacity == b.capacity,
        try_insert_outcome(b, e).0.entries.len() == b.entries.len(),
        try_insert_outcome(b, e).0.entries.last() == b.entries[p],
        try_insert_outcome(b, e).0.entries.last().id@ == e.id@,
        try_insert_outcome(b, e).0.entries.drop_last() == b.entries.remove(p),
{
    lemma_first_is_index_of(b.entries, e.id@, p);
    let ne = try_insert_outcome(b, e).0.entries;
    assert(ne.drop_last() =~= b.entries.remove(p));
}

/// A new peer is appended while there is room, and a full bucket is left
/// as it is and names its least recently seen entry.
pub proof fn lemma_new_peer(b: KBucketView, e: NodeEntry)
    requires
        forall|j: int| 0 <= j < b.entries.len() ==> b.entries[j].id@ != e.id@,
    ensures
        b.entries.len() != b.capacity ==> try_insert_outcome(b, e).1 is Inserted
            && try_insert_outcome(b, e).0.entries.len() == b.entries.len() + 1
            && try_insert_outcome(b, e).0.entries.last() == e
            && try_insert_outcome(b, e).0.entries.drop_last() == b.entries,
        b.entries.len() == b.capacity ==> try_insert_outcome(b, e).0 == b
            && try_insert_outcome(b, e).1 == InsertDecision::PingOldest(b.entries[0]),
{
    if b.entries.len() != b.capacity {
        assert(try_insert_outcome(b, e).0.entries.drop_last() =~= b.entries);
    }
}

/// A peer that did not answer is gone afterwards, every other peer is kept,
/// and nothing else comes in.
pub proof fn lemma_failed_ping_evicts(b: KBucketView, e: NodeEntry)
    requires
        distinct_ids(b.entries),
    ensures
        !contains_id(ping_outcome(b, e, None).entries, e.id@),
        forall|k: int|
            0 <= k < b.entries.len() && b.entries[k].id@ != e.id@ ==> ping_outcome(
                b,
                e,
                None,
            ).entries.contains(#[trigger] b.entries[k]),
        forall|x: NodeEntry|
            #[trigger] ping_outcome(b, e, None).entries.contains(x) ==> b.entries.contains(x),
        ping_outcome(b, e, None).capacity == b.capacity,
{
    let s = b.entries;
    let ne = ping_outcome(b, e, None).entries;
    if contains_id(s, e.id@) {
        let w = choose|w: int| 0 <= w < s.len() && s[w].id@ == e.id@;
        lemma_index_of_id(s, e.id@, w);
        let p = index_of_id(s, e.id@);
        assert(ne == s.remove(p));
        assert forall|q: int| 0 <= q < ne.len() implies ne[q].id@ != e.id@ by {
            let q0 = if q < p { q } else { q + 1 };
            assert(ne[q] == s[q0]);
        }
        assert forall|k: int| 0 <= k < s.len() && s[k].id@ != e.id@ implies ne.contains(
            #[trigger] s[k],
        ) by {
            if k < p {
                assert(ne[k] == s[k]);
            } else {
                assert(k != p);
                assert(ne[k - 1] == s[k]);
            }
        }
        assert forall|x: NodeEntry| #[trigger] ne.contains(x) implies s.contains(x) by {
            let q = choose|q: int| 0 <= q < ne.len() && ne[q] == x;
            let q0 = if q < p { q } else { q + 1 };
            assert(s[q0] == x);
        }
    } else {
        assert forall|k: int| 0 <= k < s.len() && s[k].id@ != e.id@ implies ne.contains(
            #[trigger] s[k],
        ) by {
            assert(ne[k] == s[k]);
        }
    }
}

/// A peer that answered gets its round-trip time recorded; every other
/// entry, and the order, stay as they were.
pub proof fn lemma_answered_ping_records(b: KBucketView, e: NodeEntry, d: u64)
    requires
        distinct_ids(b.entries),
    ensures
        ping_outcome(b, e, Some(d)).entries.len() == b.entries.len(),
        ping_outcome(b, e, Some(d)).capacity == b.capacity,
        forall|k: int|
            0 <= k < b.entries.len() && b.entries[k].id@ == e.id@ ==> #[trigger] ping_outcome(
                b,
                e,
                Some(d),
            ).entries[k] == (NodeEntry { respond_time: d, ..b.entries[k] }),
        forall|k: int|
            0 <= k < b.entries.len() && b.entries[k].id@ != e.id@ ==> #[trigger] ping_outcome(
                b,
                e,
                Some(d),
            ).entries[k] == b.entries[k],
{
    let s = b.entries;
    if contains_id(s, e.id@) {
        let w = choose|w: int| 0 <= w < s.len() && s[w].id@ == e.id@;
        lemma_index_of_id(s, e.id@, w);
        let p = index_of_id(s, e.id@);
        assert forall|k: int| 0 <= k < s.len() && s[k].id@ == e.id@ implies k == p by {}
    }
}

impl KBucket {
    /// An empty bucket that holds up to `capacity` entries.
    pub fn new(capacity: usize) -> (r: KBucket)
        ensures
            r@.entries == Seq::<NodeEntry>::empty(),
            r@.capacity == capacity,
    {
        KBucket { entries: VecDeque::with_capacity(capacity), capacity }
    }

    /// The bucket holds exactly `capacity` entries.
    pub fn is_full(&self) -> (r: bool)
        ensures
            r == (self@.entries.len() == self@.capacity),
    {
        self.entries.len() == self.capacity
    }

    /// Number of entries.
    pub fn len(&self) -> (r: usize)
        ensures
            r == self@.entries.len(),
    {
        self.entries.len()
    }

    /// Capacity of the bucket.
    pub fn capacity(&self) -> (r: usize)
        ensures
            r == self@.capacity,
    {
        self.capacity
    }

    /// First position of an entry with identifier `id`.
    fn position(&self, id: &U256) -> (r: Option<usize>)
        ensures
            match r {
                Some(p) => is_first_with_id(self@.entries, id@, p as int),
                None => !contains_id(self@.entries, id@),
            },
    {
        let n = self.entries.len();
        let mut i: usize = 0;
        while i < n
            invariant
                0 <= i <= n,
                n == self@.entries.len(),
                forall|j: int| 0 <= j < i ==> self@.entries[j].id@ != id@,
            decreases n - i,
        {
            if self.entries[i].id.equals(id) {
                return Some(i);
            }
            i = i + 1;
        }
        None
    }

    /// Inserts `entry` by the least-recently-seen rule: a known entry moves
    /// to the back, a new one is appended while there is room, and a full
    /// bucket is left as it is and names its oldest entry.
    pub fn try_insert(&mut self, entry: NodeEntry) -> (r: InsertDecision)
        requires
            old(self)@.capacity > 0 || old(self)@.entries.len() > 0,
        ensures
            (final(self)@, r) == try_insert_outcome(old(self)@, entry),
            bucket_wf(old(self)@) ==> bucket_wf(final(self)@),
    {
        if let Some(position) = self.position(&entry.id) {
            let ghost s = self@.entries;
            let ne = self.entries.remove(position).unwrap();
            self.entries.push_back(ne);
            proof {
                lemma_first_is_index_of(s, entry.id@, position as int);
                assert(self@.entries =~= move_to_back(s, position as int));
                if bucket_wf(old(self)@) {
                    lemma_distinct_remove(s, position as int);
                    lemma_distinct_push(s.remove(position as int), s[position as int]);
                }
            }
            return InsertDecision::Refreshed;
        }
        if !self.is_full() {
            self.entries.push_back(entry);
            proof {
                if bucket_wf(old(self)@) {
                    lemma_distinct_push(old(self)@.entries, entry);
                }
            }
            InsertDecision::Inserted
        } else {
            InsertDecision::PingOldest(self.entries[0])
        }
    }

    /// Appends `entry` without any check.
    pub fn force_insert(&mut self, entry: NodeEntry)
        ensures
            final(self)@.entries == old(self)@.entries.push(entry),
            final(self)@.capacity == old(self)@.capacity,
            bucket_wf(old(self)@) && !contains_id(old(self)@.entries, entry.id@)
                && old(self)@.entries.len() < old(self)@.capacity ==> bucket_wf(final(self)@),
    {
        self.entries.push_back(entry);
        proof {
            if bucket_wf(old(self)@) && !contains_id(old(self)@.entries, entry.id@) {
                lemma_distinct_push(old(self)@.entries, entry);
            }
        }
    }

    /// Removes the entry with `entry`'s identifier.
    pub fn remove(&mut self, entry: NodeEntry) -> (r: Result<(), BucketError>)
        ensures
            r is Ok <==> contains_id(old(self)@.entries, entry.id@),
            r is Err ==> r == Err::<(), BucketError>(BucketError::NodeNotFound),
            final(self)@ == remove_outcome(old(self)@, entry),
            bucket_wf(old(self)@) ==> bucket_wf(final(self)@),
    {
        if let Some(position) = self.position(&entry.id) {
            let ghost s = self@.entries;
            self.entries.remove(position).unwrap();
            proof {
                lemma_first_is_index_of(s, entry.id@, position as int);
                if bucket_wf(old(self)@) {
                    lemma_distinct_remove(s, position as int);
                }
            }
            Ok(())
        } else {
            Err(BucketError::NodeNotFound)
        }
    }

    /// The entries, least recently seen first.
    pub fn snapshot(&self) -> (r: Vec<NodeEntry>)
        ensures
            r@ == self@.entries,
    {
        let n = self.entries.len();
        let mut out: Vec<NodeEntry> = Vec::with_capacity(n);
        let mut i: usize = 0;
        while i < n
            invariant
                0 <= i <= n,
                n == self@.entries.len(),
                out@ == self@.entries.subrange(0, i as int),
            decreases n - i,
        {
            out.push(self.entries[i]);
            i = i + 1;
            assert(out@ =~= self@.entries.subrange(0, i as int));
        }
        assert(self@.entries.subrange(0, n as int) =~= self@.entries);
        out
    }

    /// Sets the round-trip time of the entry with `entry`'s identifier.
    pub fn update_entry_respond_time(&mut self, entry: &NodeEntry, duration: u64)
        ensures
            final(self)@ == update_outcome(old(self)@, *entry, duration),
            bucket_wf(old(self)@) ==> bucket_wf(final(self)@),
    {
        if let Some(position) = self.position(&entry.id) {
            let ghost s = self@.entries;
            let mut found = self.entries.remove(position).unwrap();
            found.update_respond_time(duration);
            self.entries.insert(position, found);
            proof {
                lemma_first_is_index_of(s, entry.id@, position as int);
                assert(self@.entries =~= s.update(
                    position as int,
                    NodeEntry { respond_time: duration, ..s[position as int] },
                ));
                if bucket_wf(old(self)@) {
                    let t = self@.entries;
                    assert forall|i: int, j: int| 0 <= i < j < t.len() implies t[i].id@
                        != t[j].id@ by {
                        assert(t[i].id == s[i].id && t[j].id == s[j].id);
                    }
                }
            }
        }
    }

    /// Applies the outcome of pinging `entry`: a round-trip time updates
    /// the entry, no answer removes it.
    pub fn apply_ping_result(&mut self, entry: &NodeEntry, outcome: Option<u64>)
        ensures
            final(self)@ == ping_outcome(old(self)@, *entry, outcome),
            bucket_wf(old(self)@) ==> bucket_wf(final(self)@),
    {
        match outcome {
            Some(respond_time) => self.update_entry_respond_time(entry, respond_time),
            None => {
                let _ = self.remove(*entry);
            },
        }
    }
}

} // verus!
