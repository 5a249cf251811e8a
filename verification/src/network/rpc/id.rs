use vstd::prelude::*;
use vstd::set_lib::lemma_len_subset;
use vstd::std_specs::iter::IteratorSpec;
use std::collections::HashMap;
use crate::network::rpc::message::{TransactionId, read_be32};
use crate::utils::rng::random_fill;

verus! {

broadcast use vstd::std_specs::hash::group_hash_axioms;

/// How long a transaction id stays reserved, in nanoseconds.
pub const TRANSACTION_TIMEOUT_NANOS: u64 = 60_000_000_000;

/// How many random ids `new_tid` draws before it takes the lowest free one.
pub const MAX_RANDOM_ATTEMPTS: usize = 64;

/// The number that keys a transaction id in the registry: its four bytes,
/// most significant first.
pub open spec fn tid_key(id: Seq<u8>) -> u32 {
    read_be32(id, 0) as u32
}

/// Time from `created` to `now`; zero when `created` is later.
pub open spec fn elapsed(now: u64, created: u64) -> nat {
    if now >= created {
        (now - created) as nat
    } else {
        0
    }
}

/// A reservation made at `created` has run out at `now`.
pub open spec fn expired(now: u64, created: u64) -> bool {
    elapsed(now, created) >= TRANSACTION_TIMEOUT_NANOS
}

/// The transaction ids in use, each with the time it was issued at.
pub struct TransactionIds {
    map: HashMap<u32, u64>,
}

impl View for TransactionIds {
    type V = Map<u32, u64>;

    closed spec fn view(&self) -> Map<u32, u64> {
        self.map@
    }
}

fn key_of(id: &TransactionId) -> (r: u32)
    ensures
        r == tid_key(id@),
{
    (id[0] as u32) * 0x100_0000 + (id[1] as u32) * 0x1_0000 + (id[2] as u32) * 256 + (id[3] as u32)
}

fn id_of(key: u32) -> (r: TransactionId)
    ensures
        tid_key(r@) == key,
{
    let id: TransactionId = [
        (key / 0x100_0000) as u8,
        ((key / 0x1_0000) % 256) as u8,
        ((key / 256) % 256) as u8,
        (key % 256) as u8,
    ];
    assert(((key / 0x100_0000) as u8) as u32 * 0x100_0000u32 + (((key / 0x1_0000) % 256) as u8) as u32
        * 0x1_0000u32 + (((key / 256) % 256) as u8) as u32 * 256u32 + ((key % 256) as u8) as u32
        == key) by (bit_vector);
    id
}

impl TransactionIds {
    /// Number of ids in use.
    pub fn len(&self) -> (r: usize)
        ensures
            r == self@.len(),
    {
        self.map.len()
    }
}

/// An empty registry: the state the node's registry starts in.
pub fn ids() -> (r: TransactionIds)
    ensures
        r@ == Map::<u32, u64>::empty(),
{
    TransactionIds { map: HashMap::new() }
}

/// Four random bytes.
pub fn generate_id() -> TransactionId {
    let mut id = [0u8; 4];
    random_fill(&mut id);
    id
}

/// Issues a transaction id that is not in use and records it as issued at
/// `now`. Ids are drawn at random; after `MAX_RANDOM_ATTEMPTS` draws that
/// all hit ids in use, the lowest free id is taken.
pub fn new_tid(ids: &mut TransactionIds, now: u64) -> (r: TransactionId)
    requires
        old(ids)@.len() < 0x1_0000_0000,
    ensures
        !old(ids)@.contains_key(tid_key(r@)),
        final(ids)@ == old(ids)@.insert(tid_key(r@), now),
{
    let mut attempts: usize = 0;
    while attempts < MAX_RANDOM_ATTEMPTS
        invariant
            ids@ == old(ids)@,
        decreases MAX_RANDOM_ATTEMPTS - attempts,
    {
        let id = generate_id();
        let key = key_of(&id);
        if !ids.map.contains_key(&key) {
            ids.map.insert(key, now);
            return id;
        }
        attempts = attempts + 1;
    }
    let n = ids.map.len();
    let mut k: u64 = 0;
    let ghost mut seen: Set<u32> = Set::empty();
    while k <= n as u64
        invariant
            ids@ == old(ids)@,
            n == ids@.len(),
            n < 0x1_0000_0000,
            k <= n + 1,
            seen.finite(),
            seen.len() == k,
            forall|x: u32| seen.contains(x) <==> x < k,
            forall|x: u32| seen.contains(x) ==> ids@.contains_key(x),
        decreases n + 1 - k,
    {
        let key = k as u32;
        if !ids.map.contains_key(&key) {
            ids.map.insert(key, now);
            return id_of(key);
        }
        proof {
            assert(!seen.contains(key));
            seen = seen.insert(key);
        }
        k = k + 1;
    }
    proof {
        assert(seen.subset_of(ids@.dom()));
        lemma_len_subset(seen, ids@.dom());
        assert(false);
    }
    id_of(0)
}

/// Releases `id`; whether it was in use.
pub fn remove_tid(ids: &mut TransactionIds, id: &TransactionId) -> (r: bool)
    ensures
        r == old(ids)@.contains_key(tid_key(id@)),
        final(ids)@ == old(ids)@.remove(tid_key(id@)),
{
    let key = key_of(id);
    ids.map.remove(&key).is_some()
}

/// The reservations that are still live at `now`.
pub open spec fn live_at(m: Map<u32, u64>, now: u64) -> Map<u32, u64> {
    m.restrict(m.dom().filter(|k: u32| !expired(now, m[k])))
}

/// Drops every reservation that has run out at `now`.
pub fn cleanup_expired(ids: &mut TransactionIds, now: u64)
    ensures
        final(ids)@ == live_at(old(ids)@, now),
{
    let mut stale: Vec<u32> = Vec::new();
    let ghost pairs = vstd::std_specs::hash::spec_hash_map_iter(&ids.map).remaining();
    let ghost mut seen: int = 0;
    for entry in it: ids.map.iter()
        invariant
            ids@ == old(ids)@,
            it.seq() == pairs,
            seen == it.index(),
            forall|j: int| 0 <= j < stale@.len() ==> {
                &&& ids@.contains_key(#[trigger] stale@[j])
                &&& expired(now, ids@[stale@[j]])
            },
            forall|j: int|
                0 <= j < it.index() ==> expired(now, *(#[trigger] pairs[j]).1) ==> stale@.contains(
                    *pairs[j].0,
                ),
    {
        let (key, created) = entry;
        assert(entry == pairs[seen]);
        let timed_out = if now >= *created {
            now - *created >= TRANSACTION_TIMEOUT_NANOS
        } else {
            false
        };
        let ghost before = stale@;
        if timed_out {
            stale.push(*key);
        }
        proof {
            assert forall|j: int|
                0 <= j < seen + 1 && expired(now, *(#[trigger] pairs[j]).1) implies stale@.contains(
                    *pairs[j].0,
                ) by {
                if j < seen {
                    let w = choose|w: int| 0 <= w < before.len() && before[w] == *pairs[j].0;
                    assert(stale@[w] == before[w]);
                } else {
                    assert(stale@[stale@.len() - 1] == *key);
                }
            }
            seen = seen + 1;
        }
    }
    assert(seen == pairs.len());
    assert forall|k: u32| old(ids)@.contains_key(k) && expired(now, old(ids)@[k]) implies stale@.contains(k) by {
        assert(pairs.contains((&k, &old(ids)@[k])));
    }
    let n = stale.len();
    let mut i: usize = 0;
    while i < n
        invariant
            0 <= i <= n,
            n == stale@.len(),
            forall|j: int| 0 <= j < n ==> {
                &&& old(ids)@.contains_key(#[trigger] stale@[j])
                &&& expired(now, old(ids)@[stale@[j]])
            },
            forall|k: u32| old(ids)@.contains_key(k) && expired(now, old(ids)@[k]) ==> stale@.contains(k),
            forall|k: u32|
                ids@.contains_key(k) <==> (old(ids)@.contains_key(k) && !(exists|j: int|
                    0 <= j < i && stale@[j] == k)),
            forall|k: u32| #[trigger] ids@.contains_key(k) ==> ids@[k] == old(ids)@[k],
        decreases n - i,
    {
        let key = stale[i];
        ids.map.remove(&key);
        i = i + 1;
    }
    assert(ids@ =~= live_at(old(ids)@, now));
}

/// Distinct transaction ids have distinct keys, so the registry, keyed by
/// `tid_key`, tells ids apart.
pub proof fn lemma_tid_key_injective(a: TransactionId, b: TransactionId)
    ensures
        tid_key(a@) == tid_key(b@) ==> a@ == b@,
{
    if tid_key(a@) == tid_key(b@) {
        let (a0, a1, a2, a3) = (a@[0], a@[1], a@[2], a@[3]);
        let (b0, b1, b2, b3) = (b@[0], b@[1], b@[2], b@[3]);
        assert(a0 as u32 * 0x100_0000u32 + a1 as u32 * 0x1_0000u32 + a2 as u32 * 256u32 + a3 as u32
            == b0 as u32 * 0x100_0000u32 + b1 as u32 * 0x1_0000u32 + b2 as u32 * 256u32 + b3 as u32
            ==> a0 == b0 && a1 == b1 && a2 == b2 && a3 == b3) by (bit_vector);
        assert(a@ =~= b@);
    }
}

/// Releasing an id right after it was issued finds it in use and gives the
/// registry back as it was before the issue.
pub proof fn lemma_remove_undoes_new(m: Map<u32, u64>, id: TransactionId, now: u64)
    requires
        !m.contains_key(tid_key(id@)),
    ensures
        m.insert(tid_key(id@), now).contains_key(tid_key(id@)),
        m.insert(tid_key(id@), now).remove(tid_key(id@)) == m,
{
    assert(m.insert(tid_key(id@), now).remove(tid_key(id@)) =~= m);
}

} // verus!
