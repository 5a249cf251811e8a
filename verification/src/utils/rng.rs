use vstd::prelude::*;
use std::collections::hash_map::RandomState;
use std::hash::BuildHasher;

verus! {

/// Calls `std::collections::hash_map::RandomState::new`, which draws fresh
/// random SipHash keys. Nothing is claimed of the result.
#[verifier::external_body]
fn fresh_random_state() -> RandomState {
    RandomState::new()
}

/// Calls `std::hash::BuildHasher::hash_one` on `state`: the keyed hash of
/// `counter`. Nothing is claimed of the result, which depends on the random
/// keys of `state`.
#[verifier::external_body]
fn random_word(state: &RandomState, counter: u64) -> u64 {
    state.hash_one(counter)
}

/// Byte `i % 8` of word `i / 8`, least significant byte first, for the
/// first `n` positions.
pub open spec fn word_bytes(words: Seq<u64>, n: nat) -> Seq<u8> {
    Seq::new(n, |i: int| (words[i / 8] >> (8 * (i % 8)) as u64) as u8)
}

/// Spreads `words` over `n` bytes: byte `i` is byte `i % 8` of word
/// `i / 8`, least significant byte first.
pub fn bytes_from_words(words: &Vec<u64>, n: usize) -> (r: Vec<u8>)
    requires
        n <= 8 * words@.len(),
    ensures
        r@ == word_bytes(words@, n as nat),
{
    let mut out: Vec<u8> = Vec::with_capacity(n);
    let mut i: usize = 0;
    while i < n
        invariant
            0 <= i <= n,
            n <= 8 * words@.len(),
            out@.len() == i,
            forall|j: int| 0 <= j < i ==> out@[j] == (words@[j / 8] >> (8 * (j % 8)) as u64) as u8,
        decreases n - i,
    {
        let word = words[i / 8];
        let shift = (8 * (i % 8)) as u64;
        out.push(#[verifier::truncate] ((word >> shift) as u8));
        i = i + 1;
    }
    assert(out@ =~= word_bytes(words@, n as nat));
    out
}

/// Overwrites `buffer` with random bytes: `buffer.len()` bytes spread, by
/// `bytes_from_words`, over words drawn from std's keyed SipHash
/// (`RandomState`) of a counter. This is not a cryptographically secure
/// generator: std documents `RandomState` only as a defence against hash
/// flooding. The bytes suit transaction ids, not keys or nonces.
pub fn random_fill(buffer: &mut [u8])
    ensures
        final(buffer)@.len() == old(buffer)@.len(),
        exists|words: Seq<u64>|
            words.len() == (old(buffer)@.len() + 7) / 8 && final(buffer)@ == word_bytes(
                words,
                old(buffer)@.len(),
            ),
{
    let state = fresh_random_state();
    let n = buffer.len();
    let count = n / 8 + if n % 8 == 0 { 0 } else { 1 };
    let mut words: Vec<u64> = Vec::with_capacity(count);
    let mut k: usize = 0;
    while k < count
        invariant
            0 <= k <= count,
            words@.len() == k,
        decreases count - k,
    {
        words.push(random_word(&state, k as u64));
        k = k + 1;
    }
    let bytes = bytes_from_words(&words, n);
    let mut i: usize = 0;
    while i < n
        invariant
            0 <= i <= n,
            n == old(buffer)@.len(),
            bytes@.len() == n,
            buffer@.len() == n,
            forall|j: int| 0 <= j < i ==> buffer@[j] == bytes@[j],
        decreases n - i,
    {
        buffer[i] = bytes[i];
        i = i + 1;
    }
    assert(buffer@ =~= bytes@);
    assert(words@.len() == (old(buffer)@.len() + 7) / 8);
}

} // verus!
