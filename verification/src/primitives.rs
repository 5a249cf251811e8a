use vstd::prelude::*;
use vstd::arithmetic::power2::{pow2, lemma2_to64, lemma_pow2_adds, lemma_pow2_pos};

verus! {

/// A 256-bit unsigned integer, held as 32 bytes, most significant first.
#[derive(Debug, Clone, Copy)]
pub struct U256 {
    pub bytes: [u8; 32],
}

impl View for U256 {
    type V = Seq<u8>;

    open spec fn view(&self) -> Seq<u8> {
        self.bytes@
    }
}

/// Bytewise exclusive or of two byte strings of the same length.
pub open spec fn xor_bytes(a: Seq<u8>, b: Seq<u8>) -> Seq<u8> {
    Seq::new(a.len(), |i: int| a[i] ^ b[i])
}

/// Every byte is zero.
pub open spec fn is_zero_bytes(s: Seq<u8>) -> bool {
    forall|i: int| 0 <= i < s.len() ==> s[i] == 0
}

/// Number of leading zero bits of a byte.
pub open spec fn byte_leading_zeros(x: u8) -> nat {
    if x >= 128 {
        0
    } else if x >= 64 {
        1
    } else if x >= 32 {
        2
    } else if x >= 16 {
        3
    } else if x >= 8 {
        4
    } else if x >= 4 {
        5
    } else if x >= 2 {
        6
    } else if x >= 1 {
        7
    } else {
        8
    }
}

/// Number of leading zero bits of a big-endian byte string.
pub open spec fn leading_zero_bits(s: Seq<u8>) -> nat
    decreases s.len(),
{
    if s.len() == 0 {
        0
    } else if s[0] == 0 {
        8 + leading_zero_bits(s.drop_first())
    } else {
        byte_leading_zeros(s[0])
    }
}

/// The natural number that a big-endian byte string denotes.
pub open spec fn be_value(s: Seq<u8>) -> nat
    decreases s.len(),
{
    if s.len() == 0 {
        0
    } else {
        be_value(s.drop_last()) * 256 + s.last() as nat
    }
}

proof fn lemma_leading_zero_bits_skip(s: Seq<u8>, i: int)
    requires
        0 <= i < s.len(),
        s[i] == 0,
    ensures
        leading_zero_bits(s.skip(i)) == 8 + leading_zero_bits(s.skip(i + 1)),
{
    assert(s.skip(i).drop_first() =~= s.skip(i + 1));
}

fn count_leading_zeros(x: u8) -> (r: u32)
    ensures
        r == byte_leading_zeros(x),
{
    if x >= 128 {
        0
    } else if x >= 64 {
        1
    } else if x >= 32 {
        2
    } else if x >= 16 {
        3
    } else if x >= 8 {
        4
    } else if x >= 4 {
        5
    } else if x >= 2 {
        6
    } else if x >= 1 {
        7
    } else {
        8
    }
}

impl U256 {
    /// The value zero.
    pub fn zero() -> (r: U256)
        ensures
            is_zero_bytes(r@),
            r@.len() == 32,
    {
        U256 { bytes: [0u8; 32] }
    }

    /// The value whose big-endian encoding is `bytes`.
    pub fn from_bytes(bytes: [u8; 32]) -> (r: U256)
        ensures
            r@ == bytes@,
    {
        U256 { bytes }
    }

    /// Same value.
    pub fn equals(&self, other: &U256) -> (r: bool)
        ensures
            r == (self@ == other@),
    {
        let mut i: usize = 0;
        while i < 32
            invariant
                0 <= i <= 32,
                self@.len() == 32,
                other@.len() == 32,
                forall|j: int| 0 <= j < i ==> self@[j] == other@[j],
            decreases 32 - i,
        {
            if self.bytes[i] != other.bytes[i] {
                return false;
            }
            i = i + 1;
        }
        assert(self@ =~= other@);
        true
    }

    /// Value zero.
    pub fn is_zero(&self) -> (r: bool)
        ensures
            r == is_zero_bytes(self@),
    {
        let mut i: usize = 0;
        while i < 32
            invariant
                0 <= i <= 32,
                self@.len() == 32,
                forall|j: int| 0 <= j < i ==> self@[j] == 0,
            decreases 32 - i,
        {
            if self.bytes[i] != 0 {
                return false;
            }
            i = i + 1;
        }
        true
    }

    /// Bitwise exclusive or: the XOR distance between two identifiers.
    pub fn xor(&self, other: &U256) -> (r: U256)
        ensures
            r@ == xor_bytes(self@, other@),
    {
        let mut bytes = [0u8; 32];
        let mut i: usize = 0;
        while i < 32
            invariant
                0 <= i <= 32,
                self@.len() == 32,
                other@.len() == 32,
                bytes@.len() == 32,
                forall|j: int| 0 <= j < i ==> bytes@[j] == self@[j] ^ other@[j],
            decreases 32 - i,
        {
            bytes[i] = self.bytes[i] ^ other.bytes[i];
            i = i + 1;
        }
        assert(bytes@ =~= xor_bytes(self@, other@));
        U256 { bytes }
    }

    /// Number of leading zero bits (256 for zero).
    pub fn leading_zeros(&self) -> (r: u32)
        ensures
            r == leading_zero_bits(self@),
            r <= 256,
    {
        let mut i: usize = 0;
        assert(self@.skip(0) =~= self@);
        while i < 32 && self.bytes[i] == 0
            invariant
                0 <= i <= 32,
                self@.len() == 32,
                leading_zero_bits(self@) == 8 * i + leading_zero_bits(self@.skip(i as int)),
            decreases 32 - i,
        {
            proof {
                lemma_leading_zero_bits_skip(self@, i as int);
            }
            i = i + 1;
        }
        if i == 32 {
            assert(self@.skip(32) =~= Seq::<u8>::empty());
            256
        } else {
            let b = self.bytes[i];
            proof {
                assert(self@.skip(i as int)[0] == b);
            }
            (8 * i as u32) + count_leading_zeros(b)
        }
    }
}

// ---------------------------------------------------------------------------
// The XOR metric and the integers the byte strings denote
// ---------------------------------------------------------------------------

proof fn lemma_pow2_step(k: nat)
    ensures
        pow2(k + 8) == pow2(k) * 256,
        pow2(k) > 0,
{
    lemma_pow2_adds(k, 8);
    lemma2_to64();
    lemma_pow2_pos(k);
}

/// A big-endian byte string of length `n` denotes a number below `2^(8n)`.
pub proof fn lemma_be_value_bound(s: Seq<u8>)
    ensures
        be_value(s) < pow2(8 * s.len()),
    decreases s.len(),
{
    if s.len() == 0 {
        lemma2_to64();
    } else {
        let init = s.drop_last();
        lemma_be_value_bound(init);
        let k = (8 * init.len()) as nat;
        lemma_pow2_step(k);
        assert(8 * s.len() == k + 8);
        let p = pow2(k);
        let v = be_value(init);
        let l = s.last() as int;
        assert(v * 256 + l < p * 256) by (nonlinear_arith)
            requires
                v < p,
                0 <= l < 256,
        ;
    }
}

/// The first byte of a big-endian byte string weighs `2^(8(n-1))`.
pub proof fn lemma_be_value_first(s: Seq<u8>)
    requires
        s.len() >= 1,
    ensures
        be_value(s) == s[0] * pow2((8 * (s.len() - 1)) as nat) + be_value(s.drop_first()),
    decreases s.len(),
{
    if s.len() == 1 {
        lemma2_to64();
        assert(be_value(s.drop_last()) == 0);
        assert(be_value(s.drop_first()) == 0);
        assert(s.last() == s[0]);
        assert(pow2(0) == 1);
        let a = s[0] as int;
        let q = pow2((8 * (s.len() - 1)) as nat) as int;
        assert(q == 1);
        assert(a * q == a) by (nonlinear_arith)
            requires
                q == 1,
        ;
    } else {
        let init = s.drop_last();
        let tail = s.drop_first();
        lemma_be_value_first(init);
        assert(init.drop_first() =~= tail.drop_last());
        assert(init[0] == s[0]);
        assert(tail.last() == s.last());
        let k = (8 * (init.len() - 1)) as nat;
        lemma_pow2_step(k);
        assert((8 * (s.len() - 1)) as nat == k + 8);
        let a = s[0] as int;
        let p = pow2(k) as int;
        let r = be_value(tail.drop_last()) as int;
        let l = s.last() as int;
        assert(be_value(s) == be_value(init) * 256 + l);
        assert(be_value(init) == a * p + r);
        assert(be_value(tail) == r * 256 + l);
        assert(pow2((8 * (s.len() - 1)) as nat) == p * 256);
        assert((a * p + r) * 256 + l == a * (p * 256) + (r * 256 + l)) by (nonlinear_arith);
        let q = pow2((8 * (s.len() - 1)) as nat) as int;
        assert(a * q == a * (p * 256)) by (nonlinear_arith)
            requires
                q == p * 256,
        ;
    }
}

/// The value is zero exactly when every byte is.
pub proof fn lemma_be_value_zero(s: Seq<u8>)
    ensures
        (be_value(s) == 0) == is_zero_bytes(s),
    decreases s.len(),
{
    if s.len() > 0 {
        lemma_be_value_zero(s.drop_last());
        if is_zero_bytes(s) {
            assert(is_zero_bytes(s.drop_last()));
        }
        if be_value(s) == 0 {
            assert forall|i: int| 0 <= i < s.len() implies s[i] == 0 by {
                if i < s.len() - 1 {
                    assert(s.drop_last()[i] == s[i]);
                }
            }
        }
    }
}

proof fn lemma_byte_bounds(x: u8)
    requires
        x != 0,
    ensures
        byte_leading_zeros(x) < 8,
        pow2((7 - byte_leading_zeros(x)) as nat) <= x < pow2((8 - byte_leading_zeros(x)) as nat),
{
    lemma2_to64();
}

/// A nonzero big-endian byte string of length `n` with `z` leading zero
/// bits denotes a number in `[2^(8n - 1 - z), 2^(8n - z))`.
pub proof fn lemma_be_value_leading_zeros(s: Seq<u8>)
    requires
        !is_zero_bytes(s),
    ensures
        leading_zero_bits(s) < 8 * s.len(),
        pow2((8 * s.len() - 1 - leading_zero_bits(s)) as nat) <= be_value(s),
        be_value(s) < pow2((8 * s.len() - leading_zero_bits(s)) as nat),
    decreases s.len(),
{
    let n = s.len();
    let tail = s.drop_first();
    lemma_be_value_first(s);
    lemma_be_value_bound(tail);
    let k = (8 * (n - 1)) as nat;
    let p = pow2(k) as int;
    lemma_pow2_pos(k);
    if s[0] == 0 {
        assert(!is_zero_bytes(tail)) by {
            let i = choose|i: int| 0 <= i < s.len() && s[i] != 0;
            assert(tail[i - 1] == s[i]);
        }
        lemma_be_value_leading_zeros(tail);
        assert(be_value(s) == be_value(tail));
    } else {
        let z = byte_leading_zeros(s[0]);
        lemma_byte_bounds(s[0]);
        let lo = pow2((7 - z) as nat) as int;
        let hi = pow2((8 - z) as nat) as int;
        let a = s[0] as int;
        let r = be_value(tail) as int;
        lemma_pow2_adds((7 - z) as nat, k);
        lemma_pow2_adds((8 - z) as nat, k);
        assert((7 - z) as nat + k == (8 * n - 1 - z) as nat);
        assert((8 - z) as nat + k == (8 * n - z) as nat);
        assert(lo * p <= a * p + r) by (nonlinear_arith)
            requires
                lo <= a,
                0 <= r,
                0 < p,
        ;
        assert(a * p + r < hi * p) by (nonlinear_arith)
            requires
                a < hi,
                r < p,
                0 < p,
        ;
    }
}

/// Two byte strings XOR to all zero bytes exactly when they are equal.
pub proof fn lemma_xor_zero(a: Seq<u8>, b: Seq<u8>)
    requires
        a.len() == b.len(),
    ensures
        is_zero_bytes(xor_bytes(a, b)) == (a == b),
{
    if is_zero_bytes(xor_bytes(a, b)) {
        assert forall|i: int| 0 <= i < a.len() implies a[i] == b[i] by {
            let (x, y) = (a[i], b[i]);
            assert(xor_bytes(a, b)[i] == x ^ y);
            assert(x ^ y == 0 ==> x == y) by (bit_vector);
        }
        assert(a =~= b);
    }
    if a == b {
        assert forall|i: int| 0 <= i < a.len() implies xor_bytes(a, b)[i] == 0 by {
            let x = a[i];
            assert(x ^ x == 0) by (bit_vector);
        }
    }
}

/// The XOR distance is symmetric.
pub proof fn lemma_xor_symmetric(a: Seq<u8>, b: Seq<u8>)
    requires
        a.len() == b.len(),
    ensures
        xor_bytes(a, b) == xor_bytes(b, a),
{
    assert forall|i: int| 0 <= i < a.len() implies xor_bytes(a, b)[i] == xor_bytes(b, a)[i] by {
        let (x, y) = (a[i], b[i]);
        assert(x ^ y == y ^ x) by (bit_vector);
    }
    assert(xor_bytes(a, b) =~= xor_bytes(b, a));
}

proof fn lemma_be_value_xor_le_sum(x: Seq<u8>, y: Seq<u8>)
    requires
        x.len() == y.len(),
    ensures
        be_value(xor_bytes(x, y)) <= be_value(x) + be_value(y),
    decreases x.len(),
{
    if x.len() > 0 {
        let (ix, iy) = (x.drop_last(), y.drop_last());
        lemma_be_value_xor_le_sum(ix, iy);
        let d = xor_bytes(x, y);
        assert(d.drop_last() =~= xor_bytes(ix, iy));
        let (a, b) = (x.last(), y.last());
        assert(d.last() == a ^ b);
        assert((a ^ b) as int <= a as int + b as int) by (bit_vector);
    }
}

/// The XOR distance obeys the triangle inequality: going through `b` is
/// never shorter than going from `a` to `c` directly.
pub proof fn lemma_xor_triangle(a: Seq<u8>, b: Seq<u8>, c: Seq<u8>)
    requires
        a.len() == b.len(),
        b.len() == c.len(),
    ensures
        be_value(xor_bytes(a, c)) <= be_value(xor_bytes(a, b)) + be_value(xor_bytes(b, c)),
{
    let ab = xor_bytes(a, b);
    let bc = xor_bytes(b, c);
    assert forall|i: int| 0 <= i < a.len() implies xor_bytes(ab, bc)[i] == xor_bytes(a, c)[i] by {
        let (x, y, z) = (a[i], b[i], c[i]);
        assert((x ^ y) ^ (y ^ z) == x ^ z) by (bit_vector);
    }
    assert(xor_bytes(ab, bc) =~= xor_bytes(a, c));
    lemma_be_value_xor_le_sum(ab, bc);
}

} // verus!
