//! Xorshift64 pseudo-random generators.

use vstd::prelude::*;

verus! {

/// One Xorshift64 step with the shift triple 13, 7, 17.
pub open spec fn xorshift64(s: u64) -> u64 {
    let a = s ^ (s << 13);
    let b = a ^ (a >> 7);
    b ^ (b << 17)
}

/// The state after `n` steps from `s`.
pub open spec fn xorshift64_iter(s: u64, n: nat) -> u64
    decreases n,
{
    if n == 0 {
        s
    } else {
        xorshift64(xorshift64_iter(s, (n - 1) as nat))
    }
}

/// The value of `[min, max]` picked by the generator output `v`.
pub open spec fn pick(v: u64, min: u64, max: u64) -> u64 {
    (min + v as int % (max - min + 1)) as u64
}

/// A tiny deterministic Xorshift64 PRNG for randomized idle timing.
#[derive(Debug, Clone, Copy)]
pub struct Prng {
    pub state: u64,
}

impl Prng {
    /// Advance the generator and return its new state.
    pub fn next(&mut self) -> (r: u64)
        ensures
            r == xorshift64(old(self).state),
            final(self).state == r,
    {
        self.state = self.state ^ (self.state << 13);
        self.state = self.state ^ (self.state >> 7);
        self.state = self.state ^ (self.state << 17);
        self.state
    }

    /// Value in `[min, max]` (both inclusive).
    pub fn range(&mut self, min: u64, max: u64) -> (r: u64)
        requires
            min <= max,
        ensures
            final(self).state == xorshift64(old(self).state),
            r == pick(final(self).state, min, max),
            r - min == final(self).state as int % (max - min + 1),
            min <= r <= max,
    {
        let width: u64 = max - min;
        let v = self.next();
        if width == u64::MAX {
            v
        } else {
            min + v % (width + 1)
        }
    }
}

/// The same generator, owned by the renderer.
#[derive(Debug, Clone, Copy)]
pub struct RenderPrng {
    pub state: u64,
}

impl RenderPrng {
    /// Advance the generator and return its new state.
    pub fn next(&mut self) -> (r: u64)
        ensures
            r == xorshift64(old(self).state),
            final(self).state == r,
    {
        self.state = self.state ^ (self.state << 13);
        self.state = self.state ^ (self.state >> 7);
        self.state = self.state ^ (self.state << 17);
        self.state
    }

    /// Value in `[min, max]` (both inclusive).
    pub fn range(&mut self, min: u64, max: u64) -> (r: u64)
        requires
            min <= max,
        ensures
            final(self).state == xorshift64(old(self).state),
            r == pick(final(self).state, min, max),
            r - min == final(self).state as int % (max - min + 1),
            min <= r <= max,
    {
        let width: u64 = max - min;
        let v = self.next();
        if width == u64::MAX {
            v
        } else {
            min + v % (width + 1)
        }
    }
}

/// Every output of `pick` lies in the requested interval, and every value `t`
/// of the interval is picked by some generator output.
pub proof fn lemma_pick_covers_range(v: u64, t: u64, min: u64, max: u64)
    requires
        min <= t <= max,
    ensures
        min <= pick(v, min, max) <= max,
        pick((t - min) as u64, min, max) == t,
{
    assert((t - min) % (max - min + 1) == t - min) by (nonlinear_arith)
        requires
            0 <= t - min < max - min + 1,
    ;
}

/// Two different states never step to the same state.
pub proof fn lemma_xorshift64_injective(s: u64, t: u64)
    requires
        xorshift64(s) == xorshift64(t),
    ensures
        s == t,
{
    let a = s ^ (s << 13);
    let b = a ^ (a >> 7);
    let c = t ^ (t << 13);
    let d = c ^ (c >> 7);
    assert(b ^ (b << 17) == d ^ (d << 17) ==> b == d) by (bit_vector);
    assert(a ^ (a >> 7) == c ^ (c >> 7) ==> a == c) by (bit_vector);
    assert(s ^ (s << 13) == t ^ (t << 13) ==> s == t) by (bit_vector);
}

/// A generator seeded with a non-zero state never reaches the fixed point
/// zero, and zero is a fixed point.
pub proof fn lemma_nonzero_seed_stays_nonzero(s: u64, n: nat)
    ensures
        s != 0 ==> xorshift64_iter(s, n) != 0,
        s == 0 ==> xorshift64_iter(s, n) == 0,
    decreases n,
{
    assert(0u64 ^ (0u64 << 13) == 0 && 0u64 ^ (0u64 >> 7) == 0 && 0u64 ^ (0u64 << 17) == 0)
        by (bit_vector);
    if n > 0 {
        lemma_nonzero_seed_stays_nonzero(s, (n - 1) as nat);
        let p = xorshift64_iter(s, (n - 1) as nat);
        if p != 0 && xorshift64(p) == 0 {
            lemma_xorshift64_injective(p, 0);
        }
    }
}

/// One step in numbers: three times the state is joined, bit by bit without
/// carry, with a shifted copy of itself: times `2^13` modulo `2^64`, divided by
/// `2^7`, and times `2^17` modulo `2^64`.
pub proof fn lemma_xorshift64_in_numbers(s: u64, a: u64, b: u64)
    requires
        a == s ^ ((s as u128 * 8192 % 0x1_0000_0000_0000_0000) as u64),
        b == a ^ (a / 128),
    ensures
        xorshift64(s) == b ^ ((b as u128 * 131072 % 0x1_0000_0000_0000_0000) as u64),
{
    assert((s as u128 * 8192 % 0x1_0000_0000_0000_0000) as u64 == s << 13) by (bit_vector);
    assert(a / 128 == a >> 7) by (bit_vector);
    assert((b as u128 * 131072 % 0x1_0000_0000_0000_0000) as u64 == b << 17) by (bit_vector);
}

/// The step is linear: the successor of two states joined is their successors
/// joined.
pub proof fn lemma_xorshift64_is_linear(s: u64, t: u64)
    ensures
        xorshift64(s ^ t) == xorshift64(s) ^ xorshift64(t),
{
    let (a, c, e) = (s ^ (s << 13), t ^ (t << 13), (s ^ t) ^ ((s ^ t) << 13));
    assert((s ^ t) ^ ((s ^ t) << 13) == (s ^ (s << 13)) ^ (t ^ (t << 13))) by (bit_vector);
    let (b, d, f) = (a ^ (a >> 7), c ^ (c >> 7), e ^ (e >> 7));
    assert((a ^ c) ^ ((a ^ c) >> 7) == (a ^ (a >> 7)) ^ (c ^ (c >> 7))) by (bit_vector);
    assert((b ^ d) ^ ((b ^ d) << 17) == (b ^ (b << 17)) ^ (d ^ (d << 17))) by (bit_vector);
}

/// A pick is the remainder by the number of choices, counted from the least
/// one: outputs a whole number of choices apart pick the same value.
pub proof fn lemma_pick_is_a_remainder(v: u64, k: int, min: u64, max: u64)
    requires
        min <= max,
        0 <= v + k * (max - min + 1) <= u64::MAX,
    ensures
        pick(v, min, max) - min == v as int % (max - min + 1),
        pick((v + k * (max - min + 1)) as u64, min, max) == pick(v, min, max),
{
    let n = max - min + 1;
    assert(0 <= v as int % n < n) by (nonlinear_arith)
        requires
            n > 0,
    ;
    vstd::arithmetic::div_mod::lemma_mod_multiples_vanish(k, v as int, n);
    assert(n * k + v == v + k * n) by (nonlinear_arith);
}

} // verus!
