//! Single-precision (binary32) numbers, modelled on integers.
//!
//! The panel's animation and read-outs are defined in single precision: 24
//! significant bits, round to nearest, ties to even. Here those roundings are
//! integer functions, and a sensor reading is the bit pattern of a binary32
//! number.

use vstd::arithmetic::div_mod::*;
use vstd::arithmetic::mul::*;
use vstd::arithmetic::power2::*;
use vstd::prelude::*;

use crate::text::{decimal, push_decimal};

verus! {

/// The distance between neighbouring single-precision numbers around the
/// whole number `n`, at least one.
pub open spec fn ulp(n: nat) -> nat
    decreases n,
{
    if n < 0x100_0000 {
        1
    } else {
        2 * ulp(n / 2)
    }
}

/// `p / d` rounded to the nearest whole number, ties to even.
pub open spec fn half_even(p: nat, d: nat) -> nat {
    let q = p / d;
    let r = p % d;
    if 2 * r > d || (2 * r == d && q % 2 == 1) {
        q + 1
    } else {
        q
    }
}

/// `p / d` rounded to the nearest multiple of its `ulp`, ties to even: the
/// single-precision quotient, for quotients of at least `2^23`.
pub open spec fn round_ratio(p: nat, d: nat) -> nat {
    half_even(p, d * ulp(p / d)) * ulp(p / d)
}

/// `n` rounded to 24 significant bits, ties to even.
pub open spec fn round_single(n: nat) -> nat {
    round_ratio(n, 1)
}

/// The signed counterpart of `round_single`.
pub open spec fn round_signed(n: int) -> int {
    if n < 0 {
        -(round_single((-n) as nat) as int)
    } else {
        round_single(n as nat) as int
    }
}

pub proof fn lemma_ulp_bounds(n: nat)
    ensures
        1 <= ulp(n),
        ulp(n) <= n || ulp(n) == 1,
        n < 0x100_0000 * ulp(n),
        n >= 0x100_0000 ==> 0x80_0000 * ulp(n) <= n,
    decreases n,
{
    if n >= 0x100_0000 {
        lemma_ulp_bounds(n / 2);
    }
}

/// `half_even` is a nearest whole number.
pub proof fn lemma_half_even_nearest(p: nat, d: nat)
    requires
        d > 0,
    ensures
        2 * (half_even(p, d) * d - p) <= d,
        2 * (p - half_even(p, d) * d) <= d,
{
    lemma_fundamental_div_mod(p as int, d as int);
    let q = p as int / d as int;
    lemma_mul_is_commutative(q, d as int);
    lemma_mul_is_distributive_add_other_way(d as int, q, 1);
    lemma_mod_bound(p as int, d as int);
}

/// `round_ratio(p, d)` is a multiple of the spacing and no further than half
/// a spacing away from `p / d`.
pub proof fn lemma_round_ratio_nearest(p: nat, d: nat)
    requires
        d > 0,
    ensures
        round_ratio(p, d) % ulp(p / d) == 0,
        2 * (round_ratio(p, d) * d - p) <= d * ulp(p / d),
        2 * (p - round_ratio(p, d) * d) <= d * ulp(p / d),
{
    let u = ulp(p / d);
    lemma_ulp_bounds(p / d);
    lemma_mul_strictly_positive(d as int, u as int);
    lemma_half_even_nearest(p, d * u);
    let h = half_even(p, d * u);
    assert(h * (d * u) == (h * u) * d) by (nonlinear_arith);
    lemma_mod_multiples_basic(h as int, u as int);
}

/// Multiplying both sides of a quotient by `c` keeps its rounding.
pub proof fn lemma_half_even_scale(p: nat, d: nat, c: nat)
    requires
        d > 0,
        c > 0,
    ensures
        half_even(p * c, d * c) == half_even(p, d),
{
    let q = p / d;
    let r = p % d;
    lemma_fundamental_div_mod(p as int, d as int);
    lemma_mod_bound(p as int, d as int);
    assert(p * c == q * (d * c) + r * c) by (nonlinear_arith)
        requires
            p == d * q + r,
    ;
    assert(0 <= r * c < d * c) by (nonlinear_arith)
        requires
            0 <= r < d,
            c > 0,
    ;
    lemma_fundamental_div_mod_converse((p * c) as int, (d * c) as int, q as int, (r * c) as int);
    assert(2 * (r * c) > d * c <==> 2 * r > d) by (nonlinear_arith)
        requires
            c > 0,
    ;
    assert(2 * (r * c) == d * c <==> 2 * r == d) by (nonlinear_arith)
        requires
            c > 0,
    ;
}

/// A quotient below one half rounds to zero.
pub proof fn lemma_half_even_small(p: nat, d: nat)
    requires
        2 * p < d,
    ensures
        half_even(p, d) == 0,
{
    lemma_basic_div(p as int, d as int);
    lemma_small_mod(p, d);
}

/// `p / d` rounded to the nearest whole number, ties to even.
pub fn half_even_of(p: u128, d: u128) -> (r: u128)
    requires
        0 < d < 0x8000_0000_0000_0000_0000_0000_0000_0000,
        p < u128::MAX,
    ensures
        r == half_even(p as nat, d as nat),
{
    let q = p / d;
    let m = p % d;
    if 2 * m > d || (2 * m == d && q % 2 == 1) {
        proof {
            lemma_div_is_ordered_by_denominator(p as int, 1, d as int);
        }
        q + 1
    } else {
        q
    }
}

/// `p / d` rounded to 24 significant bits, ties to even.
pub fn round_ratio_of(p: u128, d: u128) -> (r: u128)
    requires
        0 < d < 0x1_0000_0000_0000_0000_0000_0000,
        p < 0x1_0000_0000_0000_0000_0000_0000,
    ensures
        r == round_ratio(p as nat, d as nat),
        r <= 2 * (p / d) + 1,
{
    let n = p / d;
    let mut u: u128 = 1;
    let mut m: u128 = n;
    proof {
        lemma_mul_is_commutative(1, ulp(n as nat) as int);
        lemma_div_is_ordered_by_denominator(p as int, 1, d as int);
    }
    while m >= 0x100_0000
        invariant
            1 <= u,
            u * ulp(m as nat) == ulp(n as nat),
            u * m <= n,
            n <= p < 0x1_0000_0000_0000_0000_0000_0000,
        decreases m,
    {
        proof {
            let w = ulp((m / 2) as nat) as int;
            assert(u * (2 * w) == (2 * u) * w) by (nonlinear_arith);
            assert((2 * u) * (m / 2) <= u * m) by (nonlinear_arith)
                requires
                    2 * (m / 2) <= m,
                    u >= 0,
            ;
            assert(u <= u * m) by (nonlinear_arith)
                requires
                    m >= 1,
                    u >= 0,
            ;
        }
        u = 2 * u;
        m = m / 2;
    }
    proof {
        assert(u * 1 == u);
        lemma_ulp_bounds(n as nat);
        let k = ulp(n as nat) as int;
        if n >= 1 {
            lemma_fundamental_div_mod(p as int, d as int);
            lemma_mod_bound(p as int, d as int);
            assert(d * k <= d * n) by (nonlinear_arith)
                requires
                    k <= n,
                    d > 0,
            ;
        }
        assert(n == 0 ==> d * k == d) by (nonlinear_arith)
            requires
                n == 0 ==> k == 1,
        ;
        assert(0 < d * k) by (nonlinear_arith)
            requires
                d > 0,
                k >= 1,
        ;
    }
    let h = half_even_of(p, d * u);
    proof {
        let k = ulp(n as nat) as int;
        let hq = (p as int) / (d * k);
        assert(hq * k <= n) by {
            lemma_div_denominator(p as int, d as int, k);
            lemma_fundamental_div_mod(n as int, k);
            lemma_mod_bound(n as int, k);
            lemma_mul_is_commutative(hq, k);
        }
        assert(h * k <= hq * k + k) by (nonlinear_arith)
            requires
                h <= hq + 1,
                k >= 1,
        ;
    }
    h * u
}

/// `n` rounded to 24 significant bits, ties to even.
pub fn round_single_of(n: u64) -> (r: u128)
    ensures
        r == round_single(n as nat),
        r <= 0x2_0000_0000_0000_0000,
{
    round_ratio_of(n as u128, 1)
}

/// `n` rounded to 24 significant bits, ties to even, keeping its sign.
pub fn round_signed_of(n: i64) -> (r: i64)
    requires
        -0x1000_0000_0000_0000 <= n <= 0x1000_0000_0000_0000,
    ensures
        r == round_signed(n as int),
{
    if n < 0 {
        let m = round_ratio_of((-n) as u128, 1);
        -(m as i64)
    } else {
        let m = round_ratio_of(n as u128, 1);
        m as i64
    }
}

/// A single-precision sensor reading, held by its binary32 bit pattern.
#[derive(Debug, Clone, Copy)]
pub struct Reading {
    pub bits: u32,
}

/// The bit pattern of `50.0`.
pub const BITS_FIFTY: u32 = 0x4248_0000;

/// The bit pattern of `80.0`.
pub const BITS_EIGHTY: u32 = 0x42a0_0000;

/// The magnitude encoded by the low 31 bits, in units of `2^-149`. The
/// infinite pattern continues the scale above every finite one.
pub open spec fn magnitude(m: nat) -> nat {
    let exponent = m / 0x80_0000;
    let fraction = m % 0x80_0000;
    if exponent == 0 {
        fraction
    } else {
        (fraction + 0x80_0000) * pow2((exponent - 1) as nat)
    }
}

impl Reading {
    pub open spec fn negative(self) -> bool {
        self.bits >= 0x8000_0000
    }

    /// The low 31 bits.
    pub open spec fn low_bits(self) -> nat {
        (if self.negative() {
            self.bits - 0x8000_0000
        } else {
            self.bits as int
        }) as nat
    }

    pub open spec fn is_nan(self) -> bool {
        self.low_bits() > 0x7f80_0000
    }

    pub open spec fn is_infinite(self) -> bool {
        self.low_bits() == 0x7f80_0000
    }

    /// The reading in units of `2^-149`.
    pub open spec fn value(self) -> int {
        if self.negative() {
            -(magnitude(self.low_bits()) as int)
        } else {
            magnitude(self.low_bits()) as int
        }
    }

    /// The reading is a number and at least `n`.
    pub open spec fn is_at_least(self, n: nat) -> bool {
        !self.is_nan() && self.value() >= n * pow2(149)
    }

    /// The larger of two readings; a reading that is not a number gives way.
    pub open spec fn max_of(self, other: Reading) -> Reading {
        if self.is_nan() {
            other
        } else if other.is_nan() {
            self
        } else if self.value() >= other.value() {
            self
        } else {
            other
        }
    }

    /// The reading, taken as a count of bytes, in tenths of a GiB.
    pub open spec fn gib_tenths(self) -> nat {
        half_even(10 * magnitude(self.low_bits()), pow2(179))
    }

    /// The reading, taken as a count of bytes, in GiB with one decimal.
    pub open spec fn gib_text(self) -> Seq<char> {
        if self.is_nan() {
            "NaN"@
        } else {
            (if self.negative() {
                "-"@
            } else {
                Seq::empty()
            }) + (if self.is_infinite() {
                "inf"@
            } else {
                tenths_text(self.gib_tenths())
            })
        }
    }

    /// The reading zero.
    pub fn zero() -> (r: Reading)
        ensures
            r.value() == 0,
            !r.is_nan(),
            r.bits == 0,
    {
        Reading { bits: 0 }
    }

    fn low(self) -> (r: u32)
        ensures
            r == self.low_bits(),
    {
        if self.bits >= 0x8000_0000 {
            self.bits - 0x8000_0000
        } else {
            self.bits
        }
    }

    /// Whether the reading is a number and at least `other`, which is one.
    pub fn at_least(self, other: Reading) -> (r: bool)
        requires
            !other.is_nan(),
        ensures
            r == (!self.is_nan() && self.value() >= other.value()),
    {
        let a = self.low();
        let b = other.low();
        proof {
            lemma_magnitude_ordered(a as nat, b as nat);
            lemma_magnitude_ordered(b as nat, a as nat);
            lemma_magnitude_positive(a as nat);
            lemma_magnitude_positive(b as nat);
        }
        if a > 0x7f80_0000 {
            false
        } else if self.bits < 0x8000_0000 {
            if other.bits < 0x8000_0000 {
                a >= b
            } else {
                true
            }
        } else if other.bits < 0x8000_0000 {
            a == 0 && b == 0
        } else {
            a <= b
        }
    }

    /// The larger of two readings; a reading that is not a number gives way.
    pub fn max(self, other: Reading) -> (r: Reading)
        ensures
            r == self.max_of(other),
    {
        if self.low() > 0x7f80_0000 {
            other
        } else if other.low() > 0x7f80_0000 {
            self
        } else if self.at_least(other) {
            self
        } else {
            other
        }
    }

    /// Whether the reading is at least 50.
    pub fn at_least_fifty(self) -> (r: bool)
        ensures
            r == self.is_at_least(50),
    {
        proof {
            lemma_threshold_values();
        }
        self.at_least(Reading { bits: BITS_FIFTY })
    }

    /// Whether the reading is at least 80.
    pub fn at_least_eighty(self) -> (r: bool)
        ensures
            r == self.is_at_least(80),
    {
        proof {
            lemma_threshold_values();
        }
        self.at_least(Reading { bits: BITS_EIGHTY })
    }

    /// The finite reading, taken as a count of bytes, in tenths of a GiB.
    fn tenths_of_gib(self) -> (r: u128)
        requires
            self.low_bits() < 0x7f80_0000,
        ensures
            r == self.gib_tenths(),
            r < 0x1_0000_0000_0000_0000_0000_0000_0000,
    {
        let m = self.low();
        let exponent: u32 = m / 0x80_0000;
        let fraction: u32 = m % 0x80_0000;
        let (mantissa, shift): (u128, u32) = if exponent == 0 {
            (fraction as u128, 0)
        } else {
            (fraction as u128 + 0x80_0000, exponent - 1)
        };
        proof {
            lemma2_to64();
            assert(magnitude(m as nat) == mantissa * pow2(shift as nat)) by {
                if exponent == 0 {
                    assert(pow2(0) == 1);
                }
            }
            assert(10 * (mantissa * pow2(shift as nat)) == (10 * mantissa) * pow2(shift as nat))
                by (nonlinear_arith);
        }
        let ten = 10 * mantissa;
        if shift >= 179 {
            let mut r: u128 = ten;
            let mut k: u32 = 179;
            proof {
                assert(ten * pow2(0) == ten) by (nonlinear_arith)
                    requires
                        pow2(0) == 1,
                ;
            }
            while k < shift
                invariant
                    179 <= k <= shift <= 253,
                    ten < 0x1000_0000,
                    r == ten * pow2((k - 179) as nat),
                    r <= 0x1000_0000 * pow2((k - 179) as nat),
                decreases shift - k,
            {
                proof {
                    let p = pow2((k - 179) as nat) as int;
                    lemma_pow2_unfold((k + 1 - 179) as nat);
                    lemma_pow2_bound74((k - 179) as nat);
                    assert(2 * (ten * p) == ten * (2 * p)) by (nonlinear_arith);
                }
                r = 2 * r;
                k += 1;
            }
            proof {
                let e = (shift - 179) as nat;
                lemma_pow2_bound74(e);
                lemma_pow2_adds(179, e);
                lemma_pow2_pos(179);
                assert(ten * (pow2(179) * pow2(e)) == (ten * pow2(e)) * pow2(179))
                    by (nonlinear_arith);
                lemma_half_even_scale((ten * pow2(e)) as nat, 1, pow2(179));
                assert(1 * pow2(179) == pow2(179));
                lemma_div_basics((ten * pow2(e)) as int);
            }
            r
        } else {
            let k: u32 = 179 - shift;
            proof {
                lemma_pow2_adds(k as nat, shift as nat);
                lemma_pow2_pos(shift as nat);
                lemma_pow2_pos(k as nat);
                lemma_half_even_scale(ten as nat, pow2(k as nat), pow2(shift as nat));
            }
            if k > 60 {
                proof {
                    lemma2_to64_rest();
                    lemma_pow2_strictly_increases(60, k as nat);
                    lemma_half_even_small(ten as nat, pow2(k as nat));
                }
                0
            } else {
                let mut d: u128 = 1;
                let mut i: u32 = 0;
                proof {
                    assert(pow2(0) == 1);
                }
                while i < k
                    invariant
                        i <= k <= 60,
                        d == pow2(i as nat),
                    decreases k - i,
                {
                    proof {
                        lemma_pow2_unfold((i + 1) as nat);
                        lemma2_to64_rest();
                        lemma_pow2_strictly_increases(i as nat, 60);
                    }
                    d = 2 * d;
                    i += 1;
                }
                proof {
                    lemma2_to64_rest();
                    if k < 60 {
                        lemma_pow2_strictly_increases(k as nat, 60);
                    }
                }
                let r = half_even_of(ten, d);
                proof {
                    lemma_div_is_ordered_by_denominator(ten as int, 1, d as int);
                }
                r
            }
        }
    }

    /// Append the reading, taken as a count of bytes, in GiB with one decimal.
    pub fn push_gib(self, out: &mut String)
        ensures
            final(out)@ == old(out)@ + self.gib_text(),
    {
        let m = self.low();
        if m > 0x7f80_0000 {
            out.append("NaN");
            return;
        }
        if self.bits >= 0x8000_0000 {
            out.append("-");
        }
        if m == 0x7f80_0000 {
            out.append("inf");
        } else {
            let t = self.tenths_of_gib();
            push_tenths(out, t);
        }
        assert(out@ =~= old(out)@ + self.gib_text());
    }
}

/// A number of tenths, written with one decimal.
pub open spec fn tenths_text(t: nat) -> Seq<char> {
    decimal(t / 10) + "."@ + decimal(t % 10)
}

/// Append a number of tenths, written with one decimal.
pub fn push_tenths(out: &mut String, t: u128)
    ensures
        final(out)@ == old(out)@ + tenths_text(t as nat),
{
    push_decimal(out, t / 10);
    out.append(".");
    push_decimal(out, t % 10);
    assert(out@ =~= old(out)@ + tenths_text(t as nat));
}

proof fn lemma_pow2_bound74(e: nat)
    requires
        e <= 74,
    ensures
        pow2(e) <= 0x400_0000_0000_0000_0000,
{
    lemma2_to64();
    lemma_pow2_adds(64, 10);
    if e < 74 {
        lemma_pow2_strictly_increases(e, 74);
    }
}

/// Larger bit patterns stand for larger magnitudes.
pub proof fn lemma_magnitude_ordered(a: nat, b: nat)
    ensures
        a < b ==> magnitude(a) < magnitude(b),
{
    if a < b {
        let ea = a / 0x80_0000;
        let eb = b / 0x80_0000;
        let fa = a % 0x80_0000;
        let fb = b % 0x80_0000;
        if ea == eb {
            if ea > 0 {
                let p = pow2((ea - 1) as nat);
                lemma_pow2_pos((ea - 1) as nat);
                assert((fa + 0x80_0000) * p < (fb + 0x80_0000) * p) by (nonlinear_arith)
                    requires
                        fa < fb,
                        p > 0,
                ;
            }
        } else {
            let q = pow2((eb - 1) as nat);
            lemma_pow2_pos((eb - 1) as nat);
            assert(0x80_0000 * q <= (fb + 0x80_0000) * q) by (nonlinear_arith)
                requires
                    q > 0,
            ;
            if ea > 0 {
                let p = pow2((ea - 1) as nat);
                lemma_pow2_pos((ea - 1) as nat);
                lemma_pow2_unfold(ea);
                if ea < eb - 1 {
                    lemma_pow2_strictly_increases(ea, (eb - 1) as nat);
                }
                assert((fa + 0x80_0000) * p < 0x80_0000 * (2 * p)) by (nonlinear_arith)
                    requires
                        fa < 0x80_0000,
                        p > 0,
                ;
            }
        }
    }
}

proof fn lemma_magnitude_positive(m: nat)
    ensures
        m > 0 ==> magnitude(m) > 0,
        magnitude(0) == 0,
{
    lemma_magnitude_ordered(0, m);
}

proof fn lemma_threshold_values()
    ensures
        (Reading { bits: BITS_FIFTY }).value() == 50 * pow2(149),
        (Reading { bits: BITS_EIGHTY }).value() == 80 * pow2(149),
{
    lemma2_to64();
    lemma_pow2_adds(131, 18);
    lemma_pow2_adds(132, 17);
    assert((0x48_0000 + 0x80_0000) * pow2(131) == 50 * (pow2(131) * 0x4_0000)) by (nonlinear_arith);
    assert((0x20_0000 + 0x80_0000) * pow2(132) == 80 * (pow2(132) * 0x2_0000)) by (nonlinear_arith);
}

/// A whole count of at most `2^24` is its own single-precision value, and
/// rounding twice is rounding once.
pub proof fn lemma_round_single_exact(n: nat)
    ensures
        n <= 0x100_0000 ==> round_single(n) == n,
        round_single(round_single(n)) == round_single(n),
{
    lemma_round_fixes_multiples(n);
    lemma_round_ratio_nearest(n, 1);
    let r = round_single(n);
    let u = ulp(n);
    lemma_ulp_bounds(n);
    lemma_div_basics(n as int);
    assert(1 * u == u);
    // r = h * u with 2^23 <= h <= 2^24, so r is a multiple of its own spacing.
    let h = half_even(n, u);
    lemma_fundamental_div_mod(n as int, u as int);
    lemma_mod_bound(n as int, u as int);
    let q = n as int / u as int;
    assert(q < 0x100_0000) by (nonlinear_arith)
        requires
            n < 0x100_0000 * u,
            n == u * q + n as int % u as int,
            n as int % u as int >= 0,
            u > 0,
    ;
    assert(h <= 0x100_0000);
    lemma_ulp_of_product(h, u, n);
    lemma_round_fixes_multiples(r);
}

proof fn lemma_ulp_of_product(h: nat, u: nat, n: nat)
    requires
        h <= 0x100_0000,
        u == ulp(n),
    ensures
        (h * u) % ulp(h * u) == 0,
    decreases n,
{
    if n < 0x100_0000 {
        assert(u == 1 && h * u == h);
        if h == 0x100_0000 {
            assert(ulp(0x80_0000) == 1);
            assert(ulp(h) == 2);
            assert(h % 2 == 0);
        } else {
            assert(ulp(h) == 1);
        }
    } else {
        let v = ulp(n / 2);
        lemma_ulp_of_product(h, v, n / 2);
        let x = h * v;
        assert(h * (2 * v) == 2 * x) by (nonlinear_arith)
            requires
                x == h * v,
        ;
        let w = ulp(x);
        lemma_ulp_bounds(x);
        if 2 * x < 0x100_0000 {
        } else {
            assert((2 * x) / 2 == x);
            assert(ulp(2 * x) == 2 * w);
            lemma_fundamental_div_mod(x as int, w as int);
            let k = x as int / w as int;
            assert(2 * x == k * (2 * w)) by (nonlinear_arith)
                requires
                    x == w * k,
            ;
            lemma_mod_multiples_basic(k, (2 * w) as int);
        }
    }
}

proof fn lemma_round_fixes_multiples(n: nat)
    ensures
        n <= 0x100_0000 ==> round_single(n) == n,
        n % ulp(n) == 0 ==> round_single(n) == n,
{
    let u = ulp(n);
    lemma_ulp_bounds(n);
    lemma_div_basics(n as int);
    assert(1 * u == u);
    if n == 0x100_0000 {
        assert(ulp(0x100_0000) == 2 * ulp(0x80_0000));
    }
    if n % u == 0 {
        lemma_fundamental_div_mod(n as int, u as int);
        lemma_mul_is_commutative(u as int, n as int / u as int);
    }
}

// ── Laws of rounding ────────────────────────────────────────────────────

/// The spacing of single-precision numbers: a power of two, one below `2^24`,
/// and above that the one under which a number takes 24 bits. Its exponent is
/// returned.
pub proof fn lemma_spacing_is_a_power_of_two(n: nat) -> (e: nat)
    ensures
        ulp(n) == pow2(e),
        n < 16777216 ==> e == 0,
        n >= 16777216 ==> 8388608 * pow2(e) <= n < 16777216 * pow2(e),
    decreases n,
{
    lemma_ulp_bounds(n);
    if n < 0x100_0000 {
        lemma2_to64();
        0
    } else {
        let e = lemma_spacing_is_a_power_of_two(n / 2);
        lemma_pow2_unfold(e + 1);
        e + 1
    }
}

/// Rounding a quotient: the only whole number within less than one half of it,
/// or, where two are exactly one half away, the even one.
pub proof fn lemma_half_even_rounds(p: nat, d: nat, h: nat)
    requires
        d > 0,
    ensures
        -(d as int) < 2 * (h * d - p) < d ==> half_even(p, d) == h,
        2 * (p - h * d) == d ==> half_even(p, d) == if h % 2 == 0 {
            h
        } else {
            h + 1
        },
{
    let q = p as int / d as int;
    let r = p as int % d as int;
    lemma_fundamental_div_mod(p as int, d as int);
    lemma_mod_bound(p as int, d as int);
    if -(d as int) < 2 * (h * d - p) < d {
        assert(q <= h <= q + 1) by (nonlinear_arith)
            requires
                p == d * q + r,
                0 <= r < d,
                -(d as int) < 2 * (h * d - p) < d,
        ;
        assert(h == q ==> h * d - p == -r) by (nonlinear_arith)
            requires
                p == d * q + r,
        ;
        assert(h == q + 1 ==> h * d - p == d - r) by (nonlinear_arith)
            requires
                p == d * q + r,
        ;
    }
    if 2 * (p - h * d) == d {
        assert(q == h) by (nonlinear_arith)
            requires
                p == d * q + r,
                0 <= r < d,
                2 * (p - h * d) == d,
        ;
        assert(p - h * d == r) by (nonlinear_arith)
            requires
                p == d * q + r,
                q == h,
        ;
    }
}

/// Rounding a quotient to single precision: the only multiple of the spacing
/// within less than half a spacing of it, or, where two are exactly half a
/// spacing away, the even multiple.
pub proof fn lemma_round_ratio_rounds(p: nat, d: nat, h: nat)
    requires
        d > 0,
    ensures
        ({
            let step = d * ulp(p / d);
            &&& -(step as int) < 2 * (h * step - p) < step ==> round_ratio(p, d) == h * ulp(p / d)
            &&& 2 * (p - h * step) == step ==> round_ratio(p, d) == if h % 2 == 0 {
                h * ulp(p / d)
            } else {
                (h + 1) * ulp(p / d)
            }
        }),
{
    lemma_ulp_bounds(p / d);
    lemma_mul_strictly_positive(d as int, ulp(p / d) as int);
    lemma_half_even_rounds(p, d * ulp(p / d), h);
}

/// Rounding keeps signs apart: a number and its opposite round to opposites.
pub proof fn lemma_round_signed_is_odd(n: int)
    ensures
        round_signed(-n) == -round_signed(n),
        n >= 0 ==> round_signed(n) == round_ratio(n as nat, 1),
{
    lemma_round_single_exact(0);
}

// ── Laws of readings ────────────────────────────────────────────────────

/// The binary32 scale, in units of `2^-149`: the patterns below `2^24` count
/// one by one, and every `2^23` patterns on, the magnitude doubles.
pub proof fn lemma_magnitude_scale(m: nat)
    ensures
        m < 16777216 ==> magnitude(m) == m,
        m >= 8388608 ==> magnitude(m + 8388608) == 2 * magnitude(m),
{
    lemma2_to64();
    let e = m / 0x80_0000;
    let f = m % 0x80_0000;
    if m >= 8388608 {
        assert((m + 8388608) / 0x80_0000 == e + 1);
        assert((m + 8388608) % 0x80_0000 == f);
        lemma_pow2_unfold(e);
        assert((f + 0x80_0000) * (2 * pow2((e - 1) as nat)) == 2 * ((f + 0x80_0000) * pow2(
            (e - 1) as nat,
        ))) by (nonlinear_arith);
    }
    if m < 16777216 && e == 1 {
        assert((f + 0x80_0000) * pow2(0) == f + 0x80_0000) by (nonlinear_arith)
            requires
                pow2(0) == 1,
        ;
    }
}

/// The sign bit turns a reading into its opposite and nothing else; the
/// patterns above infinity are no numbers.
pub proof fn lemma_reading_sign(bits: u32)
    requires
        bits < 0x8000_0000,
    ensures
        (Reading { bits }).value() == magnitude(bits as nat),
        (Reading { bits: (bits + 0x8000_0000) as u32 }).value() == -(magnitude(bits as nat) as int),
        (Reading { bits }).is_nan() <==> bits > 0x7f80_0000,
        (Reading { bits: (bits + 0x8000_0000) as u32 }).is_nan() <==> bits > 0x7f80_0000,
        (Reading { bits }).is_infinite() <==> bits == 0x7f80_0000,
{
}

/// The two thresholds by bit pattern: `50.0` is `0x42480000` and `80.0` is
/// `0x42a00000`, and every pattern from there up to infinity is at least as
/// large. Negative readings and those that are no numbers never are.
pub proof fn lemma_thresholds_by_bits(r: Reading)
    ensures
        r.is_at_least(50) <==> 0x4248_0000 <= r.bits <= 0x7f80_0000,
        r.is_at_least(80) <==> 0x42a0_0000 <= r.bits <= 0x7f80_0000,
{
    lemma_threshold_values();
    lemma_pow2_pos(149);
    let low = r.low_bits();
    lemma_magnitude_ordered(low, BITS_FIFTY as nat);
    lemma_magnitude_ordered(BITS_FIFTY as nat, low);
    lemma_magnitude_ordered(low, BITS_EIGHTY as nat);
    lemma_magnitude_ordered(BITS_EIGHTY as nat, low);
}

/// The larger of two readings is one of them; it is a number if one of them is,
/// and below neither that is.
pub proof fn lemma_max_of_two_readings(a: Reading, b: Reading)
    ensures
        a.max_of(b) == a || a.max_of(b) == b,
        a.max_of(b).is_nan() <==> a.is_nan() && b.is_nan(),
        !a.is_nan() ==> a.max_of(b).value() >= a.value(),
        !b.is_nan() ==> a.max_of(b).value() >= b.value(),
{
}

/// A reading as a count of bytes, in tenths of a GiB: never further than one
/// half from `10 * bytes / 2^30`, and even where two are.
pub proof fn lemma_gib_tenths_are_nearest(r: Reading)
    ensures
        ({
            let t = r.gib_tenths() as int;
            let bytes = magnitude(r.low_bits()) as int;  // in units of 2^-149
            let gib = pow2(179) as int;
            &&& 2 * (t * gib - 10 * bytes) <= gib
            &&& 2 * (10 * bytes - t * gib) <= gib
            &&& 2 * (t * gib - 10 * bytes) == gib ==> t % 2 == 0
            &&& 2 * (10 * bytes - t * gib) == gib ==> t % 2 == 0
        }),
{
    lemma_pow2_pos(179);
    lemma_half_even_is_even_at_ties(10 * magnitude(r.low_bits()), pow2(179));
}

/// A rounded quotient is never further than one half away, and even where two
/// whole numbers are.
pub proof fn lemma_half_even_is_even_at_ties(p: nat, d: nat)
    requires
        d > 0,
    ensures
        2 * (half_even(p, d) * d - p) <= d,
        2 * (p - half_even(p, d) * d) <= d,
        2 * (half_even(p, d) * d - p) == d ==> half_even(p, d) % 2 == 0,
        2 * (p - half_even(p, d) * d) == d ==> half_even(p, d) % 2 == 0,
{
    lemma_half_even_nearest(p, d);
    let h = half_even(p, d);
    lemma_half_even_rounds(p, d, h);
    if 2 * (h * d - p) == d {
        if h == 0 {
            assert(h * d == 0) by (nonlinear_arith)
                requires
                    h == 0,
            ;
        } else {
            let g = (h - 1) as nat;
            assert(g * d == h * d - d) by (nonlinear_arith)
                requires
                    g == h - 1,
            ;
            lemma_half_even_rounds(p, d, g);
        }
    }
}

/// What a reading spells, in GiB: `NaN`, or an optional minus sign and `inf` or
/// whole GiB, a point and one digit of tenths.
pub proof fn lemma_gib_text_spelling(r: Reading)
    ensures
        r.bits > 0x7f80_0000 && r.bits < 0x8000_0000 ==> r.gib_text() == "NaN"@,
        r.bits > 0xff80_0000 ==> r.gib_text() == "NaN"@,
        r.bits == 0x7f80_0000 ==> r.gib_text() == "inf"@,
        r.bits == 0xff80_0000 ==> r.gib_text() == "-"@ + "inf"@,
        r.bits < 0x7f80_0000 ==> r.gib_text() == decimal(r.gib_tenths() / 10) + "."@ + decimal(
            r.gib_tenths() % 10,
        ),
        0x8000_0000 <= r.bits < 0xff80_0000 ==> r.gib_text() == "-"@ + (decimal(
            r.gib_tenths() / 10,
        ) + "."@ + decimal(r.gib_tenths() % 10)),
{
    assert(r.bits == 0x7f80_0000 ==> r.gib_text() =~= "inf"@);
    assert(r.bits < 0x7f80_0000 ==> r.gib_text() =~= tenths_text(r.gib_tenths()));
}

} // verus!
