//! Numbers the rest of the library computes with.
//!
//! Levels, coordinates and colours are fixed-point: an `i64` counting
//! billionths, with [`ONE`] standing for 1.0. Values that arrive from the audio
//! side as IEEE-754 single-precision floats enter as a [`Sample`], which keeps
//! the bit pattern, so "is it finite" and "which is larger" are answered exactly.

use vstd::arithmetic::power2::{lemma_pow2_adds, lemma_pow2_pos, lemma_pow2_unfold, pow2};
use vstd::prelude::*;

verus! {

/// 1.0 in fixed point.
pub const ONE: i64 = 1_000_000_000;

/// Largest magnitude [`Sample::to_fixed`] returns; louder values saturate here.
pub const FIXED_MAX: i64 = 0x4000_0000_0000_0000;

/// `v` limited to `lo..=hi`.
pub open spec fn clamped(v: int, lo: int, hi: int) -> int {
    if v < lo {
        lo
    } else if v > hi {
        hi
    } else {
        v
    }
}

/// Limit `v` to `lo..=hi`.
pub fn clamp(v: i64, lo: i64, hi: i64) -> (r: i64)
    requires
        lo <= hi,
    ensures
        r == clamped(v as int, lo as int, hi as int),
{
    if v < lo {
        lo
    } else if v > hi {
        hi
    } else {
        v
    }
}

/// The point a fraction `t / ONE` of the way from `a` to `b`, rounded down.
pub open spec fn blend(a: int, b: int, t: int) -> int {
    (a * (ONE - t) + b * t) / (ONE as int)
}

/// Linear interpolation between two values.
pub fn lerp(a: i64, b: i64, t: i64) -> (r: i64)
    requires
        0 <= t <= ONE,
    ensures
        r == blend(a as int, b as int, t as int),
        a <= b ==> a <= r <= b,
        b <= a ==> b <= r <= a,
{
    let far: u128 = if a <= b {
        (b as i128 - a as i128) as u128
    } else {
        (a as i128 - b as i128) as u128
    };
    let ghost n = a * (ONE - t) + b * t;
    proof {
        lemma_blend_between(a as int, b as int, t as int);
        assert(0 <= far * t <= 0xFFFF_FFFF_FFFF_FFFF * 1_000_000_000) by (nonlinear_arith)
            requires
                0 <= far <= 0xFFFF_FFFF_FFFF_FFFF,
                0 <= t <= 1_000_000_000,
        ;
        assert(n == a * 1_000_000_000 + if a <= b {
            far * t
        } else {
            -(far * t)
        }) by (nonlinear_arith)
            requires
                n == a * (1_000_000_000 - t) + b * t,
                far == if a <= b {
                    b - a
                } else {
                    a - b
                },
        ;
    }
    if a <= b {
        (a as i128 + (far * t as u128 / 1_000_000_000) as i128) as i64
    } else {
        (a as i128 - ((far * t as u128 + 999_999_999) / 1_000_000_000) as i128) as i64
    }
}

/// Interpolation never leaves the interval its end points span, starts at `a`
/// and ends at `b`.
pub proof fn lemma_blend_between(a: int, b: int, t: int)
    requires
        0 <= t <= ONE,
    ensures
        a <= b ==> a <= blend(a, b, t) <= b,
        b <= a ==> b <= blend(a, b, t) <= a,
        t == 0 ==> blend(a, b, t) == a,
        t == ONE ==> blend(a, b, t) == b,
{
    let n = a * (ONE - t) + b * t;
    if a <= b {
        assert(a * ONE <= n <= b * ONE) by (nonlinear_arith)
            requires
                a <= b,
                0 <= t <= ONE,
                n == a * (ONE - t) + b * t,
        ;
    }
    if b <= a {
        assert(b * ONE <= n <= a * ONE) by (nonlinear_arith)
            requires
                b <= a,
                0 <= t <= ONE,
                n == a * (ONE - t) + b * t,
        ;
    }
    if t == 0 {
        assert(n == a * ONE);
    }
    if t == ONE {
        assert(n == b * ONE) by (nonlinear_arith)
            requires
                t == ONE,
                n == a * (ONE - t) + b * t,
        ;
    }
}

/// Between the same end points, a larger fraction never lands further back.
pub proof fn lemma_blend_monotone(a: int, b: int, s: int, t: int)
    requires
        0 <= s <= t <= ONE,
        a <= b,
    ensures
        blend(a, b, s) <= blend(a, b, t),
{
    let m = a * (ONE - s) + b * s;
    let n = a * (ONE - t) + b * t;
    assert(m <= n) by (nonlinear_arith)
        requires
            a <= b,
            s <= t,
            m == a * (ONE - s) + b * s,
            n == a * (ONE - t) + b * t,
    ;
}

/// `num / den` rounded to the nearest whole number, halves upward.
pub open spec fn rounded(num: int, den: int) -> int {
    (2 * num + den) / (2 * den)
}

/// Divide and round to nearest, halves upward.
pub fn div_round(num: u64, den: u64) -> (r: u64)
    requires
        den > 0,
    ensures
        r == rounded(num as int, den as int),
{
    let wide: u128 = (2 * (num as u128) + den as u128) / (2 * (den as u128));
    proof {
        let n = 2 * num + den;
        let d = 2 * den as int;
        assert(n / d <= num + 1) by (nonlinear_arith)
            requires
                n == 2 * num + den,
                d == 2 * den,
                den > 0,
                num >= 0,
        ;
        if num == u64::MAX && n / d > num {
            if den == 1 {
                assert(n / d == num) by (nonlinear_arith)
                    requires
                        n == 2 * num + 1,
                        d == 2,
                ;
            } else {
                assert(n / d <= num) by (nonlinear_arith)
                    requires
                        n == 2 * num + den,
                        d == 2 * den,
                        den >= 2,
                        num >= 2,
                ;
            }
        }
    }
    wide as u64
}

/// A single-precision float, held as its IEEE-754 bit pattern: one sign bit,
/// eight exponent bits, 23 fraction bits.
#[derive(Clone, Copy, PartialEq, Eq, Structural, Debug)]
pub struct Sample {
    pub bits: u32,
}

impl Sample {
    /// Sign bit.
    pub open spec fn negative(self) -> bool {
        self.bits >= 0x8000_0000
    }

    /// The biased exponent field.
    pub open spec fn exponent(self) -> int {
        (self.bits as int / 0x80_0000) % 256
    }

    /// The fraction field.
    pub open spec fn fraction(self) -> int {
        self.bits as int % 0x80_0000
    }

    /// Neither infinite nor NaN.
    pub open spec fn finite(self) -> bool {
        self.exponent() != 255
    }

    /// Not a number.
    pub open spec fn nan(self) -> bool {
        self.exponent() == 255 && self.fraction() != 0
    }

    /// Position on the number line: ordered exactly as the values are, with
    /// both zeros at 0.
    pub open spec fn rank(self) -> int {
        if self.negative() {
            0x8000_0000 - self.bits
        } else {
            self.bits as int
        }
    }

    /// `self < other` as IEEE-754 compares: false when either is NaN.
    pub open spec fn below(self, other: Sample) -> bool {
        !self.nan() && !other.nan() && self.rank() < other.rank()
    }

    /// The significand, with the hidden bit of normal numbers made explicit.
    pub open spec fn significand(self) -> int {
        if self.exponent() == 0 {
            self.fraction()
        } else {
            self.fraction() + 0x80_0000
        }
    }

    /// The exponent the significand is scaled by, plus 150.
    pub open spec fn scale(self) -> int {
        if self.exponent() == 0 {
            1
        } else {
            self.exponent()
        }
    }

    /// Billionths in the magnitude of a finite value, rounded down: the
    /// magnitude is `significand * 2^(scale - 150)`.
    pub open spec fn billionths(self) -> int {
        if self.scale() >= 150 {
            self.significand() * ONE * pow2((self.scale() - 150) as nat)
        } else {
            self.significand() * ONE / (pow2((150 - self.scale()) as nat) as int)
        }
    }

    /// The fixed-point reading of a finite value: magnitude rounded down,
    /// saturated at [`FIXED_MAX`], with the sign put back.
    pub open spec fn fixed(self) -> int {
        let m = if self.billionths() > FIXED_MAX {
            FIXED_MAX as int
        } else {
            self.billionths()
        };
        if self.negative() {
            -m
        } else {
            m
        }
    }

    /// Neither infinite nor NaN.
    pub fn is_finite(self) -> (r: bool)
        ensures
            r == self.finite(),
    {
        (self.bits / 0x80_0000) % 256 != 255
    }

    /// Not a number.
    pub fn is_nan(self) -> (r: bool)
        ensures
            r == self.nan(),
    {
        (self.bits / 0x80_0000) % 256 == 255 && self.bits % 0x80_0000 != 0
    }

    fn place(self) -> (r: i64)
        ensures
            r == self.rank(),
    {
        if self.bits >= 0x8000_0000 {
            0x8000_0000 - self.bits as i64
        } else {
            self.bits as i64
        }
    }

    /// `self < other`, false when either is NaN.
    pub fn less(self, other: Sample) -> (r: bool)
        ensures
            r == self.below(other),
    {
        !self.is_nan() && !other.is_nan() && self.place() < other.place()
    }

    /// The fixed-point reading of a finite value.
    pub fn to_fixed(self) -> (r: i64)
        requires
            self.finite(),
        ensures
            r == self.fixed(),
            -FIXED_MAX <= r <= FIXED_MAX,
    {
        let exponent: u32 = (self.bits / 0x80_0000) % 256;
        let fraction: u32 = self.bits % 0x80_0000;
        let significand: u64 = if exponent == 0 {
            fraction as u64
        } else {
            fraction as u64 + 0x80_0000
        };
        let scale: u32 = if exponent == 0 {
            1
        } else {
            exponent
        };
        assert(significand < 0x100_0000);
        assert(significand * 1_000_000_000 < 0x100_0000 * 1_000_000_000);
        let scaled: u64 = significand * 1_000_000_000;
        let magnitude: i64 = if scale >= 160 {
            proof {
                lemma_large_scale(self);
            }
            FIXED_MAX
        } else if scale >= 150 {
            let p: u64 = two_to(scale - 150);
            proof {
                lemma_pow2_at_most(scale - 150, 9);
                assert(scaled * p <= 0x2_0000_0000_0000_00 * 512) by (nonlinear_arith)
                    requires
                        scaled <= 0x2_0000_0000_0000_00,
                        p <= 512,
                ;
                assert(scaled * p == self.billionths());
            }
            let wide: u128 = (scaled as u128) * (p as u128);
            if wide > FIXED_MAX as u128 {
                FIXED_MAX
            } else {
                wide as i64
            }
        } else if scale >= 87 {
            let p: u64 = two_to(150 - scale);
            proof {
                lemma_pow2_pos((150 - scale) as nat);
                assert(scaled / p <= scaled) by (nonlinear_arith)
                    requires
                        p > 0,
                ;
            }
            (scaled / p) as i64
        } else {
            proof {
                lemma_small_scale(self);
            }
            0
        };
        if self.bits >= 0x8000_0000 {
            -magnitude
        } else {
            magnitude
        }
    }

    /// Billionths in the magnitude of a finite value; nothing where they would
    /// not fit.
    pub fn magnitude(self) -> (r: Option<u128>)
        requires
            self.finite(),
        ensures
            r is Some <==> self.scale() < 214,
            r is Some ==> r->0 == self.billionths(),
            r is Some ==> r->0 < 0x20_0000_0000_0000_0000_0000_0000_0000,
    {
        let exponent: u32 = (self.bits / 0x80_0000) % 256;
        let fraction: u32 = self.bits % 0x80_0000;
        let significand: u64 = if exponent == 0 {
            fraction as u64
        } else {
            fraction as u64 + 0x80_0000
        };
        let scale: u32 = if exponent == 0 {
            1
        } else {
            exponent
        };
        if scale >= 214 {
            return None;
        }
        assert(significand < 0x100_0000);
        let scaled: u128 = significand as u128 * 1_000_000_000;
        if scale >= 150 {
            let p: u64 = two_to(scale - 150);
            assert(0 <= scaled * p < 0x40_0000_0000_0000 * 0x8000_0000_0000_0000)
                by (nonlinear_arith)
                requires
                    0 <= scaled < 0x40_0000_0000_0000,
                    0 <= p <= 0x8000_0000_0000_0000,
            ;
            Some(scaled * p as u128)
        } else if scale >= 87 {
            let p: u64 = two_to(150 - scale);
            proof {
                lemma_pow2_pos((150 - scale) as nat);
                assert(0 <= scaled / (p as u128) <= scaled) by (nonlinear_arith)
                    requires
                        p > 0,
                        scaled >= 0,
                ;
            }
            Some(scaled / p as u128)
        } else {
            proof {
                lemma_small_scale(self);
            }
            Some(0)
        }
    }
}

/// `2^k` for `k` that fits in 64 bits.
fn two_to(k: u32) -> (r: u64)
    requires
        k < 64,
    ensures
        r == pow2(k as nat),
        r <= 0x8000_0000_0000_0000,
{
    let mut p: u64 = 1;
    let mut i: u32 = 0;
    proof {
        vstd::arithmetic::power2::lemma2_to64();
    }
    while i < k
        invariant
            i <= k < 64,
            p == pow2(i as nat),
            p <= 0x8000_0000_0000_0000,
        decreases k - i,
    {
        proof {
            lemma_pow2_unfold((i + 1) as nat);
            vstd::arithmetic::power2::lemma2_to64();
            lemma_pow2_at_most(i + 1, 63);
            vstd::arithmetic::power2::lemma2_to64_rest();
        }
        p = 2 * p;
        i = i + 1;
    }
    p
}

proof fn lemma_pow2_at_most(a: int, b: int)
    requires
        0 <= a <= b,
    ensures
        0 < pow2(a as nat) <= pow2(b as nat),
        b == 9 ==> pow2(a as nat) <= 512,
{
    lemma_pow2_pos(a as nat);
    lemma_pow2_pos((b - a) as nat);
    lemma_pow2_adds(a as nat, (b - a) as nat);
    let x = pow2(a as nat) as int;
    let y = pow2((b - a) as nat) as int;
    assert(x <= x * y) by (nonlinear_arith)
        requires
            x >= 0,
            y >= 1,
    ;
    vstd::arithmetic::power2::lemma2_to64();
}

/// From scale 160 up every normal number saturates.
proof fn lemma_large_scale(s: Sample)
    requires
        s.finite(),
        s.scale() >= 160,
    ensures
        s.billionths() > FIXED_MAX,
{
    let k = (s.scale() - 150) as nat;
    lemma_pow2_at_most(10, k as int);
    vstd::arithmetic::power2::lemma2_to64();
    let n = s.significand() * ONE;
    let p = pow2(k) as int;
    assert(n * p >= 0x80_0000 * 1_000_000_000 * 1024) by (nonlinear_arith)
        requires
            n >= 0x80_0000 * 1_000_000_000,
            p >= 1024,
    ;
}

/// From scale 214 up, billionths no longer fit.
pub proof fn lemma_endless(s: Sample)
    requires
        s.finite(),
        s.scale() >= 214,
    ensures
        s.billionths() >= 0x80_0000 * 0x1_0000_0000_0000_0000 * ONE,
{
    let k = (s.scale() - 150) as nat;
    lemma_pow2_at_most(64, k as int);
    vstd::arithmetic::power2::lemma2_to64();
    let n = s.significand() * ONE;
    let p = pow2(k) as int;
    assert(n * p >= 0x80_0000 * 1_000_000_000 * 0x1_0000_0000_0000_0000) by (nonlinear_arith)
        requires
            n >= 0x80_0000 * 1_000_000_000,
            p >= 0x1_0000_0000_0000_0000,
    ;
}

/// Below scale 87 every value is smaller than a billionth.
proof fn lemma_small_scale(s: Sample)
    requires
        s.finite(),
        s.scale() < 87,
    ensures
        s.billionths() == 0,
{
    let d = (150 - s.scale()) as nat;
    lemma_pow2_at_most(63, d as int);
    vstd::arithmetic::power2::lemma2_to64_rest();
    let n = s.significand() * ONE;
    assert(0 <= n < 0x100_0000 * 1_000_000_000);
    assert(n / (pow2(d) as int) == 0) by {
        vstd::arithmetic::div_mod::lemma_basic_div(n, pow2(d) as int);
    }
}

/// Billionths of `m * 2^(scale - 150)`, rounded down.
spec fn billionths_at(m: int, scale: int) -> int {
    if scale >= 150 {
        m * ONE * pow2((scale - 150) as nat)
    } else {
        m * ONE / (pow2((150 - scale) as nat) as int)
    }
}

proof fn lemma_larger_significand(m: int, n: int, scale: int)
    requires
        0 <= m <= n,
    ensures
        billionths_at(m, scale) <= billionths_at(n, scale),
{
    if scale >= 150 {
        let p = pow2((scale - 150) as nat) as int;
        lemma_pow2_pos((scale - 150) as nat);
        assert(m * ONE * p <= n * ONE * p) by (nonlinear_arith)
            requires
                m * ONE <= n * ONE,
                p >= 0,
        ;
    } else {
        lemma_pow2_pos((150 - scale) as nat);
        vstd::arithmetic::div_mod::lemma_div_is_ordered(
            m * ONE,
            n * ONE,
            pow2((150 - scale) as nat) as int,
        );
    }
}

/// Twice the significand is the next scale.
proof fn lemma_next_scale(m: int, scale: int)
    requires
        0 <= m,
    ensures
        billionths_at(2 * m, scale) == billionths_at(m, scale + 1),
{
    let n = m * ONE;
    assert(2 * m * ONE == 2 * n) by (nonlinear_arith)
        requires
            n == m * ONE,
    ;
    if scale >= 150 {
        let e = (scale - 150) as nat;
        let p = pow2(e) as int;
        lemma_pow2_unfold((e + 1) as nat);
        let q = pow2((e + 1) as nat) as int;
        assert(q == 2 * p);
        assert((2 * n) * p == n * q) by (nonlinear_arith)
            requires
                q == 2 * p,
        ;
        assert((scale + 1 - 150) as nat == e + 1);
        assert(billionths_at(2 * m, scale) == (2 * n) * p);
        assert(billionths_at(m, scale + 1) == n * q);
    } else if scale == 149 {
        vstd::arithmetic::power2::lemma2_to64();
        assert(pow2(1) == 2 && pow2(0) == 1);
        assert(n * 1 == n);
        assert(billionths_at(2 * m, scale) == (2 * n) / 2);
        assert(billionths_at(m, scale + 1) == n * 1);
    } else {
        let e = (150 - scale) as nat;
        let p = pow2((e - 1) as nat) as int;
        lemma_pow2_pos((e - 1) as nat);
        lemma_pow2_unfold(e);
        vstd::arithmetic::div_mod::lemma_div_denominator(2 * n, 2, p);
        assert((150 - (scale + 1)) as nat == (e - 1) as nat);
        assert(billionths_at(2 * m, scale) == (2 * n) / (2 * p));
        assert(billionths_at(m, scale + 1) == n / p);
    }
}

proof fn lemma_larger_scale(m: int, s: int, t: int)
    requires
        0 <= m,
        s <= t,
    ensures
        billionths_at(m, s) <= billionths_at(m, t),
    decreases t - s,
{
    if s < t {
        lemma_next_scale(m, s);
        lemma_larger_significand(m, 2 * m, s);
        lemma_larger_scale(m, s + 1, t);
    }
}

proof fn lemma_magnitudes_in_order(a: Sample, b: Sample)
    requires
        a.bits % 0x8000_0000 <= b.bits % 0x8000_0000,
    ensures
        a.billionths() <= b.billionths(),
        0 <= a.billionths(),
        a.significand() == 0 ==> a.billionths() == 0,
{
    let (m, n) = (a.significand(), b.significand());
    let (s, t) = (a.scale(), b.scale());
    assert(a.billionths() == billionths_at(m, s));
    assert(b.billionths() == billionths_at(n, t));
    lemma_larger_significand(0, m, s);
    assert(billionths_at(0, s) == 0) by {
        assert(0 * ONE == 0);
        if s >= 150 {
            assert(0 * pow2((s - 150) as nat) == 0) by (nonlinear_arith);
        } else {
            lemma_pow2_pos((150 - s) as nat);
            vstd::arithmetic::div_mod::lemma_div_of0(pow2((150 - s) as nat) as int);
        }
    }
    assert(a.exponent() <= b.exponent());
    if s == t {
        lemma_larger_significand(m, n, s);
    } else {
        lemma_larger_significand(m, 0x100_0000, s);
        lemma_next_scale(0x80_0000, s);
        lemma_larger_scale(0x80_0000, s + 1, t);
        lemma_larger_significand(0x80_0000, n, t);
    }
}

/// Reading a float as fixed point keeps its place: of two finite values, the
/// larger one never reads smaller.
pub proof fn law_fixed_keeps_order(a: Sample, b: Sample)
    requires
        a.finite(),
        b.finite(),
        a.rank() <= b.rank(),
    ensures
        a.fixed() <= b.fixed(),
{
    if a.negative() {
        if b.negative() {
            lemma_magnitudes_in_order(b, a);
        } else {
            lemma_magnitudes_in_order(a, a);
            lemma_magnitudes_in_order(b, b);
        }
    } else if b.negative() {
        // Only the two zeros are left.
        lemma_magnitudes_in_order(a, b);
        lemma_magnitudes_in_order(b, a);
    } else {
        lemma_magnitudes_in_order(a, b);
    }
}

/// `n / d` rounded toward zero, for a positive `d`.
pub open spec fn trunc(n: int, d: int) -> int {
    if n >= 0 {
        n / d
    } else {
        -((-n) / d)
    }
}

/// Where `|n| <= m * d`, the quotient stays within `m`; it has the sign of `n`.
pub proof fn lemma_trunc(n: int, d: int, m: int)
    requires
        d > 0,
        -m * d <= n <= m * d,
    ensures
        -m <= trunc(n, d) <= m,
        n >= 0 ==> trunc(n, d) >= 0,
        n <= 0 ==> trunc(n, d) <= 0,
{
    let a = if n >= 0 {
        n
    } else {
        -n
    };
    assert(a <= m * d) by (nonlinear_arith)
        requires
            a == n || a == -n,
            -m * d <= n <= m * d,
    ;
    assert(0 <= a / d <= m) by (nonlinear_arith)
        requires
            0 <= a <= m * d,
            d > 0,
    ;
}

/// A larger numerator gives a quotient at least as large.
pub proof fn lemma_trunc_monotone(a: int, b: int, d: int)
    requires
        d > 0,
        a <= b,
    ensures
        trunc(a, d) <= trunc(b, d),
{
    if a >= 0 {
        vstd::arithmetic::div_mod::lemma_div_is_ordered(a, b, d);
    } else if b < 0 {
        vstd::arithmetic::div_mod::lemma_div_is_ordered(-b, -a, d);
    } else {
        vstd::arithmetic::div_mod::lemma_div_pos_is_pos(b, d);
        vstd::arithmetic::div_mod::lemma_div_pos_is_pos(-a, d);
    }
}

/// Quotient and remainder of `a * c` by `r`, for a share `a` of `r`.
fn share_of(a: u128, c: u128, r: u128) -> (qr: (u128, u128))
    requires
        a < r <= 0x4000_0000_0000_0000_0000_0000_0000_0000,
    ensures
        a * c == qr.0 * r + qr.1,
        qr.1 < r,
        qr.0 <= c,
    decreases c,
{
    if c == 0 {
        return (0, 0);
    }
    let half: u128 = c / 2;
    let (q, rem): (u128, u128) = share_of(a, half, r);
    let odd: bool = c % 2 == 1;
    let sum: u128 = 2 * rem + if odd {
        a
    } else {
        0
    };
    let carry: u128 = if sum >= r {
        if sum - r >= r {
            2
        } else {
            1
        }
    } else {
        0
    };
    let ghost total = a * c;
    proof {
        assert(carry * r == if carry == 2 {
            2 * r
        } else if carry == 1 {
            r as int
        } else {
            0
        }) by (nonlinear_arith)
            requires
                carry == 0 || carry == 1 || carry == 2,
        ;
        assert(total == 2 * (a * half) + if odd {
            a as int
        } else {
            0
        }) by (nonlinear_arith)
            requires
                total == a * c,
                c == 2 * half + if odd {
                    1int
                } else {
                    0
                },
        ;
        assert((2 * q + carry) * r == 2 * (q * r) + carry * r) by (nonlinear_arith);
        let rest = sum - carry * r;
        assert(2 * q + carry <= c) by (nonlinear_arith)
            requires
                total == (2 * q + carry) * r + rest,
                total == a * c,
                0 <= rest,
                0 <= a < r,
                0 <= c,
        ;
    }
    (2 * q + carry, sum - carry * r)
}

/// Quotient and remainder of `a * c` by `r`, however large the product.
pub fn wide_div(a: u128, c: u128, r: u128) -> (qr: (u128, u128))
    requires
        0 < r <= 0x4000_0000_0000_0000_0000_0000_0000_0000,
        a * c < 0x8000_0000_0000_0000_0000_0000_0000_0000 * r,
    ensures
        qr.0 == a * c / (r as int),
        qr.1 == a * c % (r as int),
        a * c == qr.0 * r + qr.1,
        qr.1 < r,
{
    if a <= 0xFFFF_FFFF_FFFF_FFFF && c <= 0xFFFF_FFFF_FFFF_FFFF {
        assert(0 <= a * c <= 0xFFFF_FFFF_FFFF_FFFF * 0xFFFF_FFFF_FFFF_FFFF) by (nonlinear_arith)
            requires
                0 <= a <= 0xFFFF_FFFF_FFFF_FFFF,
                0 <= c <= 0xFFFF_FFFF_FFFF_FFFF,
        ;
        proof {
            vstd::arithmetic::div_mod::lemma_fundamental_div_mod(a * c, r as int);
            let q = a * c / (r as int);
            assert(q * r == r * q) by (nonlinear_arith);
        }
        return (a * c / r, a * c % r);
    }
    let whole: u128 = a / r;
    let part: u128 = a % r;
    let (q, rem): (u128, u128) = share_of(part, c, r);
    proof {
        vstd::arithmetic::div_mod::lemma_fundamental_div_mod(a as int, r as int);
        assert(a * c == (whole * c) * r + part * c) by (nonlinear_arith)
            requires
                a == r * whole + part,
        ;
        assert((whole * c + q) * r == (whole * c) * r + q * r) by (nonlinear_arith);
        let t = whole * c + q;
        assert(whole * c >= 0) by (nonlinear_arith)
            requires
                whole >= 0,
                c >= 0,
        ;
        assert(t < 0x8000_0000_0000_0000_0000_0000_0000_0000) by (nonlinear_arith)
            requires
                t * r + rem < 0x8000_0000_0000_0000_0000_0000_0000_0000 * r,
                rem >= 0,
                r > 0,
        ;
        vstd::arithmetic::div_mod::lemma_fundamental_div_mod_converse(
            a * c,
            r as int,
            t,
            rem as int,
        );
    }
    (whole * c + q, rem)
}

/// `a * b / d` without intermediate overflow, rounded toward zero.
pub fn mul_div(a: i64, b: i64, d: i64) -> (r: i64)
    requires
        d > 0,
        -0x7FFF_FFFF_FFFF_FFFF * d <= a * b <= 0x7FFF_FFFF_FFFF_FFFF * d,
    ensures
        r == trunc(a * b, d as int),
{
    let neg: bool = (a < 0) != (b < 0);
    let x: u128 = if a < 0 {
        (-(a as i128)) as u128
    } else {
        a as u128
    };
    let y: u128 = if b < 0 {
        (-(b as i128)) as u128
    } else {
        b as u128
    };
    let ghost n = a * b;
    proof {
        lemma_trunc(n, d as int, 0x7FFF_FFFF_FFFF_FFFF);
        assert(0 <= x * y <= 0x8000_0000_0000_0000 * 0x8000_0000_0000_0000) by (nonlinear_arith)
            requires
                0 <= x <= 0x8000_0000_0000_0000,
                0 <= y <= 0x8000_0000_0000_0000,
        ;
        assert(0x8000_0000_0000_0000 * 0x8000_0000_0000_0000
            == 0x4000_0000_0000_0000_0000_0000_0000_0000) by (nonlinear_arith);
        assert(x * y == if neg {
            -n
        } else {
            n
        }) by (nonlinear_arith)
            requires
                n == a * b,
                x == (if a < 0 {
                    -a
                } else {
                    a as int
                }),
                y == (if b < 0 {
                    -b
                } else {
                    b as int
                }),
                neg == ((a < 0) != (b < 0)),
        ;
        assert(neg ==> n <= 0) by (nonlinear_arith)
            requires
                n == a * b,
                neg == ((a < 0) != (b < 0)),
        ;
    }
    let q: u128 = x * y / (d as u128);
    assert(q == (x * y) as int / d as int);
    assert(n == 0 ==> q == 0) by {
        if n == 0 {
            vstd::arithmetic::div_mod::lemma_basic_div(0, d as int);
        }
    }
    if neg {
        -(q as i64)
    } else {
        q as i64
    }
}

/// `r` is the square root of `q`, rounded down.
pub open spec fn is_floor_root(q: int, r: int) -> bool {
    r >= 0 && r * r <= q < (r + 1) * (r + 1)
}

/// The square root of a nonnegative `q`, rounded down.
pub open spec fn floor_root(q: int) -> int {
    choose|r: int| is_floor_root(q, r)
}

/// There is only one.
pub proof fn lemma_floor_root(q: int, r: int)
    requires
        is_floor_root(q, r),
    ensures
        floor_root(q) == r,
{
    let s = floor_root(q);
    assert(is_floor_root(q, s));
    if s < r {
        assert((s + 1) * (s + 1) <= r * r) by (nonlinear_arith)
            requires
                0 <= s < r,
        ;
    }
    if r < s {
        assert((r + 1) * (r + 1) <= s * s) by (nonlinear_arith)
            requires
                0 <= r < s,
        ;
    }
}

/// Every number has a square root, rounded down, and it grows with the number.
pub proof fn lemma_floor_root_at_least(q: int, r: int)
    requires
        0 <= r,
        r * r <= q,
    ensures
        is_floor_root(q, floor_root(q)),
        floor_root(q) >= r,
    decreases q - r,
{
    if (r + 1) * (r + 1) <= q {
        assert(r < q) by (nonlinear_arith)
            requires
                (r + 1) * (r + 1) <= q,
                0 <= r,
        ;
        lemma_floor_root_at_least(q, r + 1);
    } else {
        lemma_floor_root(q, r);
    }
}

/// Square root, rounded down.
pub fn square_root(q: u128) -> (r: u64)
    requires
        q < 0x4000_0000_0000_0000_0000_0000_0000_0000,
    ensures
        is_floor_root(q as int, r as int),
        r == floor_root(q as int),
{
    let mut lo: u64 = 0;
    let mut hi: u64 = 0x8000_0000_0000_0000;
    assert(0x8000_0000_0000_0000 * 0x8000_0000_0000_0000
        == 0x4000_0000_0000_0000_0000_0000_0000_0000) by (nonlinear_arith);
    while lo + 1 < hi
        invariant
            lo < hi <= 0x8000_0000_0000_0000,
            lo * lo <= q < hi * hi,
        decreases hi - lo,
    {
        let mid: u64 = lo + (hi - lo) / 2;
        assert(0 <= mid * mid <= 0x8000_0000_0000_0000 * 0x8000_0000_0000_0000)
            by (nonlinear_arith)
            requires
                0 <= mid <= 0x8000_0000_0000_0000,
        ;
        if (mid as u128) * (mid as u128) <= q {
            lo = mid;
        } else {
            hi = mid;
        }
    }
    assert(hi == lo + 1);
    proof {
        lemma_floor_root(q as int, lo as int);
    }
    lo
}

/// A blend shares its two ends out: `t` billionths of the second, the rest of the
/// first. At 0 it is the first, at one the second.
pub proof fn law_blend(a: int, b: int, t: int)
    ensures
        0 <= a * (1_000_000_000 - t) + b * t - 1_000_000_000 * blend(a, b, t) < 1_000_000_000,
        t == 0 ==> blend(a, b, t) == a,
        t == 1_000_000_000 ==> blend(a, b, t) == b,
        a == b ==> blend(a, b, t) == a,
{
    if a == b {
        assert(a * (1_000_000_000 - t) + b * t == a * 1_000_000_000) by (nonlinear_arith)
            requires
                a == b,
        ;
    }
    if t == 0 {
        assert(a * (1_000_000_000 - t) + b * t == a * 1_000_000_000) by (nonlinear_arith)
            requires
                t == 0,
        ;
    }
    if t == 1_000_000_000 {
        assert(a * (1_000_000_000 - t) + b * t == b * 1_000_000_000) by (nonlinear_arith)
            requires
                t == 1_000_000_000,
        ;
    }
}

/// A rounded quotient is the nearest whole number, the upper one of two alike.
pub proof fn law_rounded(num: int, den: int)
    requires
        den > 0,
    ensures
        -den <= 2 * (num - den * rounded(num, den)) < den,
{
    let (n, d) = (2 * num + den, 2 * den);
    vstd::arithmetic::div_mod::lemma_fundamental_div_mod(n, d);
    vstd::arithmetic::div_mod::lemma_mod_bound(n, d);
    let q = n / d;
    assert(d * q == 2 * (den * q)) by (nonlinear_arith)
        requires
            d == 2 * den,
    ;
}

/// A limited value lies within its limits, and is the value itself where that does.
pub proof fn law_clamped(v: int, lo: int, hi: int)
    requires
        lo <= hi,
    ensures
        lo <= clamped(v, lo, hi) <= hi,
        lo <= v <= hi ==> clamped(v, lo, hi) == v,
        v < lo ==> clamped(v, lo, hi) == lo,
        hi < v ==> clamped(v, lo, hi) == hi,
{
}

/// A truncated quotient falls short of the exact one by less than one, towards zero,
/// and is odd in its dividend.
pub proof fn law_trunc(n: int, d: int)
    requires
        d > 0,
    ensures
        n >= 0 ==> 0 <= n - d * trunc(n, d) < d,
        n <= 0 ==> 0 <= d * trunc(n, d) - n < d,
        trunc(-n, d) == -trunc(n, d),
{
    let m = if n >= 0 {
        n
    } else {
        -n
    };
    vstd::arithmetic::div_mod::lemma_fundamental_div_mod(m, d);
    vstd::arithmetic::div_mod::lemma_mod_bound(m, d);
    let q = m / d;
    assert(d * (-q) == -(d * q)) by (nonlinear_arith);
    if n == 0 {
        assert(q == 0) by (nonlinear_arith)
            requires
                d * q <= 0 < d * q + d,
                d > 0,
        ;
    }
}

/// A finite sample is worth its significand times a power of two, which is one per
/// 2^150 at scale zero and doubles with each step of the exponent, rounded down in
/// magnitude to billionths; the topmost bit is its sign.
pub proof fn law_sample_value(s: Sample)
    requires
        s.finite(),
    ensures
        ({
            let exponent = (s.bits as int / 8_388_608) % 256;
            let digits = s.bits as int % 8_388_608;
            let significand = if exponent == 0 {
                digits
            } else {
                digits + 8_388_608
            };
            let scale = if exponent == 0 {
                1
            } else {
                exponent
            };
            let size = if s.bits < 0x8000_0000 {
                s.fixed()
            } else {
                -s.fixed()
            };
            &&& exponent < 255
            &&& 0 <= size <= 0x4000_0000_0000_0000
            &&& scale < 150 ==> {
                let one = pow2((150 - scale) as nat) as int;
                0 <= significand * 1_000_000_000 - size * one < one
            }
            &&& 150 <= scale && size < 0x4000_0000_0000_0000 ==> size == significand
                * 1_000_000_000 * pow2((scale - 150) as nat)
        }),
{
    let significand = s.significand();
    let scale = s.scale();
    if scale < 150 {
        lemma_pow2_pos((150 - scale) as nat);
        let one = pow2((150 - scale) as nat) as int;
        let n = significand * 1_000_000_000;
        vstd::arithmetic::div_mod::lemma_fundamental_div_mod(n, one);
        vstd::arithmetic::div_mod::lemma_mod_bound(n, one);
        let q = n / one;
        assert(one * q == q * one) by (nonlinear_arith);
        assert(0 <= q <= n) by (nonlinear_arith)
            requires
                one * q <= n < one * q + one,
                n >= 0,
                one >= 1,
        ;
    } else {
        lemma_pow2_pos((scale - 150) as nat);
        let p = pow2((scale - 150) as nat) as int;
        let n = significand * 1_000_000_000;
        assert(n * p >= 0) by (nonlinear_arith)
            requires
                n >= 0,
                p >= 1,
        ;
    }
}

/// Samples compare as the numbers they stand for: of two positive ones the one with
/// the larger bit pattern is the larger, of two negative ones the smaller, and every
/// negative one lies below every positive one but for the two zeros. What is not a
/// number is below nothing.
pub proof fn law_below(a: Sample, b: Sample)
    ensures
        a.nan() || b.nan() ==> !a.below(b),
        !a.nan() && !b.nan() && a.bits < 0x8000_0000 && b.bits < 0x8000_0000 ==> (a.below(b)
            <==> a.bits < b.bits),
        !a.nan() && !b.nan() && a.bits >= 0x8000_0000 && b.bits >= 0x8000_0000 ==> (a.below(b)
            <==> a.bits > b.bits),
        !a.nan() && !b.nan() && a.bits > 0x8000_0000 && b.bits < 0x8000_0000 ==> a.below(b),
        a.bits < 0x8000_0000 && b.bits >= 0x8000_0000 ==> !a.below(b),
        a.bits == 0x8000_0000 && b.bits == 0 ==> !a.below(b),
{
}

} // verus!
