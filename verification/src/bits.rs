//! Single-precision numbers by their bits.
//!
//! Frequencies, EVs and weights travel through the library unchanged, are
//! compared, and are packed to half precision; none of that needs arithmetic on
//! them. So a number is held as its 32 bits (sign, 8 bits of exponent, 23 of
//! fraction), and every operation here is on integers.

use vstd::prelude::*;

verus! {

/// A single-precision number, by its bits.
#[derive(Debug, Clone, Copy, PartialEq, Eq, Structural)]
pub struct F32 {
    pub bits: u32,
}

impl F32 {
    /// The number with these bits.
    pub fn from_bits(bits: u32) -> (r: Self)
        ensures
            r.bits == bits,
    {
        F32 { bits }
    }

    /// Whether the sign bit is set.
    pub open spec fn negative(self) -> bool {
        self.bits >= 0x8000_0000
    }

    /// The 8 exponent bits.
    pub open spec fn exponent(self) -> int {
        (self.bits as int / 0x80_0000) % 0x100
    }

    /// The 23 fraction bits.
    pub open spec fn fraction(self) -> int {
        self.bits as int % 0x80_0000
    }

    /// The bits below the sign: they grow with the magnitude.
    pub open spec fn magnitude_bits(self) -> int {
        self.bits as int % 0x8000_0000
    }

    /// Not a number: exponent all ones, fraction not zero.
    pub open spec fn nan(self) -> bool {
        self.magnitude_bits() > 0x7f80_0000
    }

    /// Neither infinite nor not a number.
    pub open spec fn finite(self) -> bool {
        self.magnitude_bits() < 0x7f80_0000
    }

    /// A number that orders as the value does, for what is a number; both
    /// zeros give 0.
    pub open spec fn rank(self) -> int {
        if self.negative() {
            -self.magnitude_bits()
        } else {
            self.magnitude_bits()
        }
    }

    /// `self < other`: false as soon as one is not a number.
    pub open spec fn below(self, other: F32) -> bool {
        !self.nan() && !other.nan() && self.rank() < other.rank()
    }

    /// `self >= other`: false as soon as one is not a number.
    pub open spec fn reaches(self, other: F32) -> bool {
        !self.nan() && !other.nan() && self.rank() >= other.rank()
    }

    /// The place of the number in the total order of all bit patterns: negative
    /// before positive, then by magnitude.
    pub open spec fn total_rank(self) -> int {
        if self.negative() {
            0xffff_ffff - self.bits
        } else {
            0x8000_0000 + self.bits
        }
    }

    /// Computes [`F32::total_rank`].
    pub fn total_key(self) -> (r: u32)
        ensures
            r == self.total_rank(),
    {
        if self.bits >= 0x8000_0000 {
            0xffff_ffff - self.bits
        } else {
            0x8000_0000 + self.bits
        }
    }

    /// Whether this is a number and not an infinity.
    pub fn is_finite(self) -> (r: bool)
        ensures
            r == self.finite(),
    {
        self.bits % 0x8000_0000 < 0x7f80_0000
    }

    /// Tests for [`F32::nan`].
    pub fn is_nan(self) -> (r: bool)
        ensures
            r == self.nan(),
    {
        self.bits % 0x8000_0000 > 0x7f80_0000
    }

    fn signed(self) -> (r: i64)
        ensures
            r == self.rank(),
    {
        let m: i64 = (self.bits % 0x8000_0000) as i64;
        if self.bits >= 0x8000_0000 {
            -m
        } else {
            m
        }
    }

    /// Tests for [`F32::below`].
    pub fn lt(self, other: F32) -> (r: bool)
        ensures
            r == self.below(other),
    {
        !self.is_nan() && !other.is_nan() && self.signed() < other.signed()
    }

    /// Tests for [`F32::reaches`].
    pub fn ge(self, other: F32) -> (r: bool)
        ensures
            r == self.reaches(other),
    {
        !self.is_nan() && !other.is_nan() && self.signed() >= other.signed()
    }

    /// The magnitude of a finite number, in units of the smallest one.
    pub open spec fn magnitude(self) -> int {
        if self.exponent() == 0 {
            self.fraction()
        } else {
            (0x80_0000 + self.fraction()) * vstd::arithmetic::power2::pow2(
                (self.exponent() - 1) as nat,
            )
        }
    }
}

// ---------------------------------------------------------------- half precision

/// The magnitude of the half-precision number whose 15 low bits are `k`, in the
/// units of [`F32::magnitude`]. `0x7c00`, which stands for infinity, counts as
/// the number that would follow the largest finite one.
pub open spec fn half_magnitude(k: int) -> int {
    if k < 0x400 {
        k * vstd::arithmetic::power2::pow2(125)
    } else {
        (0x400 + k % 0x400) * vstd::arithmetic::power2::pow2((k / 0x400 + 124) as nat)
    }
}

/// `k` is the half-precision magnitude nearest to `m`; of two that are equally
/// near it is the one with an even last bit.
pub open spec fn nearest_half(m: int, k: int) -> bool {
    &&& 0 <= k <= 0x7c00
    &&& k > 0 ==> {
        &&& 2 * m >= half_magnitude(k - 1) + half_magnitude(k)
        &&& 2 * m == half_magnitude(k - 1) + half_magnitude(k) ==> k % 2 == 0
    }
    &&& k < 0x7c00 ==> {
        &&& 2 * m <= half_magnitude(k) + half_magnitude(k + 1)
        &&& 2 * m == half_magnitude(k) + half_magnitude(k + 1) ==> k % 2 == 0
    }
}

/// Each step up the half-precision codes adds one unit in the last place.
pub proof fn lemma_half_step(k: int)
    requires
        0 <= k < 0x7c00,
    ensures
        k < 0x400 ==> half_magnitude(k + 1) == half_magnitude(k)
            + vstd::arithmetic::power2::pow2(125),
        k >= 0x400 ==> half_magnitude(k + 1) == half_magnitude(k)
            + vstd::arithmetic::power2::pow2((k / 0x400 + 124) as nat),
        half_magnitude(k) < half_magnitude(k + 1),
{
    let p = vstd::arithmetic::power2::pow2(125) as int;
    vstd::arithmetic::power2::lemma_pow2_pos(125);
    if k < 0x3ff {
        assert((k + 1) * p == k * p + p) by (nonlinear_arith);
    } else if k == 0x3ff {
        assert((0x400int % 0x400) == 0);
        assert((0x3ff + 1) * p == 0x3ff * p + p) by (nonlinear_arith);
    } else {
        let e = (k / 0x400 + 124) as nat;
        let q = vstd::arithmetic::power2::pow2(e) as int;
        vstd::arithmetic::power2::lemma_pow2_pos(e);
        if k % 0x400 == 0x3ff {
            assert((k + 1) / 0x400 == k / 0x400 + 1);
            assert((k + 1) % 0x400 == 0);
            vstd::arithmetic::power2::lemma_pow2_unfold(e + 1);
            assert(((k + 1) / 0x400 + 124) as nat == e + 1);
            assert(0x400 * (2 * q) == (0x400 + 0x3ff) * q + q) by (nonlinear_arith);
        } else {
            assert((k + 1) / 0x400 == k / 0x400);
            assert((k + 1) % 0x400 == k % 0x400 + 1);
            let f = 0x400 + k % 0x400;
            assert((f + 1) * q == f * q + q) by (nonlinear_arith);
        }
    }
}

/// Half-precision magnitudes grow with their codes.
pub proof fn lemma_half_increases(j: int, k: int)
    requires
        0 <= j < k <= 0x7c00,
    ensures
        half_magnitude(j) < half_magnitude(k),
    decreases k - j,
{
    lemma_half_step(k - 1);
    if j < k - 1 {
        lemma_half_increases(j, k - 1);
    }
}

/// What [`f16_bits`] knows after cutting a magnitude `m` off at a code: the
/// remainder, and half the distance to the next code, in the same unit.
pub open spec fn cut(m: int, code: int, rem: int, half: int, unit: int) -> bool {
    &&& 0 <= code < 0x7c00
    &&& 0 <= rem < 2 * half
    &&& unit > 0
    &&& m == half_magnitude(code) + rem * unit
    &&& half_magnitude(code + 1) == half_magnitude(code) + 2 * half * unit
}

proof fn lemma_cut_rounds(m: int, code: int, rem: int, half: int, unit: int)
    requires
        cut(m, code, rem, half, unit),
    ensures
        rem < half ==> nearest_half(m, code),
        rem > half ==> nearest_half(m, code + 1),
        rem == half && code % 2 == 0 ==> nearest_half(m, code),
        rem == half && code % 2 == 1 ==> nearest_half(m, code + 1),
{
    if code > 0 {
        lemma_half_step(code - 1);
    }
    if code + 1 < 0x7c00 {
        lemma_half_step(code + 1);
    }
    assert(rem * unit >= 0) by (nonlinear_arith)
        requires
            unit > 0,
            rem >= 0,
    ;
    assert(rem * unit < 2 * half * unit) by (nonlinear_arith)
        requires
            rem < 2 * half,
            unit > 0,
    ;
    if rem > half {
        assert(2 * (rem * unit) > 2 * half * unit) by (nonlinear_arith)
            requires
                rem > half,
                unit > 0,
        ;
    } else if rem < half {
        assert(2 * (rem * unit) < 2 * half * unit) by (nonlinear_arith)
            requires
                rem < half,
                unit > 0,
        ;
    } else {
        assert(2 * (rem * unit) == 2 * half * unit) by (nonlinear_arith)
            requires
                rem == half,
        ;
    }
}

/// Cuts a normal number that stays normal: `(code, remainder, half)`.
fn cut_normal(exp: u32, man: u32) -> (r: (u16, u32, u32))
    requires
        113 <= exp < 143,
        man < 0x80_0000,
    ensures
        cut(
            (0x80_0000 + man) * vstd::arithmetic::power2::pow2((exp - 1) as nat),
            r.0 as int,
            r.1 as int,
            r.2 as int,
            vstd::arithmetic::power2::pow2((exp - 1) as nat) as int,
        ),
{
    let e: u32 = exp - 112;
    let code: u16 = (e * 0x400 + man / 0x2000) as u16;
    let rem: u32 = man % 0x2000;
    let half: u32 = 0x1000;
    proof {
        let unit = vstd::arithmetic::power2::pow2((exp - 1) as nat) as int;
        vstd::arithmetic::power2::lemma_pow2_pos((exp - 1) as nat);
        vstd::arithmetic::power2::lemma_pow2_adds(13, (exp - 1) as nat);
        assert(vstd::arithmetic::power2::pow2(13) == 0x2000) by {
            vstd::arithmetic::power2::lemma2_to64();
        }
        let g = man as int / 0x2000;
        assert(code as int / 0x400 == e);
        assert(code as int % 0x400 == g);
        let big = vstd::arithmetic::power2::pow2((exp + 12) as nat) as int;
        assert(big == 0x2000 * unit);
        assert(half_magnitude(code as int) == (0x400 + g) * big);
        assert((0x80_0000 + man as int) * unit == (0x400 + g) * (0x2000 * unit) + rem * unit)
            by (nonlinear_arith)
            requires
                man as int == g * 0x2000 + rem,
        ;
        lemma_half_step(code as int);
        assert(2 * half * unit == 0x2000 * unit);
    }
    (code, rem, half)
}

/// Cuts a number that becomes subnormal: `(code, remainder, half)`.
fn cut_subnormal(exp: u32, man: u32) -> (r: (u16, u32, u32))
    requires
        102 <= exp < 113,
        man < 0x80_0000,
    ensures
        cut(
            (0x80_0000 + man) * vstd::arithmetic::power2::pow2((exp - 1) as nat),
            r.0 as int,
            r.1 as int,
            r.2 as int,
            vstd::arithmetic::power2::pow2((exp - 1) as nat) as int,
        ),
{
    let shift: u32 = 126 - exp;
    let full: u32 = man + 0x80_0000;
    proof {
        vstd::arithmetic::power2::lemma2_to64();
        vstd::arithmetic::power2::lemma_pow2_unfold(shift as nat);
        vstd::arithmetic::power2::lemma_pow2_pos((shift - 1) as nat);
        if shift < 24 {
            vstd::arithmetic::power2::lemma_pow2_strictly_increases(shift as nat, 24);
        }
        if shift > 14 {
            vstd::arithmetic::power2::lemma_pow2_strictly_increases(14, shift as nat);
        }
        assert(vstd::arithmetic::power2::pow2(24) == 0x100_0000);
        assert(vstd::arithmetic::power2::pow2(14) == 0x4000);
        vstd::bits::lemma_u32_shr_is_div(full, shift);
        vstd::bits::lemma_u32_shl_is_mul(1, (shift - 1) as u32);
    }
    let half: u32 = 1u32 << (shift - 1);
    let q: u32 = full >> shift;
    let ghost step = vstd::arithmetic::power2::pow2(shift as nat) as int;
    proof {
        assert(step == 2 * half);
        assert(q == full as int / step);
        vstd::arithmetic::div_mod::lemma_fundamental_div_mod(full as int, step);
        assert(q < 0x400) by (nonlinear_arith)
            requires
                q == full as int / step,
                step >= 0x4000,
                full < 0x100_0000,
        ;
        assert(q * (2 * half) == step * q) by (nonlinear_arith)
            requires
                step == 2 * half,
        ;
    }
    let rem: u32 = full - q * (2 * half);
    let code: u16 = q as u16;
    proof {
        let unit = vstd::arithmetic::power2::pow2((exp - 1) as nat) as int;
        vstd::arithmetic::power2::lemma_pow2_pos((exp - 1) as nat);
        vstd::arithmetic::power2::lemma_pow2_adds(shift as nat, (exp - 1) as nat);
        let p = vstd::arithmetic::power2::pow2(125) as int;
        assert(p == step * unit);
        lemma_half_step(code as int);
        assert(full * unit == q * (step * unit) + rem * unit) by (nonlinear_arith)
            requires
                full as int == q * step + rem,
        ;
        assert(half_magnitude(code as int) == code * p);
        assert(2 * half * unit == p) by (nonlinear_arith)
            requires
                p == step * unit,
                step == 2 * half,
        ;
    }
    (code, rem, half)
}

proof fn lemma_overflows(x: F32)
    requires
        143 <= x.exponent() < 0xff,
    ensures
        nearest_half(x.magnitude(), 0x7c00),
{
    lemma_half_step(0x7bff);
    let e1 = (x.exponent() - 1) as nat;
    let q = vstd::arithmetic::power2::pow2(e1) as int;
    let f = 0x80_0000 + x.fraction();
    if e1 > 142 {
        vstd::arithmetic::power2::lemma_pow2_strictly_increases(142, e1);
    }
    vstd::arithmetic::power2::lemma_pow2_adds(13, 142);
    assert(vstd::arithmetic::power2::pow2(13) == 0x2000) by {
        vstd::arithmetic::power2::lemma2_to64();
    }
    let p = vstd::arithmetic::power2::pow2(142) as int;
    assert(f * q >= 0x80_0000 * p) by (nonlinear_arith)
        requires
            f >= 0x80_0000,
            q >= p,
            p >= 0,
    ;
    assert(half_magnitude(0x7c00) == 0x400 * vstd::arithmetic::power2::pow2(155));
}

proof fn lemma_vanishes(x: F32)
    requires
        x.exponent() < 102,
    ensures
        nearest_half(x.magnitude(), 0),
{
    let m = x.magnitude();
    let p = vstd::arithmetic::power2::pow2(125) as int;
    lemma_half_step(0);
    vstd::arithmetic::power2::lemma_pow2_adds(25, 100);
    assert(vstd::arithmetic::power2::pow2(25) == 0x200_0000) by {
        vstd::arithmetic::power2::lemma2_to64();
    }
    vstd::arithmetic::power2::lemma_pow2_pos(100);
    let w = vstd::arithmetic::power2::pow2(100) as int;
    if x.exponent() == 0 {
        assert(2 * m < p) by (nonlinear_arith)
            requires
                m < 0x80_0000,
                p == 0x200_0000 * w,
                w >= 1,
        ;
    } else {
        let e1 = (x.exponent() - 1) as nat;
        let q = vstd::arithmetic::power2::pow2(e1) as int;
        if e1 < 100 {
            vstd::arithmetic::power2::lemma_pow2_strictly_increases(e1, 100);
        }
        let f = 0x80_0000 + x.fraction();
        assert(2 * (f * q) < p) by (nonlinear_arith)
            requires
                0 < f < 0x100_0000,
                0 <= q <= w,
                p == 0x200_0000 * w,
                w >= 1,
        ;
    }
    assert(half_magnitude(0) == 0) by (nonlinear_arith)
        requires
            half_magnitude(0) == 0 * p,
    ;
}

/// `r` is `x` in half precision: rounded to nearest and ties to even; what is too
/// large is infinite, and what is not a number a quiet one.
pub open spec fn packs(x: F32, r: u16) -> bool {
    &&& (r >= 0x8000) == x.negative()
    &&& x.nan() ==> r % 0x8000 == 0x7e00
    &&& !x.nan() && !x.finite() ==> r % 0x8000 == 0x7c00
    &&& x.finite() ==> nearest_half(x.magnitude(), r as int % 0x8000)
}

/// Packs to half precision.
pub fn f16_bits(x: F32) -> (r: u16)
    ensures
        packs(x, r),
{
    let b: u32 = x.bits;
    let sign: u16 = if b >= 0x8000_0000 {
        0x8000
    } else {
        0
    };
    let exp: u32 = (b / 0x80_0000) % 0x100;
    let man: u32 = b % 0x80_0000;
    assert(x.magnitude_bits() == x.exponent() * 0x80_0000 + x.fraction());
    if exp == 0xff {
        if man != 0 {
            return sign + 0x7e00;
        }
        return sign + 0x7c00;
    }
    if exp >= 143 {
        proof {
            lemma_overflows(x);
        }
        return sign + 0x7c00;
    }
    if exp < 102 {
        proof {
            lemma_vanishes(x);
        }
        return sign;
    }
    let (code, rem, half) = if exp >= 113 {
        cut_normal(exp, man)
    } else {
        cut_subnormal(exp, man)
    };
    proof {
        lemma_cut_rounds(
            x.magnitude(),
            code as int,
            rem as int,
            half as int,
            vstd::arithmetic::power2::pow2((exp - 1) as nat) as int,
        );
    }
    if rem > half || (rem == half && code % 2 == 1) {
        sign + code + 1
    } else {
        sign + code
    }
}

/// Unpacks half precision. Every half-precision number is one of single
/// precision too, so nothing is rounded.
pub fn f16_val(h: u16) -> (r: F32)
    ensures
        h as int % 0x8000 > 0x7c00 ==> r.nan(),
        h as int % 0x8000 <= 0x7c00 ==> r.negative() == (h >= 0x8000),
        h as int % 0x8000 == 0x7c00 ==> !r.nan() && !r.finite(),
        h as int % 0x8000 < 0x7c00 ==> r.finite() && r.magnitude() == half_magnitude(
            h as int % 0x8000,
        ),
{
    let sign: u32 = if h >= 0x8000 {
        0x8000_0000
    } else {
        0
    };
    let k: u32 = (h % 0x8000) as u32;
    if k > 0x7c00 {
        return F32 { bits: 0x7fc0_0000 };
    }
    if k == 0x7c00 {
        return F32 { bits: sign + 0x7f80_0000 };
    }
    if k == 0 {
        proof {
            let p = vstd::arithmetic::power2::pow2(125) as int;
            assert(0 * p == 0) by (nonlinear_arith);
        }
        return F32 { bits: sign };
    }
    if k >= 0x400 {
        let e: u32 = k / 0x400;
        let f: u32 = k % 0x400;
        let r = F32 { bits: sign + (e + 112) * 0x80_0000 + f * 0x2000 };
        proof {
            assert(r.exponent() == e + 112);
            assert(r.fraction() == f * 0x2000);
            let q = vstd::arithmetic::power2::pow2((e + 111) as nat) as int;
            vstd::arithmetic::power2::lemma_pow2_adds(13, (e + 111) as nat);
            vstd::arithmetic::power2::lemma2_to64();
            assert((0x80_0000 + f * 0x2000) * q == (0x400 + f) * (0x2000 * q)) by (nonlinear_arith);
        }
        return r;
    }
    // Subnormal: shift the leading one into place.
    let mut m: u32 = k;
    let mut e: u32 = 113;
    proof {
        vstd::arithmetic::power2::lemma2_to64();
    }
    while m < 0x400
        invariant
            1 <= m < 0x800,
            100 <= e <= 113,
            1 <= k < 0x400,
            m * vstd::arithmetic::power2::pow2((e + 12) as nat) == k
                * vstd::arithmetic::power2::pow2(125),
            m >= vstd::arithmetic::power2::pow2((113 - e) as nat),
        decreases e,
    {
        proof {
            vstd::arithmetic::power2::lemma_pow2_unfold((e + 12) as nat);
            vstd::arithmetic::power2::lemma_pow2_unfold((114 - e) as nat);
            vstd::arithmetic::power2::lemma2_to64();
            let q = vstd::arithmetic::power2::pow2((e + 11) as nat) as int;
            assert((m * 2) * q == m * (2 * q)) by (nonlinear_arith);
            if e == 100 {
                assert(vstd::arithmetic::power2::pow2(13) == 0x2000);
            }
        }
        m = m * 2;
        e = e - 1;
    }
    let r = F32 { bits: sign + e * 0x80_0000 + (m - 0x400) * 0x2000 };
    proof {
        assert(r.exponent() == e);
        assert(r.fraction() == (m - 0x400) * 0x2000);
        let q = vstd::arithmetic::power2::pow2((e - 1) as nat) as int;
        vstd::arithmetic::power2::lemma_pow2_adds(13, (e - 1) as nat);
        vstd::arithmetic::power2::lemma2_to64();
        assert((0x80_0000 + (m - 0x400) * 0x2000) * q == m * (0x2000 * q)) by (nonlinear_arith);
    }
    r
}

/// Unpacking and packing again gives back every half-precision number: the
/// nearest code to a half-precision magnitude is its own.
pub proof fn half_round_trip(k: int, r: int)
    requires
        0 <= k < 0x7c00,
        nearest_half(half_magnitude(k), r),
    ensures
        r == k,
{
    if r < k {
        lemma_half_increases(r, r + 1);
        if r + 1 < k {
            lemma_half_increases(r + 1, k);
        }
    } else if r > k {
        lemma_half_increases(r - 1, r);
        if k < r - 1 {
            lemma_half_increases(k, r - 1);
        }
    }
}

/// Of two finite numbers the one with the larger bits below the sign is the larger
/// in magnitude.
pub proof fn magnitudes_grow_with_the_bits(a: F32, b: F32)
    requires
        a.finite(),
        b.finite(),
        a.magnitude_bits() < b.magnitude_bits(),
    ensures
        0 <= a.magnitude() < b.magnitude(),
{
    let (ea, eb) = (a.exponent(), b.exponent());
    let (fa, fb) = (a.fraction(), b.fraction());
    lemma_parts(a);
    lemma_parts(b);
    if ea == 0 && eb == 0 {
    } else if ea == 0 {
        vstd::arithmetic::power2::lemma_pow2_pos((eb - 1) as nat);
        let p = vstd::arithmetic::power2::pow2((eb - 1) as nat) as int;
        assert((0x80_0000 + fb) * p >= 0x80_0000) by (nonlinear_arith)
            requires
                p >= 1,
                fb >= 0,
        ;
    } else {
        vstd::arithmetic::power2::lemma_pow2_pos((ea - 1) as nat);
        let p = vstd::arithmetic::power2::pow2((ea - 1) as nat) as int;
        assert((0x80_0000 + fa) * p >= 0) by (nonlinear_arith)
            requires
                p >= 1,
                fa >= 0,
        ;
        if ea == eb {
            assert((0x80_0000 + fa) * p < (0x80_0000 + fb) * p) by (nonlinear_arith)
                requires
                    p >= 1,
                    fa < fb,
            ;
        } else {
            let d = (eb - 1 - ea) as nat;
            vstd::arithmetic::power2::lemma_pow2_adds((ea - 1) as nat, 1);
            vstd::arithmetic::power2::lemma2_to64();
            vstd::arithmetic::power2::lemma_pow2_adds(ea as nat, d);
            vstd::arithmetic::power2::lemma_pow2_pos(d);
            let q = vstd::arithmetic::power2::pow2(ea as nat) as int;
            let r = vstd::arithmetic::power2::pow2(d) as int;
            let t = vstd::arithmetic::power2::pow2((eb - 1) as nat) as int;
            assert(q == 2 * p);
            assert(t == q * r);
            assert((0x80_0000 + fa) * p < (0x80_0000 + fb) * t) by (nonlinear_arith)
                requires
                    q == 2 * p,
                    t == q * r,
                    r >= 1,
                    p >= 1,
                    0 <= fa < 0x80_0000,
                    0 <= fb,
            ;
        }
    }
}

proof fn lemma_parts(a: F32)
    ensures
        a.magnitude_bits() == a.exponent() * 0x80_0000 + a.fraction(),
        0 <= a.fraction() < 0x80_0000,
        0 <= a.exponent() < 0x100,
{
}

/// The value of a finite number, in units of the smallest one.
pub open spec fn value_of(x: F32) -> int {
    if x.negative() {
        -x.magnitude()
    } else {
        x.magnitude()
    }
}

proof fn lemma_zero_magnitude(a: F32)
    requires
        a.finite(),
    ensures
        a.magnitude() == 0 <==> a.magnitude_bits() == 0,
        a.magnitude() >= 0,
{
    lemma_parts(a);
    let z = F32 { bits: 0 };
    if a.magnitude_bits() > 0 {
        magnitudes_grow_with_the_bits(z, a);
    }
}

/// Finite numbers are compared by their values; what is not a number is below
/// nothing and reached by nothing.
pub proof fn numbers_compare_by_value(a: F32, b: F32)
    ensures
        a.finite() && b.finite() ==> (a.below(b) <==> value_of(a) < value_of(b)),
        a.finite() && b.finite() ==> (a.reaches(b) <==> value_of(a) >= value_of(b)),
        a.nan() || b.nan() ==> !a.below(b) && !a.reaches(b),
{
    if a.finite() && b.finite() {
        lemma_zero_magnitude(a);
        lemma_zero_magnitude(b);
        if a.magnitude_bits() < b.magnitude_bits() {
            magnitudes_grow_with_the_bits(a, b);
        } else if b.magnitude_bits() < a.magnitude_bits() {
            magnitudes_grow_with_the_bits(b, a);
        } else {
            assert(a.exponent() == b.exponent() && a.fraction() == b.fraction());
        }
    }
}

/// The total order of bit patterns agrees with the comparison of numbers, and tells
/// any two patterns apart.
pub proof fn the_total_order_agrees(a: F32, b: F32)
    ensures
        a.below(b) ==> a.total_rank() < b.total_rank(),
        a.total_rank() == b.total_rank() <==> a == b,
        0 <= a.total_rank() <= 0xffff_ffff,
{
}

} // verus!
