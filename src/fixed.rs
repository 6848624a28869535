//! Binary fixed-point reals and complex numbers.
//!
//! A `Fixed` holds `raw / 2^FRAC_BITS` in an `i64`: values lie in
//! `[-128, 128)` with a resolution of `2^-56` (about `1.4e-17`). All
//! arithmetic of the library is carried out exactly on the raw integers,
//! with a stated rounding wherever a division is needed. Results therefore
//! differ from floating-point evaluation in the last bits, which may change
//! the classification of points very close to the set's boundary.

use vstd::prelude::*;
use vstd::arithmetic::div_mod::{
    lemma_div_is_ordered, lemma_div_multiples_vanish, lemma_fundamental_div_mod,
    lemma_fundamental_div_mod_converse,
};

verus! {

/// Number of fractional bits of a `Fixed`.
pub const FRAC_BITS: u32 = 56;

/// The raw representation of 1.0, that is `2^FRAC_BITS`.
pub const ONE_RAW: i64 = 0x0100_0000_0000_0000;

/// The scale of the fixed-point representation, as a mathematical integer.
pub open spec fn one() -> int {
    ONE_RAW as int
}

/// The value of the scale and of its square.
pub proof fn lemma_one_values()
    ensures
        one() == 72057594037927936,
        one() * one() == 5192296858534827628530496329220096,
{
    assert(72057594037927936int * 72057594037927936int == 5192296858534827628530496329220096int)
        by (nonlinear_arith);
}

/// A real number `raw / 2^FRAC_BITS`.
#[derive(Clone, Copy, Debug, PartialEq, Eq, Structural)]
pub struct Fixed {
    pub raw: i64,
}

/// A complex number with fixed-point parts.
#[derive(Clone, Copy, Debug, PartialEq, Eq, Structural)]
pub struct Complex {
    pub re: Fixed,
    pub im: Fixed,
}

impl View for Complex {
    type V = (int, int);

    /// The raw real and imaginary parts.
    open spec fn view(&self) -> (int, int) {
        (self.re.raw as int, self.im.raw as int)
    }
}

/// Linear interpolation between `a` and `b` at the fraction `num / den`,
/// rounded down: `a + floor(num * (b - a) / den)`.
pub open spec fn lerp(a: int, b: int, num: int, den: int) -> int {
    a + (num * (b - a)) / den
}

/// Division rounded toward zero: the quotient of the magnitudes, with the
/// sign of `n`. It satisfies `trunc_div(-n, d) == -trunc_div(n, d)`.
pub open spec fn trunc_div(n: int, d: int) -> int {
    if n >= 0 {
        n / d
    } else {
        -((-n) / d)
    }
}

/// `trunc_div(n, d)` lies within `[-k, k]` when `n` lies within `[-k*d, k*d]`.
pub proof fn lemma_trunc_div_bound(n: int, d: int, k: int)
    requires
        d > 0,
        k >= 0,
        -k * d <= n <= k * d,
    ensures
        -k <= trunc_div(n, d) <= k,
{
    lemma_div_multiples_vanish(k, d);
    lemma_div_multiples_vanish(0, d);
    assert(k * d == d * k) by (nonlinear_arith);
    assert((-k) * d == -(k * d)) by (nonlinear_arith);
    if n >= 0 {
        lemma_div_is_ordered(0, n, d);
        lemma_div_is_ordered(n, k * d, d);
    } else {
        lemma_div_is_ordered(0, -n, d);
        lemma_div_is_ordered(-n, k * d, d);
    }
}

/// Division rounded toward zero on 128-bit integers.
pub fn div_toward_zero(n: i128, d: i128) -> (r: i128)
    requires
        d > 0,
        n > i128::MIN,
    ensures
        r == trunc_div(n as int, d as int),
{
    if n >= 0 {
        n / d
    } else {
        let m: i128 = -n;
        -(m / d)
    }
}

/// Floor division on 128-bit integers.
pub fn floor_div(n: i128, d: i128) -> (r: i128)
    requires
        d > 0,
        n > i128::MIN,
    ensures
        r == n / d,
{
    if n >= 0 {
        n / d
    } else {
        let m: i128 = -n;
        proof {
            assert(m <= i128::MAX);
        }
        let q: i128 = (m - 1) / d + 1;
        proof {
            let (ni, di, mi) = (n as int, d as int, m as int);
            let k = (mi - 1) / di;
            let rem = (mi - 1) % di;
            lemma_fundamental_div_mod(mi - 1, di);
            assert(0 <= rem < di);
            assert(ni == (-(k + 1)) * di + (di - 1 - rem)) by (nonlinear_arith)
                requires
                    mi - 1 == di * k + rem,
                    ni == -mi,
            ;
            lemma_fundamental_div_mod_converse(ni, di, -(k + 1), di - 1 - rem);
        }
        -q
    }
}

/// `lerp` on fixed-point values: the point at `num / den` of the way
/// from `a` to `b`, rounded down.
pub fn interpolate(a: Fixed, b: Fixed, num: u32, den: u32) -> (r: Fixed)
    requires
        0 < den,
        num <= den,
    ensures
        r.raw == lerp(a.raw as int, b.raw as int, num as int, den as int),
{
    let d: i128 = (b.raw as i128) - (a.raw as i128);
    proof {
        assert(-0x1_0000_0000 * 0x1_0000_0000_0000_0000 <= num * d <= 0x1_0000_0000 * 0x1_0000_0000_0000_0000)
            by (nonlinear_arith)
            requires
                0 <= num <= 0x1_0000_0000,
                -0x1_0000_0000_0000_0000 <= d <= 0x1_0000_0000_0000_0000,
        ;
    }
    let q = floor_div((num as i128) * d, den as i128);
    proof {
        let (ni, di, qi, dd) = (num as int, den as int, q as int, d as int);
        lemma_fundamental_div_mod(ni * dd, di);
        assert(0 <= (ni * dd) % di < di);
        if dd >= 0 {
            assert(0 <= qi <= dd) by (nonlinear_arith)
                requires
                    ni * dd == di * qi + (ni * dd) % di,
                    0 <= (ni * dd) % di < di,
                    0 <= ni <= di,
                    dd >= 0,
            ;
        } else {
            assert(dd <= qi <= 0) by (nonlinear_arith)
                requires
                    ni * dd == di * qi + (ni * dd) % di,
                    0 <= (ni * dd) % di < di,
                    0 <= ni <= di,
                    dd < 0,
            ;
        }
    }
    Fixed { raw: ((a.raw as i128) + q) as i64 }
}

/// The value fits the raw range of a `Fixed`.
pub open spec fn fits_fixed(v: int) -> bool {
    i64::MIN <= v <= i64::MAX
}

/// `lerp` at any position `num / den`, inside the segment or beyond either
/// end: `None` exactly when the result leaves the range of `Fixed`.
pub fn extrapolate(a: Fixed, b: Fixed, num: i128, den: u32) -> (r: Option<Fixed>)
    requires
        0 < den,
        -0x2_0000_0000_0000_0000 <= num <= 0x2_0000_0000_0000_0000,
    ensures
        r is Some <==> fits_fixed(lerp(a.raw as int, b.raw as int, num as int, den as int)),
        r matches Some(v) ==> v.raw == lerp(a.raw as int, b.raw as int, num as int, den as int),
{
    let d: i128 = (b.raw as i128) - (a.raw as i128);
    let q = floor_div(num, den as i128);
    proof {
        lemma_fundamental_div_mod(num as int, den as int);
        assert(q * den == den * q) by (nonlinear_arith);
        assert(0 <= (num as int) % (den as int) < den);
    }
    let rem: i128 = num - q * (den as i128);
    proof {
        let (ni, di, qi) = (num as int, den as int, q as int);
        assert(0 <= rem < di);
        assert(qi * di == ni - rem);
        assert(-0x4_0000_0000_0000_0000 <= qi <= 0x4_0000_0000_0000_0000) by {
            if qi > 0 {
                assert(qi <= qi * di) by (nonlinear_arith)
                    requires
                        qi > 0,
                        di >= 1,
                ;
            } else {
                assert(qi * di <= qi) by (nonlinear_arith)
                    requires
                        qi <= 0,
                        di >= 1,
                ;
            }
        }
        assert(-0x1_0000_0000 * 0x1_0000_0000_0000_0000 <= rem * d <= 0x1_0000_0000 * 0x1_0000_0000_0000_0000)
            by (nonlinear_arith)
            requires
                0 <= rem <= 0x1_0000_0000,
                -0x1_0000_0000_0000_0000 <= d <= 0x1_0000_0000_0000_0000,
        ;
    }
    let t = floor_div(rem * d, den as i128);
    proof {
        let (ni, di, qi, dd, ti, ri) = (num as int, den as int, q as int, d as int, t as int, rem as int);
        lemma_fundamental_div_mod(ri * dd, di);
        let s = (ri * dd) % di;
        assert(0 <= s < di);
        if dd >= 0 {
            assert(0 <= ti <= dd) by (nonlinear_arith)
                requires
                    ri * dd == di * ti + s,
                    0 <= s < di,
                    0 <= ri < di,
                    dd >= 0,
            ;
        } else {
            assert(dd <= ti <= 0) by (nonlinear_arith)
                requires
                    ri * dd == di * ti + s,
                    0 <= s < di,
                    0 <= ri < di,
                    dd < 0,
            ;
        }
        assert(ni * dd == (qi * dd + ti) * di + s) by (nonlinear_arith)
            requires
                ni == qi * di + ri,
                ri * dd == di * ti + s,
        ;
        lemma_fundamental_div_mod_converse(ni * dd, di, qi * dd + ti, s);
        assert(lerp(a.raw as int, b.raw as int, ni, di) == a.raw + qi * dd + ti);
    }
    match q.checked_mul(d) {
        None => None,
        Some(p) => {
            if p > 0x4_0000_0000_0000_0000 || p < -0x4_0000_0000_0000_0000 {
                None
            } else {
                let v: i128 = (a.raw as i128) + p + t;
                if v < i64::MIN as i128 || v > i64::MAX as i128 {
                    None
                } else {
                    Some(Fixed { raw: v as i64 })
                }
            }
        },
    }
}

impl Fixed {
    /// The integer `n` as a fixed-point value.
    pub fn from_int(n: i32) -> (r: Fixed)
        requires
            -128 <= n < 128,
        ensures
            r.raw == n * one(),
    {
        Fixed { raw: (n as i64) * ONE_RAW }
    }

    /// The fraction `num / den`, rounded down to the fixed-point grid.
    pub fn from_ratio(num: i64, den: i64) -> (r: Fixed)
        requires
            den > 0,
            -128 * den <= num < 128 * den,
        ensures
            r.raw == (num * one()) / (den as int),
    {
        let scaled: i128 = (num as i128) * 0x0100_0000_0000_0000i128;
        proof {
            assert(-128 * den * one() <= scaled < 128 * den * one()) by (nonlinear_arith)
                requires
                    -128 * den <= num < 128 * den,
                    scaled == num * one(),
                    one() > 0,
            ;
        }
        let q = floor_div(scaled, den as i128);
        proof {
            let (si, di, qi) = (scaled as int, den as int, q as int);
            lemma_fundamental_div_mod(si, di);
            assert(0 <= si % di < di);
            assert(-128 * one() <= qi < 128 * one()) by (nonlinear_arith)
                requires
                    si == di * qi + si % di,
                    0 <= si % di < di,
                    -128 * di * one() <= si < 128 * di * one(),
                    di > 0,
            ;
        }
        Fixed { raw: q as i64 }
    }
}

} // verus!
