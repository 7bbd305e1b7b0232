//! Smoothing kernels and interpolation.
//!
//! `interpolate` maps `x` from the interval `[x_inf, x_sup]` to a ratio in
//! `[0, 1]`, shapes the ratio with a pluggable smoothing kernel, and blends
//! linearly between `dst_inf` and `dst_sup`.  The kernels are a closed set of
//! strategies: the cosine ease used inside the noise engine, the cubic
//! smoothstep kept available as an alternate, and the identity for plain
//! linear blending.

use crate::cosine::{
    cos_half, cos_half_spec, lemma_cos_half_bounds, lemma_cos_half_ends, lemma_cos_half_mono,
};
use vstd::arithmetic::div_mod::{
    lemma_div_is_ordered, lemma_fundamental_div_mod, lemma_fundamental_div_mod_converse,
};
use vstd::prelude::*;

verus! {

/// The smoothing strategies accepted by [`interpolate`].
#[derive(Clone, Copy, Debug, PartialEq, Eq, Structural)]
pub enum Smoothing {
    /// `(cos((1 - x) * pi) + 1) / 2`: the default kernel of the noise engine.
    CosineEase,
    /// `x * x * (3 - 2 * x)`: an alternate kernel with the same endpoints.
    CubicSmoothstep,
    /// Pass-through, for plain linear interpolation.
    Identity,
}

/// The cosine-ease kernel on Q32 ratios: clamps outside `[0, FIXED_ONE]`,
/// and inside rides the half-period cosine from `0` up to `FIXED_ONE`.
pub open spec fn smoothcos_spec(x: int) -> int {
    if x < 0 {
        0
    } else if x > 0x1_0000_0000 {
        0x1_0000_0000
    } else {
        (cos_half_spec((0x1_0000_0000 - x) / 2) + 0x1_0000_0000) / 2
    }
}

/// The cubic smoothstep kernel on Q32 ratios: clamps outside
/// `[0, FIXED_ONE]`, and inside is `x * x * (3 - 2 * x)` scaled to Q32.
pub open spec fn smoothstep_spec(x: int) -> int {
    if x < 0 {
        0
    } else if x > 0x1_0000_0000 {
        0x1_0000_0000
    } else {
        (x * x * (3 * 0x1_0000_0000 - 2 * x)) / 0x1_0000_0000_0000_0000
    }
}

/// What a kernel returns for a given Q32 ratio.
pub open spec fn apply_smoothing_spec(s: Smoothing, x: int) -> int {
    match s {
        Smoothing::CosineEase => smoothcos_spec(x),
        Smoothing::CubicSmoothstep => smoothstep_spec(x),
        Smoothing::Identity => x,
    }
}

/// Both shaped kernels hit their endpoints exactly: zero maps to zero and
/// one maps to one.
pub proof fn lemma_smoothing_endpoints()
    ensures
        smoothcos_spec(0) == 0,
        smoothcos_spec(0x1_0000_0000) == 0x1_0000_0000,
        smoothstep_spec(0) == 0,
        smoothstep_spec(0x1_0000_0000) == 0x1_0000_0000,
{
    lemma_cos_half_ends();
    assert((0x1_0000_0000 - 0) / 2 == 0x8000_0000);
    assert((0x1_0000_0000 - 0x1_0000_0000int) / 2 == 0);
    assert(0int * 0 * (3 * 0x1_0000_0000 - 2 * 0) == 0) by (nonlinear_arith);
    lemma_fundamental_div_mod_converse(0, 0x1_0000_0000_0000_0000, 0, 0);
    assert(0x1_0000_0000int * 0x1_0000_0000 * (3 * 0x1_0000_0000 - 2 * 0x1_0000_0000)
        == 0x1_0000_0000_0000_0000int * 0x1_0000_0000) by (nonlinear_arith);
    lemma_fundamental_div_mod_converse(
        0x1_0000_0000_0000_0000int * 0x1_0000_0000,
        0x1_0000_0000_0000_0000,
        0x1_0000_0000,
        0,
    );
}

/// Both shaped kernels clamp: at or below zero they return zero, at or above
/// one they return one.
pub proof fn lemma_smoothing_clamps(x: int)
    ensures
        x <= 0 ==> smoothcos_spec(x) == 0 && smoothstep_spec(x) == 0,
        x >= 0x1_0000_0000 ==> smoothcos_spec(x) == 0x1_0000_0000 && smoothstep_spec(x)
            == 0x1_0000_0000,
{
    lemma_smoothing_endpoints();
}

/// Both shaped kernels stay within `[0, FIXED_ONE]` everywhere.
pub proof fn lemma_smoothing_range(x: int)
    ensures
        0 <= smoothcos_spec(x) <= 0x1_0000_0000,
        0 <= smoothstep_spec(x) <= 0x1_0000_0000,
{
    if 0 <= x <= 0x1_0000_0000 {
        let t = (0x1_0000_0000 - x) / 2;
        lemma_div_is_ordered(0, 0x1_0000_0000 - x, 2);
        lemma_div_is_ordered(0x1_0000_0000 - x, 0x1_0000_0000, 2);
        lemma_cos_half_bounds(t);
        let c = cos_half_spec(t);
        lemma_div_is_ordered(0, c + 0x1_0000_0000, 2);
        lemma_div_is_ordered(c + 0x1_0000_0000, 0x2_0000_0000, 2);
        let g = x * x * (3 * 0x1_0000_0000 - 2 * x);
        assert(0 <= x * x * (3 * 0x1_0000_0000 - 2 * x)) by (nonlinear_arith)
            requires 0 <= x <= 0x1_0000_0000;
        assert(x * x * (3 * 0x1_0000_0000 - 2 * x) <= 0x1_0000_0000_0000_0000int
            * 0x1_0000_0000) by (nonlinear_arith)
            requires 0 <= x <= 0x1_0000_0000;
        lemma_div_is_ordered(0, g, 0x1_0000_0000_0000_0000);
        lemma_div_is_ordered(
            g,
            0x1_0000_0000_0000_0000int * 0x1_0000_0000,
            0x1_0000_0000_0000_0000,
        );
        lemma_fundamental_div_mod_converse(
            0x1_0000_0000_0000_0000int * 0x1_0000_0000,
            0x1_0000_0000_0000_0000,
            0x1_0000_0000,
            0,
        );
    }
}

/// The cosine-ease kernel is monotone non-decreasing over all of `int`.
pub proof fn lemma_smoothcos_monotone(x1: int, x2: int)
    requires
        x1 <= x2,
    ensures
        smoothcos_spec(x1) <= smoothcos_spec(x2),
{
    lemma_smoothing_range(x1);
    lemma_smoothing_range(x2);
    if 0 <= x1 && x2 <= 0x1_0000_0000 {
        let t1 = (0x1_0000_0000 - x1) / 2;
        let t2 = (0x1_0000_0000 - x2) / 2;
        lemma_div_is_ordered(0, 0x1_0000_0000 - x2, 2);
        lemma_div_is_ordered(0x1_0000_0000 - x2, 0x1_0000_0000 - x1, 2);
        lemma_div_is_ordered(0x1_0000_0000 - x1, 0x1_0000_0000, 2);
        lemma_cos_half_mono(t2, t1);
        lemma_div_is_ordered(
            cos_half_spec(t1) + 0x1_0000_0000,
            cos_half_spec(t2) + 0x1_0000_0000,
            2,
        );
    } else if x1 < 0 {
        // smoothcos_spec(x1) == 0, and the range fact bounds x2's value below.
    } else if x2 > 0x1_0000_0000 {
        // smoothcos_spec(x2) == FIXED_ONE, the top of the range.
    }
}

/// The cubic smoothstep kernel is monotone non-decreasing over all of `int`.
pub proof fn lemma_smoothstep_monotone(x1: int, x2: int)
    requires
        x1 <= x2,
    ensures
        smoothstep_spec(x1) <= smoothstep_spec(x2),
{
    lemma_smoothing_range(x1);
    lemma_smoothing_range(x2);
    if 0 <= x1 && x2 <= 0x1_0000_0000 {
        let g1 = x1 * x1 * (3 * 0x1_0000_0000 - 2 * x1);
        let g2 = x2 * x2 * (3 * 0x1_0000_0000 - 2 * x2);
        // g2 - g1 factors as (x2 - x1) times a quantity that is non-negative
        // whenever both points lie in [0, FIXED_ONE].
        assert(x2 * x2 * (3 * 0x1_0000_0000 - 2 * x2) - x1 * x1 * (3 * 0x1_0000_0000 - 2 * x1)
            == (x2 - x1) * (3 * 0x1_0000_0000 * (x2 + x1) - 2 * (x2 * x2 + x1 * x2 + x1 * x1)))
            by (nonlinear_arith);
        assert(3 * 0x1_0000_0000 * (x2 + x1) >= 3 * x2 * (x2 + x1)) by (nonlinear_arith)
            requires 0 <= x1 <= x2 <= 0x1_0000_0000;
        assert(3 * x2 * (x2 + x1) - 2 * (x2 * x2 + x1 * x2 + x1 * x1) == (x2 - x1) * (x2 + 2
            * x1)) by (nonlinear_arith);
        assert((x2 - x1) * (x2 + 2 * x1) >= 0) by (nonlinear_arith)
            requires 0 <= x1 <= x2;
        assert((x2 - x1) * (3 * 0x1_0000_0000 * (x2 + x1) - 2 * (x2 * x2 + x1 * x2 + x1 * x1))
            >= 0) by (nonlinear_arith)
            requires
                x1 <= x2,
                3 * 0x1_0000_0000 * (x2 + x1) - 2 * (x2 * x2 + x1 * x2 + x1 * x1) >= 0;
        lemma_div_is_ordered(g1, g2, 0x1_0000_0000_0000_0000);
    }
}

/// The cosine-ease kernel on Q32 ratios.
pub fn smoothcos(x: i64) -> (r: u64)
    ensures
        r == smoothcos_spec(x as int),
        r <= 0x1_0000_0000,
{
    proof {
        lemma_smoothing_range(x as int);
    }
    if x < 0 {
        0
    } else if x > 0x1_0000_0000 {
        0x1_0000_0000
    } else {
        let t: u64 = (0x1_0000_0000u64 - (x as u64)) / 2;
        proof {
            lemma_div_is_ordered(0x1_0000_0000 - x, 0x1_0000_0000, 2);
        }
        let c: i64 = cos_half(t);
        ((c + 0x1_0000_0000) as u64) / 2
    }
}

/// The cubic smoothstep kernel on Q32 ratios.
pub fn smoothstep(x: i64) -> (r: u64)
    ensures
        r == smoothstep_spec(x as int),
        r <= 0x1_0000_0000,
{
    proof {
        lemma_smoothing_range(x as int);
    }
    if x < 0 {
        0
    } else if x > 0x1_0000_0000 {
        0x1_0000_0000
    } else {
        let xu: u128 = x as u128;
        proof {
            assert(xu * xu <= 0x1_0000_0000_0000_0000) by (nonlinear_arith)
                requires 0 <= xu <= 0x1_0000_0000;
        }
        let sq: u128 = xu * xu;
        let f: u128 = 3 * 0x1_0000_0000 - 2 * xu;
        proof {
            assert(sq * f <= 0x1_0000_0000_0000_0000int * (3 * 0x1_0000_0000))
                by (nonlinear_arith)
                requires 0 <= sq <= 0x1_0000_0000_0000_0000 && 0 <= f <= 3 * 0x1_0000_0000;
        }
        let g: u128 = sq * f;
        proof {
            assert(sq * f == (x as int) * (x as int) * (3 * 0x1_0000_0000 - 2 * (x as int)))
                by (nonlinear_arith)
                requires sq == (x as int) * (x as int) && f == 3 * 0x1_0000_0000 - 2 * (x as int);
        }
        (g / 0x1_0000_0000_0000_0000) as u64
    }
}

/// Applies one smoothing kernel to a Q32 ratio.  The shaped kernels always
/// land in `[0, FIXED_ONE]`; the identity passes the ratio through.
pub fn apply_smoothing(s: Smoothing, x: i64) -> (r: i64)
    ensures
        r == apply_smoothing_spec(s, x as int),
        s != Smoothing::Identity ==> 0 <= r <= 0x1_0000_0000,
        s == Smoothing::Identity ==> r == x,
{
    match s {
        Smoothing::CosineEase => smoothcos(x) as i64,
        Smoothing::CubicSmoothstep => smoothstep(x) as i64,
        Smoothing::Identity => x,
    }
}

/// Where `x` sits between `x_inf` and `x_sup`, as a Q32 ratio: the floor of
/// `(x - x_inf) / (x_sup - x_inf)` scaled to Q32, whichever way round the
/// interval is given.  Exact for the engine's own calls, where the interval
/// is `[0, FIXED_ONE]`.
pub open spec fn ratio_spec(x: int, x_inf: int, x_sup: int) -> int {
    if x_inf < x_sup {
        ((x - x_inf) * 0x1_0000_0000) / (x_sup - x_inf)
    } else {
        ((x_inf - x) * 0x1_0000_0000) / (x_inf - x_sup)
    }
}

/// Linear blend from `dst_inf` to `dst_sup`, driven by a Q32 ratio.
pub open spec fn blend_spec(s: int, dst_inf: int, dst_sup: int) -> int {
    dst_inf + (s * (dst_sup - dst_inf)) / 0x1_0000_0000
}

/// What [`interpolate`] computes: the ratio of `x` within `[x_inf, x_sup]`,
/// shaped by the kernel, blended between the two destination values.
pub open spec fn interpolate_spec(
    smoothing: Smoothing,
    x: int,
    x_inf: int,
    x_sup: int,
    dst_inf: int,
    dst_sup: int,
) -> int {
    blend_spec(apply_smoothing_spec(smoothing, ratio_spec(x, x_inf, x_sup)), dst_inf, dst_sup)
}

/// A blend driven by a ratio in `[0, FIXED_ONE]` never leaves the interval
/// spanned by its two destination values.
pub proof fn lemma_blend_bracket(s: int, dst_inf: int, dst_sup: int)
    requires
        0 <= s <= 0x1_0000_0000,
    ensures
        dst_inf <= dst_sup ==> dst_inf <= blend_spec(s, dst_inf, dst_sup) <= dst_sup,
        dst_sup <= dst_inf ==> dst_sup <= blend_spec(s, dst_inf, dst_sup) <= dst_inf,
{
    let d = dst_sup - dst_inf;
    lemma_fundamental_div_mod_converse(0, 0x1_0000_0000, 0, 0);
    lemma_fundamental_div_mod_converse(0x1_0000_0000 * d, 0x1_0000_0000, d, 0);
    if d >= 0 {
        assert(0 <= s * d) by (nonlinear_arith)
            requires s >= 0 && d >= 0;
        assert(s * d <= 0x1_0000_0000 * d) by (nonlinear_arith)
            requires s <= 0x1_0000_0000 && d >= 0;
        lemma_div_is_ordered(0, s * d, 0x1_0000_0000);
        lemma_div_is_ordered(s * d, 0x1_0000_0000 * d, 0x1_0000_0000);
    } else {
        assert(0x1_0000_0000 * d <= s * d) by (nonlinear_arith)
            requires s <= 0x1_0000_0000 && d < 0;
        assert(s * d <= 0) by (nonlinear_arith)
            requires s >= 0 && d < 0;
        lemma_div_is_ordered(0x1_0000_0000 * d, s * d, 0x1_0000_0000);
        lemma_div_is_ordered(s * d, 0, 0x1_0000_0000);
    }
}

/// Maps `x` from the interval between `x_inf` and `x_sup` to a ratio,
/// shapes it with the chosen kernel, and blends between `dst_inf` and
/// `dst_sup`.  The result always lies between the two destination values.
/// The interval bounds must differ (equal bounds would divide by zero), and
/// the identity kernel, which does not clamp, requires `x` inside the
/// interval.
pub fn interpolate(
    smoothing: Smoothing,
    x: i64,
    x_inf: i64,
    x_sup: i64,
    dst_inf: i64,
    dst_sup: i64,
) -> (r: i64)
    requires
        x_inf != x_sup,
        smoothing == Smoothing::Identity ==> (x_inf <= x <= x_sup || x_sup <= x <= x_inf),
    ensures
        r == interpolate_spec(
            smoothing,
            x as int,
            x_inf as int,
            x_sup as int,
            dst_inf as int,
            dst_sup as int,
        ),
        dst_inf <= dst_sup ==> dst_inf <= r <= dst_sup,
        dst_sup <= dst_inf ==> dst_sup <= r <= dst_inf,
{
    let ghost ratio = ratio_spec(x as int, x_inf as int, x_sup as int);
    let den: i128;
    let num: i128;
    if x_inf < x_sup {
        den = x_sup as i128 - x_inf as i128;
        num = (x as i128 - x_inf as i128) * 0x1_0000_0000;
    } else {
        den = x_inf as i128 - x_sup as i128;
        num = (x_inf as i128 - x as i128) * 0x1_0000_0000;
    }
    // Clamp the ratio to [0, FIXED_ONE] before shaping it; the shaped kernels
    // clamp there anyway, and the identity kernel never leaves the interval.
    let clamped: i64 = if num < 0 {
        proof {
            lemma_div_is_ordered(num as int, -1, den as int);
            lemma_fundamental_div_mod_converse(-1, den as int, -1, den as int - 1);
        }
        0
    } else if num >= den * 0x1_0000_0000 {
        proof {
            assert(den * 0x1_0000_0000 >= 0) by (nonlinear_arith)
                requires den >= 1;
            lemma_div_is_ordered(den as int * 0x1_0000_0000, num as int, den as int);
            lemma_fundamental_div_mod_converse(
                den as int * 0x1_0000_0000,
                den as int,
                0x1_0000_0000,
                0,
            );
        }
        0x1_0000_0000
    } else {
        let q: u128 = (num as u128) / (den as u128);
        proof {
            lemma_div_is_ordered(0, num as int, den as int);
            lemma_fundamental_div_mod_converse(
                den as int * 0x1_0000_0000 - 1,
                den as int,
                0x1_0000_0000 - 1,
                den as int - 1,
            );
            assert((den as int) * 0x1_0000_0000 - 1 == ((0x1_0000_0000 - 1) * den as int) + (
                den as int - 1)) by (nonlinear_arith);
            lemma_div_is_ordered(num as int, den as int * 0x1_0000_0000 - 1, den as int);
        }
        q as i64
    };
    proof {
        // A clamped ratio shapes to the same value as the raw one.
        lemma_smoothing_clamps(ratio);
        lemma_smoothing_endpoints();
    }
    let sv: i64 = apply_smoothing(smoothing, clamped);
    assert(sv == apply_smoothing_spec(smoothing, ratio));
    assert(0 <= sv <= 0x1_0000_0000);
    let ghost blend_num = (sv as int) * (dst_sup as int - dst_inf as int);
    let d: i128 = dst_sup as i128 - dst_inf as i128;
    if d >= 0 {
        proof {
            assert((sv as int) * (d as int) >= 0) by (nonlinear_arith)
                requires sv >= 0 && d >= 0;
            assert((sv as int) * (d as int) <= 0x1_0000_0000 * (d as int)) by (nonlinear_arith)
                requires 0 <= sv <= 0x1_0000_0000 && d >= 0;
        }
        let prod: u128 = (sv as u128) * (d as u128);
        let t: u128 = prod / 0x1_0000_0000;
        proof {
            lemma_div_is_ordered(blend_num, 0x1_0000_0000 * (d as int), 0x1_0000_0000);
            lemma_fundamental_div_mod_converse(
                0x1_0000_0000 * (d as int),
                0x1_0000_0000,
                d as int,
                0,
            );
            lemma_div_is_ordered(0, blend_num, 0x1_0000_0000);
        }
        ((dst_inf as i128) + (t as i128)) as i64
    } else {
        // Negative span: the Euclidean (floor) quotient of a negative product
        // is minus the ceiling of its magnitude's quotient.
        let dn: u128 = (-d) as u128;
        proof {
            assert((sv as int) * (dn as int) >= 0) by (nonlinear_arith)
                requires sv >= 0 && dn as int >= 0;
            assert((sv as int) * (dn as int) <= 0x1_0000_0000 * (dn as int))
                by (nonlinear_arith)
                requires 0 <= sv <= 0x1_0000_0000 && dn as int >= 0;
        }
        let prod: u128 = (sv as u128) * dn;
        let tn: u128 = (prod + 0xffff_ffff) / 0x1_0000_0000;
        proof {
            let m = (sv as int) * (dn as int);
            assert(blend_num == -m) by (nonlinear_arith)
                requires blend_num == (sv as int) * (dst_sup as int - dst_inf as int) && m == (
                sv as int) * (dn as int) && dn as int == -(dst_sup as int - dst_inf as int);
            lemma_fundamental_div_mod(m + 0xffff_ffff, 0x1_0000_0000);
            let q = (m + 0xffff_ffff) / 0x1_0000_0000;
            let rr = (m + 0xffff_ffff) % 0x1_0000_0000;
            assert(-m == (-q) * 0x1_0000_0000 + (0xffff_ffff - rr)) by (nonlinear_arith)
                requires m + 0xffff_ffff == q * 0x1_0000_0000 + rr;
            lemma_fundamental_div_mod_converse(-m, 0x1_0000_0000, -q, 0xffff_ffff - rr);
            // tn is at most dn, so the result stays at or above dst_sup.
            lemma_div_is_ordered(
                m + 0xffff_ffff,
                0x1_0000_0000 * (dn as int) + 0xffff_ffff,
                0x1_0000_0000,
            );
            lemma_fundamental_div_mod_converse(
                0x1_0000_0000 * (dn as int) + 0xffff_ffff,
                0x1_0000_0000,
                dn as int,
                0xffff_ffff,
            );
            lemma_div_is_ordered(0, m + 0xffff_ffff, 0x1_0000_0000);
        }
        ((dst_inf as i128) - (tn as i128)) as i64
    }
}

} // verus!
