//! A fixed-point cosine.
//!
//! The engine needs a cosine in two places: the lattice hash ends with
//! `fract(cos(a + b))`, and the cosine-ease smoothing kernel is
//! `(cos((1 - x) * pi) + 1) / 2`.  Floating point is out of reach here, so the
//! cosine is defined once and for all over integers: angles are fractions of a
//! full turn in Q32 (a phase of `2^32` is one full period), and the result is
//! a Q32 value in `[-FIXED_ONE, FIXED_ONE]`.
//!
//! The curve is a sixteen-segment piecewise-linear approximation of a quarter
//! wave, extended to the full period by the usual symmetries.  It is exact at
//! the places the engine's contracts depend on (`cos(0) == 1`,
//! `cos(pi/2) == 0`, `cos(pi) == -1`) and monotone on each half period.

use vstd::arithmetic::div_mod::{
    lemma_div_is_ordered, lemma_fundamental_div_mod, lemma_fundamental_div_mod_converse,
};
use vstd::arithmetic::mul::lemma_mul_inequality;
use vstd::prelude::*;

verus! {

/// Samples of `cos` on the first quarter period, in Q32: entry `k` is
/// `round(cos(k * pi / 32) * 2^32)`, for `k` in `0 ..= 16`.
pub open spec fn cos_table(k: int) -> u64 {
    if k <= 0 {
        0x1_0000_0000
    } else if k == 1 {
        0xfec4_6d1f
    } else if k == 2 {
        0xfb14_be80
    } else if k == 3 {
        0xf4fa_0ab6
    } else if k == 4 {
        0xec83_5e7a
    } else if k == 5 {
        0xe1c5_978c
    } else if k == 6 {
        0xd4db_3148
    } else if k == 7 {
        0xc5e4_0359
    } else if k == 8 {
        0xb504_f334
    } else if k == 9 {
        0xa267_9928
    } else if k == 10 {
        0x8e39_d9cd
    } else if k == 11 {
        0x78ad_74e0
    } else if k == 12 {
        0x61f7_8a9b
    } else if k == 13 {
        0x4a50_18bb
    } else if k == 14 {
        0x31f1_7079
    } else if k == 15 {
        0x1917_a6bc
    } else {
        0
    }
}

/// The table is strictly decreasing from one entry to the next.
proof fn lemma_cos_table_adjacent()
    ensures
        forall|k: int| 0 <= k < 16 ==> #[trigger] cos_table(k + 1) < cos_table(k),
{
}

/// The table is monotone over any pair of indices.
pub proof fn lemma_cos_table_mono(i: int, j: int)
    requires
        0 <= i <= j <= 16,
    ensures
        cos_table(j) <= cos_table(i),
    decreases j - i,
{
    if i < j {
        lemma_cos_table_mono(i, j - 1);
        lemma_cos_table_adjacent();
    }
}

/// Cosine on the first quarter period.  The phase `r` ranges over
/// `[0, 2^30]` (a quarter turn is `2^30`); the result interpolates linearly
/// between the two bracketing table entries, `2^26` phase units per segment.
pub open spec fn cos_quarter_spec(r: int) -> int {
    let k = r / 0x400_0000;
    let off = r % 0x400_0000;
    if k >= 16 {
        0
    } else {
        cos_table(k) - ((cos_table(k) - cos_table(k + 1)) * off) / 0x400_0000
    }
}

/// The quarter-wave cosine stays within `[0, FIXED_ONE]`, never rising above
/// the lower table entry of its segment nor falling below the upper one.
pub proof fn lemma_cos_quarter_bounds(r: int)
    requires
        0 <= r <= 0x4000_0000,
    ensures
        0 <= cos_quarter_spec(r) <= 0x1_0000_0000,
{
    let k = r / 0x400_0000;
    let off = r % 0x400_0000;
    lemma_div_is_ordered(0, r, 0x400_0000);
    lemma_div_is_ordered(r, 0x4000_0000, 0x400_0000);
    if k < 16 {
        let d = cos_table(k) - cos_table(k + 1);
        lemma_cos_table_adjacent();
        lemma_cos_table_mono(0, k);
        lemma_cos_table_mono(k + 1, 16);
        assert(0 <= d * off) by (nonlinear_arith)
            requires 0 <= d && 0 <= off;
        lemma_div_is_ordered(0, d * off, 0x400_0000);
        lemma_mul_inequality(off, 0x400_0000, d);
        assert(off * d == d * off) by (nonlinear_arith);
        assert(0x400_0000 * d == d * 0x400_0000) by (nonlinear_arith);
        lemma_div_is_ordered(d * off, d * 0x400_0000, 0x400_0000);
        assert((d * 0x400_0000) / 0x400_0000 == d) by (nonlinear_arith);
    }
}

/// The quarter-wave cosine is monotone non-increasing in the phase.
pub proof fn lemma_cos_quarter_mono(r1: int, r2: int)
    requires
        0 <= r1 <= r2 <= 0x4000_0000,
    ensures
        cos_quarter_spec(r2) <= cos_quarter_spec(r1),
{
    let k1 = r1 / 0x400_0000;
    let off1 = r1 % 0x400_0000;
    let k2 = r2 / 0x400_0000;
    let off2 = r2 % 0x400_0000;
    lemma_div_is_ordered(0, r1, 0x400_0000);
    lemma_div_is_ordered(r1, r2, 0x400_0000);
    lemma_div_is_ordered(r2, 0x4000_0000, 0x400_0000);
    lemma_cos_quarter_bounds(r1);
    lemma_cos_quarter_bounds(r2);
    if k2 < 16 {
        let d2 = cos_table(k2) - cos_table(k2 + 1);
        lemma_cos_table_adjacent();
        if k1 == k2 {
            // Same segment: the subtracted term grows with the offset.
            lemma_fundamental_div_mod(r1, 0x400_0000);
            lemma_fundamental_div_mod(r2, 0x400_0000);
            assert(off1 <= off2);
            assert(d2 * off1 <= d2 * off2) by (nonlinear_arith)
                requires 0 <= d2 && off1 <= off2;
            lemma_div_is_ordered(d2 * off1, d2 * off2, 0x400_0000);
        } else {
            // Different segments: r1's value is at least its segment's upper
            // table entry, which dominates everything in r2's segment.
            let d1 = cos_table(k1) - cos_table(k1 + 1);
            lemma_mul_inequality(off1, 0x400_0000, d1);
            assert(off1 * d1 == d1 * off1) by (nonlinear_arith);
            assert(0x400_0000 * d1 == d1 * 0x400_0000) by (nonlinear_arith);
            lemma_div_is_ordered(d1 * off1, d1 * 0x400_0000, 0x400_0000);
            assert((d1 * 0x400_0000) / 0x400_0000 == d1) by (nonlinear_arith);
            assert(cos_quarter_spec(r1) >= cos_table(k1 + 1));
            lemma_cos_table_mono(k1 + 1, k2);
            assert(0 <= d2 * off2) by (nonlinear_arith)
                requires 0 <= d2 && 0 <= off2;
            lemma_div_is_ordered(0, d2 * off2, 0x400_0000);
        }
    }
}

/// The quarter-wave cosine is exact at both ends of its domain.
pub proof fn lemma_cos_quarter_ends()
    ensures
        cos_quarter_spec(0) == 0x1_0000_0000,
        cos_quarter_spec(0x4000_0000) == 0,
{
    lemma_fundamental_div_mod_converse(0, 0x400_0000, 0, 0);
    lemma_fundamental_div_mod_converse(0x4000_0000, 0x400_0000, 16, 0);
    assert((cos_table(0) - cos_table(1)) * 0 == 0) by (nonlinear_arith);
}

/// Executable mirror of [`cos_table`].
fn cos_table_at(k: u64) -> (v: u64)
    requires
        k <= 16,
    ensures
        v == cos_table(k as int),
{
    match k {
        0 => 0x1_0000_0000,
        1 => 0xfec4_6d1f,
        2 => 0xfb14_be80,
        3 => 0xf4fa_0ab6,
        4 => 0xec83_5e7a,
        5 => 0xe1c5_978c,
        6 => 0xd4db_3148,
        7 => 0xc5e4_0359,
        8 => 0xb504_f334,
        9 => 0xa267_9928,
        10 => 0x8e39_d9cd,
        11 => 0x78ad_74e0,
        12 => 0x61f7_8a9b,
        13 => 0x4a50_18bb,
        14 => 0x31f1_7079,
        15 => 0x1917_a6bc,
        _ => 0,
    }
}

/// Cosine on the first quarter period, in Q32 phase units.
pub fn cos_quarter(r: u64) -> (v: u64)
    requires
        r <= 0x4000_0000,
    ensures
        v == cos_quarter_spec(r as int),
        v <= 0x1_0000_0000,
{
    proof {
        lemma_cos_quarter_bounds(r as int);
    }
    let k: u64 = r / 0x400_0000;
    let off: u64 = r % 0x400_0000;
    if k >= 16 {
        0
    } else {
        let tk: u64 = cos_table_at(k);
        let tk1: u64 = cos_table_at(k + 1);
        proof {
            lemma_cos_table_adjacent();
            lemma_cos_table_mono(0, k as int);
            let d = tk - tk1;
            assert(d * off < 0x4_0000_0000_0000_0000) by (nonlinear_arith)
                requires 0 <= d <= 0x1_0000_0000 && 0 <= off < 0x400_0000;
            lemma_mul_inequality(off as int, 0x400_0000, d);
            assert(off * d == d * off) by (nonlinear_arith);
            assert(0x400_0000 * d == d * 0x400_0000) by (nonlinear_arith);
            lemma_div_is_ordered(d * off, d * 0x400_0000, 0x400_0000);
            assert((d * 0x400_0000) / 0x400_0000 == d) by (nonlinear_arith);
            assert(0 <= d * off) by (nonlinear_arith)
                requires 0 <= d && 0 <= off;
            lemma_div_is_ordered(0, d * off, 0x400_0000);
        }
        tk - ((tk - tk1) * off) / 0x400_0000
    }
}

/// Cosine on the first half period: phases `[0, 2^31]` cover angles
/// `[0, pi]`, using `cos(pi - t) == -cos(t)` past the quarter turn.
pub open spec fn cos_half_spec(t: int) -> int {
    if t <= 0x4000_0000 {
        cos_quarter_spec(t)
    } else {
        -cos_quarter_spec(0x8000_0000 - t)
    }
}

/// The half-wave cosine stays within `[-FIXED_ONE, FIXED_ONE]`.
pub proof fn lemma_cos_half_bounds(t: int)
    requires
        0 <= t <= 0x8000_0000,
    ensures
        -0x1_0000_0000 <= cos_half_spec(t) <= 0x1_0000_0000,
{
    if t <= 0x4000_0000 {
        lemma_cos_quarter_bounds(t);
    } else {
        lemma_cos_quarter_bounds(0x8000_0000 - t);
    }
}

/// The half-wave cosine is monotone non-increasing over `[0, pi]`.
pub proof fn lemma_cos_half_mono(t1: int, t2: int)
    requires
        0 <= t1 <= t2 <= 0x8000_0000,
    ensures
        cos_half_spec(t2) <= cos_half_spec(t1),
{
    if t2 <= 0x4000_0000 {
        lemma_cos_quarter_mono(t1, t2);
    } else if t1 > 0x4000_0000 {
        lemma_cos_quarter_mono(0x8000_0000 - t2, 0x8000_0000 - t1);
    } else {
        lemma_cos_quarter_bounds(t1);
        lemma_cos_quarter_mono(t1, 0x4000_0000);
        lemma_cos_quarter_ends();
        lemma_cos_quarter_bounds(0x8000_0000 - t2);
    }
}

/// The half-wave cosine is exact at `0`, `pi/2` and `pi`.
pub proof fn lemma_cos_half_ends()
    ensures
        cos_half_spec(0) == 0x1_0000_0000,
        cos_half_spec(0x4000_0000) == 0,
        cos_half_spec(0x8000_0000) == -0x1_0000_0000,
{
    lemma_cos_quarter_ends();
}

/// Cosine on the first half period, in Q32 phase units.
pub fn cos_half(t: u64) -> (v: i64)
    requires
        t <= 0x8000_0000,
    ensures
        v == cos_half_spec(t as int),
        -0x1_0000_0000 <= v <= 0x1_0000_0000,
{
    if t <= 0x4000_0000 {
        let q: u64 = cos_quarter(t);
        q as i64
    } else {
        let q: u64 = cos_quarter(0x8000_0000 - t);
        -(q as i64)
    }
}

/// Cosine over a full period: a phase in `[0, 2^32)` is a fraction of one
/// turn, folded onto the first half period by `cos(2*pi - t) == cos(t)`.
pub open spec fn cos_phase_spec(p: int) -> int {
    if p <= 0x8000_0000 {
        cos_half_spec(p)
    } else {
        cos_half_spec(0x1_0000_0000 - p)
    }
}

/// The full-period cosine stays within `[-FIXED_ONE, FIXED_ONE]`.
pub proof fn lemma_cos_phase_bounds(p: int)
    requires
        0 <= p < 0x1_0000_0000,
    ensures
        -0x1_0000_0000 <= cos_phase_spec(p) <= 0x1_0000_0000,
{
    if p <= 0x8000_0000 {
        lemma_cos_half_bounds(p);
    } else {
        lemma_cos_half_bounds(0x1_0000_0000 - p);
    }
}

/// Cosine over a full period, in Q32 phase units.
pub fn cos_phase(p: u64) -> (v: i64)
    requires
        p < 0x1_0000_0000,
    ensures
        v == cos_phase_spec(p as int),
        -0x1_0000_0000 <= v <= 0x1_0000_0000,
{
    if p <= 0x8000_0000 {
        cos_half(p)
    } else {
        cos_half(0x1_0000_0000 - p)
    }
}

} // verus!
