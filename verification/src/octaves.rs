//! Octave summation: fractal noise from a stack of frequencies.
//!
//! Each octave samples the coherent noise, then doubles every coordinate and
//! halves the weight for the next one, so detail accumulates at finer scales
//! with diminishing influence.  The first octave is sampled at the
//! coordinates as given, with full weight; the weighted sum is normalized by
//! the weight total, which keeps the result in `[0, FIXED_ONE)` whatever the
//! octave count.  (A variant that doubles before the first sample exists in
//! the wild; this engine's canonical order is sample first, then double.)
//!
//! With weights scaled by `2^(count - 1)` every weight is the integer
//! `2^(count - 1 - k)` and the weight total is `2^count - 1`: the sum is
//! exact, with no rounding in the coefficients themselves.

use crate::noise::{coherent_noise, coherent_spec, coord_ok, lemma_coherent_range};
use vstd::arithmetic::div_mod::{lemma_div_is_ordered, lemma_fundamental_div_mod_converse};
use vstd::arithmetic::mul::lemma_mul_inequality;
use vstd::arithmetic::power2::{
    lemma2_to64, lemma_pow2_pos, lemma_pow2_strictly_increases, lemma_pow2_unfold, pow2,
};
use vstd::bits::lemma_u64_shl_is_mul;
use vstd::prelude::*;

verus! {

/// Every coordinate doubled: the same point at twice the spatial frequency.
pub open spec fn doubled(xs: Seq<i64>) -> Seq<i64> {
    xs.map_values(|x: i64| (2 * x) as i64)
}

/// The weighted octave sum, scaled by `2^(count - 1)` so that octave `k`
/// carries the integer weight `2^(count - 1 - k)`: the first octave counts
/// in full, each following one half as much, at doubled coordinates.
pub open spec fn octave_weighted_sum(count: nat, xs: Seq<i64>, chans: Seq<i32>) -> int
    decreases count,
{
    if count == 0 {
        0
    } else {
        pow2((count - 1) as nat) * coherent_spec(xs, chans) + octave_weighted_sum(
            (count - 1) as nat,
            doubled(xs),
            chans,
        )
    }
}

/// The normalized octave sum: the weighted sum over the weight total
/// `2^count - 1`.
pub open spec fn octave_spec(count: nat, xs: Seq<i64>, chans: Seq<i32>) -> int {
    octave_weighted_sum(count, xs, chans) / (pow2(count) - 1)
}

/// A coordinate that survives every frequency doubling: scaled to the final
/// octave it still fits an `i64` and leaves the bracketing head room.
pub open spec fn octave_coord_ok(x: i64, count: nat) -> bool {
    -0x8000_0000_0000_0000 <= x * pow2((count - 1) as nat) < 0x7fff_ffff_0000_0000
}

/// All coordinates survive every doubling up to the given octave count.
pub open spec fn octave_coords_ok(xs: Seq<i64>, count: nat) -> bool {
    forall|j: int| 0 <= j < xs.len() ==> octave_coord_ok(#[trigger] xs[j], count)
}

/// A coordinate fit for `m` octaves can be sampled now (its floor leaves
/// bracketing head room) and, with at least two octaves left, doubled into a
/// coordinate fit for `m - 1`.
proof fn lemma_octave_coord_step(x: i64, m: nat)
    requires
        1 <= m,
        octave_coord_ok(x, m),
    ensures
        coord_ok(x),
        m >= 2 ==> -0x8000_0000_0000_0000 <= 2 * x < 0x7fff_ffff_0000_0000,
        m >= 2 ==> octave_coord_ok((2 * x) as i64, (m - 1) as nat),
{
    let p = pow2((m - 1) as nat);
    lemma_pow2_pos((m - 1) as nat);
    assert(x >= 0 ==> x <= x * p) by (nonlinear_arith)
        requires p >= 1;
    assert(x < 0x7fff_ffff_0000_0000);
    // floor(x) < 0x7fff_ffff follows because x sits below that lattice row.
    lemma_fundamental_div_mod_converse(
        0x7fff_ffff_0000_0000 - 1,
        0x1_0000_0000,
        0x7fff_fffe,
        0xffff_ffff,
    );
    lemma_div_is_ordered(x as int, 0x7fff_ffff_0000_0000 - 1, 0x1_0000_0000);
    if m >= 2 {
        let q = pow2((m - 2) as nat);
        lemma_pow2_unfold((m - 1) as nat);
        lemma_pow2_pos((m - 2) as nat);
        assert(x >= 0 ==> 2 * x <= x * p) by (nonlinear_arith)
            requires p >= 2;
        assert(x < 0 ==> x * p <= 2 * x) by (nonlinear_arith)
            requires p >= 2;
        assert((2 * x) * q == x * p) by (nonlinear_arith)
            requires p == 2 * q;
    }
}

/// The weighted sum of any `count` octaves lies between zero and the weight
/// total times the largest sample, exclusive of the unit itself.
proof fn lemma_octave_sum_bounds(count: nat, xs: Seq<i64>, chans: Seq<i32>)
    ensures
        0 <= octave_weighted_sum(count, xs, chans) <= (pow2(count) - 1) * 0xffff_ffff,
    decreases count,
{
    lemma2_to64();
    if count == 0 {
    } else {
        let w = pow2((count - 1) as nat);
        let v = coherent_spec(xs, chans);
        lemma_coherent_range(xs, 0, chans);
        lemma_octave_sum_bounds((count - 1) as nat, doubled(xs), chans);
        lemma_pow2_pos((count - 1) as nat);
        assert(0 <= w * v) by (nonlinear_arith)
            requires w >= 0 && v >= 0;
        assert(w * v <= w * 0xffff_ffff) by (nonlinear_arith)
            requires w >= 1 && v <= 0xffff_ffff;
        lemma_pow2_unfold(count);
        assert((pow2(count) - 1) * 0xffff_ffff == w * 0xffff_ffff + (w - 1) * 0xffff_ffff)
            by (nonlinear_arith)
            requires pow2(count) == 2 * w;
    }
}

/// Normalization works for any octave count: dividing the weighted sum by
/// the weight total keeps every fractal sample inside `[0, FIXED_ONE)`, so
/// callers can vary the detail level without rebalancing the output scale.
pub proof fn lemma_octave_range(count: nat, xs: Seq<i64>, chans: Seq<i32>)
    requires
        count >= 1,
    ensures
        0 <= octave_spec(count, xs, chans) < 0x1_0000_0000,
{
    lemma_octave_sum_bounds(count, xs, chans);
    lemma2_to64();
    lemma_pow2_strictly_increases(0, count);
    let total = octave_weighted_sum(count, xs, chans);
    let denom = pow2(count) - 1;
    lemma_div_is_ordered(0, total, denom);
    lemma_div_is_ordered(total, denom * 0xffff_ffff, denom);
    lemma_fundamental_div_mod_converse(denom * 0xffff_ffff, denom, 0xffff_ffff, 0);
}

/// A single octave is plain coherent noise: with `count == 1` the weighted
/// sum is one full-weight sample and the weight total is one.
pub proof fn lemma_octave_single(xs: Seq<i64>, chans: Seq<i32>)
    ensures
        octave_spec(1, xs, chans) == coherent_spec(xs, chans),
{
    lemma2_to64();
    let v = coherent_spec(xs, chans);
    assert(octave_weighted_sum(0, doubled(xs), chans) == 0);
    assert(octave_weighted_sum(1, xs, chans) == 1 * v + 0);
    lemma_coherent_range(xs, 0, chans);
    lemma_fundamental_div_mod_converse(v, 1, v, 0);
}

/// Doubles every coordinate for the next octave, provided at least two
/// octaves remain so the doubled values stay in range.
fn doubled_coords(work: &Vec<i64>, Ghost(m): Ghost<nat>) -> (next: Vec<i64>)
    requires
        2 <= m,
        octave_coords_ok(work@, m),
    ensures
        next@ == doubled(work@),
        octave_coords_ok(next@, (m - 1) as nat),
{
    let n: usize = work.len();
    let mut next: Vec<i64> = Vec::new();
    for j in 0..n
        invariant
            n == work@.len(),
            next@.len() == j,
            forall|t: int| 0 <= t < j ==> next@[t] == (2 * work@[t]) as i64,
            octave_coords_ok(work@, m),
            2 <= m,
    {
        proof {
            lemma_octave_coord_step(work@[j as int], m);
        }
        next.push(2 * work[j]);
    }
    proof {
        assert(next@ =~= doubled(work@));
        assert forall|j: int| 0 <= j < next@.len() implies octave_coord_ok(
            #[trigger] next@[j],
            (m - 1) as nat,
        ) by {
            lemma_octave_coord_step(work@[j], m);
            assert(next@[j] == (2 * work@[j]) as i64);
        }
    }
    next
}

/// Evaluates fractal noise: `octave_count` octaves of coherent noise, each
/// at double the previous frequency and half its weight, normalized back to
/// `[0, FIXED_ONE)`.  At least one octave is required (the weight total of
/// zero octaves would be zero); the count is capped and the coordinates
/// bounded so that every doubling stays within the Q32 range.
#[verifier::rlimit(60)]
pub fn octave_noise(octave_count: u32, xs: &Vec<i64>, channels: &Vec<i32>) -> (v: u64)
    requires
        1 <= octave_count <= 30,
        octave_coords_ok(xs@, octave_count as nat),
    ensures
        v == octave_spec(octave_count as nat, xs@, channels@),
        v < 0x1_0000_0000,
{
    let count: u32 = octave_count;
    let n: usize = xs.len();
    let mut work: Vec<i64> = Vec::new();
    assert(work@ =~= xs@.take(0));
    for j in 0..n
        invariant
            n == xs@.len(),
            work@ == xs@.take(j as int),
    {
        work.push(xs[j]);
        proof {
            assert(xs@.take(j as int).push(xs@[j as int]) =~= xs@.take(j + 1));
        }
    }
    proof {
        assert(xs@.take(n as int) =~= xs@);
    }
    let mut acc: u64 = 0;
    proof {
        lemma2_to64();
        lemma_pow2_strictly_increases((count - 1) as nat, 31);
        lemma_pow2_strictly_increases(count as nat, 31);
    }
    let mut weight: u64 = 1u64 << ((count - 1) as u64);
    proof {
        lemma_u64_shl_is_mul(1u64, (count - 1) as u64);
    }
    let ghost total = octave_weighted_sum(count as nat, xs@, channels@);
    for k in 0..count
        invariant
            n == xs@.len(),
            1 <= count <= 30,
            total == octave_weighted_sum(count as nat, xs@, channels@),
            acc + octave_weighted_sum((count - k) as nat, work@, channels@) == total,
            k < count ==> weight == pow2((count - 1 - k) as nat),
            k < count ==> octave_coords_ok(work@, (count - k) as nat),
            octave_coords_ok(xs@, count as nat),
    {
        let ghost m = (count - k) as nat;
        proof {
            assert forall|j: int| 0 <= j < work@.len() implies coord_ok(#[trigger] work@[j]) by {
                lemma_octave_coord_step(work@[j], m);
            }
        }
        let s: u64 = coherent_noise(&work, channels);
        proof {
            // One unfolding of the weighted sum: this octave's term plus the
            // sum of the rest at doubled coordinates.
            assert(octave_weighted_sum(m, work@, channels@) == pow2((m - 1) as nat)
                * coherent_spec(work@, channels@) + octave_weighted_sum(
                (m - 1) as nat,
                doubled(work@),
                channels@,
            ));
            lemma2_to64();
            lemma_pow2_strictly_increases((m - 1) as nat, 30);
            assert(weight * s < 0x4000_0000 * 0x1_0000_0000) by (nonlinear_arith)
                requires 0 <= weight < 0x4000_0000 && 0 <= s < 0x1_0000_0000;
            lemma_octave_sum_bounds((m - 1) as nat, doubled(work@), channels@);
            lemma_octave_sum_bounds(count as nat, xs@, channels@);
            lemma_pow2_strictly_increases(count as nat, 31);
            assert((pow2(count as nat) - 1) * 0xffff_ffff <= 0x8000_0000 * 0xffff_ffff)
                by (nonlinear_arith)
                requires pow2(count as nat) <= 0x8000_0000;
        }
        acc = acc + weight * s;
        proof {
            if k + 1 < count {
                lemma_pow2_unfold((count - 1 - k) as nat);
                lemma_fundamental_div_mod_converse(
                    pow2((count - 1 - k) as nat) as int,
                    2,
                    pow2((count - 2 - k) as nat) as int,
                    0,
                );
            }
        }
        weight = weight / 2;
        if k + 1 < count {
            let next: Vec<i64> = doubled_coords(&work, Ghost(m));
            work = next;
        }
    }
    proof {
        assert(octave_weighted_sum(0, work@, channels@) == 0);
        assert(acc == total);
        lemma_octave_sum_bounds(count as nat, xs@, channels@);
        lemma2_to64();
        lemma_pow2_strictly_increases(count as nat, 31);
        lemma_pow2_pos(count as nat);
        lemma_u64_shl_is_mul(1u64, count as u64);
    }
    let denom: u64 = (1u64 << (count as u64)) - 1;
    proof {
        assert(denom >= 1) by {
            lemma_pow2_unfold(count as nat);
            lemma_pow2_pos((count - 1) as nat);
        }
        // The normalized value stays below the unit: the weighted sum is at
        // most the weight total times the largest sample.
        lemma_div_is_ordered(acc as int, (denom as int) * 0xffff_ffff, denom as int);
        lemma_fundamental_div_mod_converse(
            (denom as int) * 0xffff_ffff,
            denom as int,
            0xffff_ffff,
            0,
        );
        lemma_div_is_ordered(0, acc as int, denom as int);
    }
    acc / denom
}

} // verus!
