//! Coherent noise: recursive multilinear interpolation over the lattice.
//!
//! A sample point is a sequence of Q32 coordinates (the continuous axes, in
//! order) together with a sequence of channel integers.  With no axes left,
//! the sample is the lattice hash of the channel sequence.  Otherwise the
//! first axis is collapsed: the two sub-samples with the axis pinned to its
//! bracketing lattice values (floor appended to the channels, then floor plus
//! one) are combined by cosine-eased interpolation at the coordinate's
//! fractional part.  Each axis therefore contributes one fold of recursion,
//! and a point with `N` axes touches `2^N` lattice hashes.

use crate::fixed::{floor_part, frac_part, split_coord};
use crate::hash::{lattice_hash, lattice_hash_spec};
use crate::smoothing::{
    interpolate, interpolate_spec, lemma_blend_bracket, lemma_smoothing_endpoints,
    lemma_smoothing_range, Smoothing,
};
use vstd::arithmetic::div_mod::{lemma_div_is_ordered, lemma_fundamental_div_mod_converse};
use vstd::prelude::*;

verus! {

/// A coordinate whose axis can be bracketed: its floor and its floor plus
/// one must both fit a 32-bit channel value.  Only the top of the range needs
/// ruling out; the floor of an `i64` coordinate never falls below `i32::MIN`.
pub open spec fn coord_ok(x: i64) -> bool {
    floor_part(x) < 0x7fff_ffff
}

/// All coordinates from position `i` on can be bracketed.
pub open spec fn coords_ok_from(xs: Seq<i64>, i: int) -> bool {
    forall|j: int| i <= j < xs.len() ==> coord_ok(#[trigger] xs[j])
}

/// All coordinates can be bracketed.
pub open spec fn coords_ok(xs: Seq<i64>) -> bool {
    coords_ok_from(xs, 0)
}

/// The sample with the axes before position `i` already collapsed into the
/// channel sequence: the base case hashes the channels, and each remaining
/// axis interpolates between its two pinned sub-samples.
pub open spec fn coherent_at(xs: Seq<i64>, i: int, chans: Seq<i32>) -> int
    decreases xs.len() - i,
{
    if i < 0 || i >= xs.len() {
        lattice_hash_spec(chans)
    } else {
        let x0 = xs[i];
        let inf = coherent_at(xs, i + 1, chans.push(floor_part(x0) as i32));
        let sup = coherent_at(xs, i + 1, chans.push((floor_part(x0) + 1) as i32));
        interpolate_spec(
            Smoothing::CosineEase,
            frac_part(x0),
            0,
            0x1_0000_0000,
            inf,
            sup,
        )
    }
}

/// The engine's sample at a point: all axes still to collapse.
pub open spec fn coherent_spec(xs: Seq<i64>, chans: Seq<i32>) -> int {
    coherent_at(xs, 0, chans)
}

/// With no continuous axes, the sample is exactly the lattice hash of the
/// channel sequence.
pub proof fn lemma_coherent_empty(chans: Seq<i32>)
    ensures
        coherent_spec(Seq::<i64>::empty(), chans) == lattice_hash_spec(chans),
{
}

/// The lattice coordinates accumulated by collapsing the axes from position
/// `i` on, each at its floor.
pub open spec fn floors_from(xs: Seq<i64>, i: int) -> Seq<i32>
    decreases xs.len() - i,
{
    if i < 0 || i >= xs.len() {
        Seq::<i32>::empty()
    } else {
        seq![floor_part(xs[i]) as i32] + floors_from(xs, i + 1)
    }
}

/// Lattice points are recovered exactly: when every remaining coordinate
/// sits on its lattice value (zero fractional part), the sample equals the
/// lattice hash of the channels extended by those coordinates' floors.  This
/// is the boundary-continuity anchor: approaching a lattice point along any
/// axis, the interpolation weight vanishes together with the fractional part.
pub proof fn lemma_lattice_points_exact(xs: Seq<i64>, i: int, chans: Seq<i32>)
    requires
        0 <= i <= xs.len(),
        forall|j: int| i <= j < xs.len() ==> frac_part(#[trigger] xs[j]) == 0,
    ensures
        coherent_at(xs, i, chans) == lattice_hash_spec(chans + floors_from(xs, i)),
    decreases xs.len() - i,
{
    if i >= xs.len() {
        assert(chans + floors_from(xs, i) =~= chans);
    } else {
        let x0 = xs[i];
        let n = floor_part(x0) as i32;
        let inf = coherent_at(xs, i + 1, chans.push(n));
        lemma_lattice_points_exact(xs, i + 1, chans.push(n));
        assert(chans.push(n) + floors_from(xs, i + 1) =~= chans + floors_from(xs, i));
        // With a zero fractional part the ratio is zero, the kernel returns
        // zero, and the blend collapses onto the lower sub-sample.
        assert(frac_part(x0) * 0x1_0000_0000 == 0);
        lemma_fundamental_div_mod_converse(0, 0x1_0000_0000, 0, 0);
        lemma_smoothing_endpoints();
        let sup = coherent_at(xs, i + 1, chans.push((floor_part(x0) + 1) as i32));
        assert(0 * (sup - inf) == 0);
        assert(coherent_at(xs, i, chans) == inf);
    }
}

/// Every sample lies in `[0, FIXED_ONE)`: the base case is the hash's range,
/// and interpolation never leaves the interval spanned by its sub-samples.
pub proof fn lemma_coherent_range(xs: Seq<i64>, i: int, chans: Seq<i32>)
    ensures
        0 <= coherent_at(xs, i, chans) < 0x1_0000_0000,
    decreases xs.len() - i,
{
    if i < 0 || i >= xs.len() {
        crate::hash::lemma_hash_range(chans);
    } else {
        let x0 = xs[i];
        let inf = coherent_at(xs, i + 1, chans.push(floor_part(x0) as i32));
        let sup = coherent_at(xs, i + 1, chans.push((floor_part(x0) + 1) as i32));
        lemma_coherent_range(xs, i + 1, chans.push(floor_part(x0) as i32));
        lemma_coherent_range(xs, i + 1, chans.push((floor_part(x0) + 1) as i32));
        let ratio = crate::smoothing::ratio_spec(frac_part(x0), 0, 0x1_0000_0000);
        lemma_smoothing_range(ratio);
        lemma_blend_bracket(crate::smoothing::smoothcos_spec(ratio), inf, sup);
    }
}

/// Collapsing one axis never leaves the interval spanned by the two pinned
/// sub-samples: the sample lies between the noise at the axis's floor and
/// the noise at its floor plus one, whichever order those fall in.
pub proof fn lemma_coherent_bracket(xs: Seq<i64>, chans: Seq<i32>)
    requires
        xs.len() > 0,
    ensures
        ({
            let inf = coherent_at(xs, 1, chans.push(floor_part(xs[0]) as i32));
            let sup = coherent_at(xs, 1, chans.push((floor_part(xs[0]) + 1) as i32));
            (inf <= sup ==> inf <= coherent_spec(xs, chans) <= sup) && (sup <= inf ==> sup
                <= coherent_spec(xs, chans) <= inf)
        }),
{
    let x0 = xs[0];
    let inf = coherent_at(xs, 1, chans.push(floor_part(x0) as i32));
    let sup = coherent_at(xs, 1, chans.push((floor_part(x0) + 1) as i32));
    let ratio = crate::smoothing::ratio_spec(frac_part(x0), 0, 0x1_0000_0000);
    lemma_smoothing_range(ratio);
    lemma_blend_bracket(crate::smoothing::smoothcos_spec(ratio), inf, sup);
}

/// Boundary continuity, quantitatively: along the first axis the sample
/// strays from its lower lattice anchor by at most the eased fraction.  The
/// ease is monotone and exactly zero at zero, so as a coordinate approaches
/// its lattice value the sample approaches the anchor, which
/// [`lemma_lattice_points_exact`] pins down exactly at the lattice itself.
pub proof fn lemma_boundary_deviation(xs: Seq<i64>, chans: Seq<i32>)
    requires
        xs.len() > 0,
    ensures
        ({
            let anchor = coherent_at(xs, 1, chans.push(floor_part(xs[0]) as i32));
            let ease = crate::smoothing::smoothcos_spec(frac_part(xs[0]));
            -ease <= coherent_spec(xs, chans) - anchor <= ease
        }),
{
    let x0 = xs[0];
    let f = frac_part(x0);
    let inf = coherent_at(xs, 1, chans.push(floor_part(x0) as i32));
    let sup = coherent_at(xs, 1, chans.push((floor_part(x0) + 1) as i32));
    assert(crate::smoothing::ratio_spec(f, 0, 0x1_0000_0000) == f) by {
        lemma_fundamental_div_mod_converse(f * 0x1_0000_0000, 0x1_0000_0000, f, 0);
    }
    let s = crate::smoothing::smoothcos_spec(f);
    lemma_smoothing_range(f);
    lemma_coherent_range(xs, 1, chans.push(floor_part(x0) as i32));
    lemma_coherent_range(xs, 1, chans.push((floor_part(x0) + 1) as i32));
    let d = sup - inf;
    assert(s * d <= s * 0x1_0000_0000) by (nonlinear_arith)
        requires s >= 0 && d <= 0x1_0000_0000;
    assert((-s) * 0x1_0000_0000 <= s * d) by (nonlinear_arith)
        requires s >= 0 && d >= -0x1_0000_0000;
    lemma_div_is_ordered(s * d, s * 0x1_0000_0000, 0x1_0000_0000);
    lemma_div_is_ordered((-s) * 0x1_0000_0000, s * d, 0x1_0000_0000);
    lemma_fundamental_div_mod_converse(s * 0x1_0000_0000, 0x1_0000_0000, s, 0);
    lemma_fundamental_div_mod_converse((-s) * 0x1_0000_0000, 0x1_0000_0000, -s, 0);
}

/// On a single axis the two sub-samples are lattice hashes themselves: the
/// sample lies between the hash at the floor and the hash one lattice step
/// above, whichever order those fall in.
pub proof fn lemma_single_axis_between_hashes(x: i64, chans: Seq<i32>)
    ensures
        ({
            let inf = lattice_hash_spec(chans.push(floor_part(x) as i32));
            let sup = lattice_hash_spec(chans.push((floor_part(x) + 1) as i32));
            (inf <= sup ==> inf <= coherent_spec(seq![x], chans) <= sup) && (sup <= inf ==> sup
                <= coherent_spec(seq![x], chans) <= inf)
        }),
{
    lemma_coherent_bracket(seq![x], chans);
}

/// The recursion itself: collapses the axes from position `i` on, using the
/// channel buffer as scratch space and restoring it before returning.
fn coherent_rec(xs: &Vec<i64>, i: usize, chans: &mut Vec<i32>) -> (v: u64)
    requires
        i <= xs@.len(),
        coords_ok_from(xs@, i as int),
    ensures
        final(chans)@ == old(chans)@,
        v == coherent_at(xs@, i as int, old(chans)@),
        v < 0x1_0000_0000,
    decreases xs@.len() - i,
{
    if i == xs.len() {
        lattice_hash(chans)
    } else {
        let (n, f) = split_coord(xs[i]);
        assert(coord_ok(xs@[i as int]));
        let n32: i32 = n as i32;
        let ghost chans0 = chans@;
        chans.push(n32);
        let inf: u64 = coherent_rec(xs, i + 1, chans);
        let _ = chans.pop();
        proof {
            assert(chans0.push(n32).subrange(0, chans0.push(n32).len() - 1) =~= chans0);
        }
        chans.push(n32 + 1);
        let sup: u64 = coherent_rec(xs, i + 1, chans);
        let _ = chans.pop();
        proof {
            assert(chans0.push((n32 + 1) as i32).subrange(
                0,
                chans0.push((n32 + 1) as i32).len() - 1,
            ) =~= chans0);
        }
        let r: i64 = interpolate(
            Smoothing::CosineEase,
            f as i64,
            0,
            0x1_0000_0000,
            inf as i64,
            sup as i64,
        );
        r as u64
    }
}

/// Evaluates the coherent noise at a point: Q32 coordinates for the
/// continuous axes, channel integers to decorrelate fields sharing the same
/// coordinates.  The sample is a pure function of the two sequences and lies
/// in `[0, FIXED_ONE)`; at lattice points it coincides with the lattice hash.
/// Each coordinate's floor must leave head room for the upper bracket
/// (`floor < i32::MAX`), the one demand Q32 arithmetic makes.
pub fn coherent_noise(xs: &Vec<i64>, channels: &Vec<i32>) -> (v: u64)
    requires
        coords_ok(xs@),
    ensures
        v == coherent_spec(xs@, channels@),
        v < 0x1_0000_0000,
{
    let mut scratch: Vec<i32> = Vec::new();
    let n: usize = channels.len();
    assert(scratch@ =~= channels@.take(0));
    for j in 0..n
        invariant
            n == channels@.len(),
            scratch@ == channels@.take(j as int),
    {
        scratch.push(channels[j]);
        proof {
            assert(channels@.take(j as int).push(channels@[j as int]) =~= channels@.take(
                j + 1,
            ));
        }
    }
    proof {
        assert(channels@.take(n as int) =~= channels@);
    }
    coherent_rec(xs, 0, &mut scratch)
}

} // verus!
