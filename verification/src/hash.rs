//! The lattice hash: a deterministic map from a sequence of lattice integers
//! (coordinates plus channel indices) to a Q32 sample in `[0, FIXED_ONE)`.
//!
//! Two 32-bit accumulators `a` and `b` start at zero.  For each position `i`
//! and value `x`, in order: `a ^= x`, then `b ^= 17 * (i + 11) + x` (wrapping),
//! then the accumulators swap, then `a ^= a << shift` where
//! `shift = (i + 7) mod ((b mod 11) + 5)` with `b` read as a signed value and
//! `mod` the Euclidean remainder, so the shift always lands in `[0, 14]`.
//! The position index is folded in, so two permutations of the same values
//! hash differently in general.  After folding every value the result is the
//! fractional part of `cos(a + b)`, which lands in `[0, 1)` even when the
//! cosine is negative; the empty sequence hashes to `fract(cos(0)) == 0`.

use crate::cosine::{cos_phase, cos_phase_spec, lemma_cos_half_ends, lemma_cos_phase_bounds};
use vstd::arithmetic::div_mod::{
    lemma_fundamental_div_mod_converse, lemma_mod_division_less_than_divisor,
    lemma_mod_multiples_vanish, lemma_mod_self_0, lemma_small_mod,
};
use vstd::prelude::*;

verus! {

/// Q32 turn-phase units per unit of accumulator sum: the nearest integer to
/// `2^32 / (2 * pi)`, so the sum `a + b` is read as an angle of that many
/// radians when the cosine is taken.
pub const PHASE_PER_UNIT: u64 = 683565276;

/// The signed value that a 32-bit accumulator word denotes.
pub open spec fn signed32(v: u32) -> int {
    if v < 0x8000_0000 {
        v as int
    } else {
        v as int - 0x1_0000_0000
    }
}

/// One folding step of the lattice hash, at position `i` with value `x`
/// (already in its 32-bit two's-complement form).
pub open spec fn mix_step(a: u32, b: u32, i: int, x: u32) -> (u32, u32) {
    let a1 = a ^ x;
    let t = (((17 * (i + 11)) + x) % 0x1_0000_0000) as u32;
    let b1 = b ^ t;
    let d = (signed32(a1) % 11) + 5;
    let s = ((i + 7) % d) as u32;
    (b1 ^ (b1 << s), a1)
}

/// The accumulator pair after folding a whole sequence, position by position.
pub open spec fn mix_seq(xs: Seq<i32>) -> (u32, u32)
    decreases xs.len(),
{
    if xs.len() == 0 {
        (0u32, 0u32)
    } else {
        let p = mix_seq(xs.drop_last());
        mix_step(p.0, p.1, xs.len() - 1, xs.last() as u32)
    }
}

/// The turn phase of the final accumulator sum `a + b`, read as signed values.
pub open spec fn hash_phase(a: u32, b: u32) -> int {
    ((signed32(a) + signed32(b)) * 683565276) % 0x1_0000_0000
}

/// Fractional part of a Q32 value: the value minus its floor, in
/// `[0, FIXED_ONE)`.
pub open spec fn fract_unit(c: int) -> int {
    c % 0x1_0000_0000
}

/// The hash of a sequence of lattice integers, in `[0, FIXED_ONE)`.
pub open spec fn lattice_hash_spec(xs: Seq<i32>) -> int {
    let ab = mix_seq(xs);
    fract_unit(cos_phase_spec(hash_phase(ab.0, ab.1)))
}

/// The hash of any sequence lands in `[0, FIXED_ONE)`.
pub proof fn lemma_hash_range(xs: Seq<i32>)
    ensures
        0 <= lattice_hash_spec(xs) < 0x1_0000_0000,
{
    let ab = mix_seq(xs);
    lemma_mod_division_less_than_divisor(
        (signed32(ab.0) + signed32(ab.1)) * 683565276,
        0x1_0000_0000,
    );
    lemma_cos_phase_bounds(hash_phase(ab.0, ab.1));
    lemma_mod_division_less_than_divisor(cos_phase_spec(hash_phase(ab.0, ab.1)), 0x1_0000_0000);
}

/// The empty sequence hashes to exactly zero: both accumulators stay zero,
/// the cosine of phase zero is one, and one has no fractional part.
pub proof fn lemma_hash_empty()
    ensures
        lattice_hash_spec(Seq::<i32>::empty()) == 0,
{
    assert(mix_seq(Seq::<i32>::empty()) == (0u32, 0u32));
    assert(hash_phase(0u32, 0u32) == 0) by {
        lemma_small_mod(0nat, 0x1_0000_0000nat);
    }
    lemma_cos_half_ends();
    assert(cos_phase_spec(0) == 0x1_0000_0000);
    lemma_mod_self_0(0x1_0000_0000);
}

/// One executable folding step, mirroring [`mix_step`].
fn mix_fold_step(a: u32, b: u32, i: usize, x: i32) -> (r: (u32, u32))
    ensures
        (r.0, r.1) == mix_step(a, b, i as int, x as u32),
{
    let xu: u32 = #[verifier::truncate] (x as u32);
    let a1: u32 = a ^ xu;
    let t_wide: u128 = ((17u128 * (i as u128 + 11)) + (xu as u128)) % 0x1_0000_0000;
    let t: u32 = t_wide as u32;
    proof {
        lemma_mod_division_less_than_divisor((17 * (i as int + 11)) + (xu as int), 0x1_0000_0000);
    }
    let b1: u32 = b ^ t;
    let m: u32 = if a1 < 0x8000_0000 {
        a1 % 11
    } else {
        // The signed reading of a1 is a1 - 2^32, and 2^32 + 7 is a multiple
        // of 11, so its Euclidean residue equals that of a1 + 7.
        proof {
            lemma_mod_multiples_vanish(390451573, a1 as int - 0x1_0000_0000, 11);
            assert(11 * 390451573 + (a1 as int - 0x1_0000_0000) == a1 as int + 7);
        }
        ((a1 as u64 + 7) % 11) as u32
    };
    let d: u32 = m + 5;
    let s_wide: u128 = (i as u128 + 7) % (d as u128);
    let s: u32 = s_wide as u32;
    proof {
        lemma_mod_division_less_than_divisor(i as int + 7, d as int);
    }
    (b1 ^ (b1 << s), a1)
}

/// Turns the folded accumulators into the hash value: the fractional part of
/// the cosine of `a + b`, both read as signed values.
fn hash_finish(a: u32, b: u32) -> (h: u64)
    ensures
        h == fract_unit(cos_phase_spec(hash_phase(a, b))),
        h < 0x1_0000_0000,
{
    let sa: i64 = if a < 0x8000_0000 {
        a as i64
    } else {
        a as i64 - 0x1_0000_0000
    };
    let sb: i64 = if b < 0x8000_0000 {
        b as i64
    } else {
        b as i64 - 0x1_0000_0000
    };
    // Shift the sum by one full turn to keep it non-negative; a whole turn
    // leaves the phase unchanged.
    let ku: u64 = (sa + sb + 0x1_0000_0000) as u64;
    let p: u64 = (ku * PHASE_PER_UNIT) % 0x1_0000_0000;
    proof {
        let k = signed32(a) + signed32(b);
        assert((k + 0x1_0000_0000) * 683565276 == 0x1_0000_0000 * 683565276 + k * 683565276)
            by (nonlinear_arith);
        lemma_mod_multiples_vanish(683565276, k * 683565276, 0x1_0000_0000);
        lemma_mod_division_less_than_divisor(k * 683565276, 0x1_0000_0000);
    }
    let c: i64 = cos_phase(p);
    if c >= 0 {
        if c == 0x1_0000_0000 {
            proof {
                lemma_mod_self_0(0x1_0000_0000);
            }
            0
        } else {
            proof {
                lemma_small_mod(c as nat, 0x1_0000_0000nat);
            }
            c as u64
        }
    } else {
        proof {
            lemma_fundamental_div_mod_converse(
                c as int,
                0x1_0000_0000,
                -1,
                c as int + 0x1_0000_0000,
            );
        }
        0x1_0000_0000u64 - ((-c) as u64)
    }
}

/// Hashes a sequence of lattice integers to a Q32 sample in
/// `[0, FIXED_ONE)`.  Deterministic and order-sensitive: the position of each
/// value is folded into the mixing alongside the value itself.
pub fn lattice_hash(values: &Vec<i32>) -> (h: u64)
    ensures
        h == lattice_hash_spec(values@),
        h < 0x1_0000_0000,
{
    let mut a: u32 = 0;
    let mut b: u32 = 0;
    let n: usize = values.len();
    assert(values@.take(0) =~= Seq::<i32>::empty());
    for i in 0..n
        invariant
            n == values@.len(),
            (a, b) == mix_seq(values@.take(i as int)),
    {
        let r: (u32, u32) = mix_fold_step(a, b, i, values[i]);
        proof {
            assert(values@.take(i + 1).drop_last() =~= values@.take(i as int));
            assert(values@.take(i + 1).last() == values@[i as int]);
        }
        a = r.0;
        b = r.1;
    }
    proof {
        assert(values@.take(n as int) =~= values@);
    }
    hash_finish(a, b)
}

} // verus!
