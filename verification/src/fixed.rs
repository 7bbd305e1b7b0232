//! The Q32 fixed-point encoding shared by the whole engine.

use vstd::arithmetic::div_mod::lemma_fundamental_div_mod_converse;
use vstd::prelude::*;

verus! {

/// One unit of the Q32 encoding: a raw value `x` denotes the real number
/// `x / FIXED_ONE`.
pub const FIXED_ONE: u64 = 0x1_0000_0000;

/// Lattice (integer) part of a Q32 coordinate: the floor of the value it
/// denotes.  Euclidean division by `2^32` is exactly that floor.
pub open spec fn floor_part(x: i64) -> int {
    (x as int) / 0x1_0000_0000
}

/// Fractional part of a Q32 coordinate, in `[0, 2^32)`: the value minus its
/// floor, scaled back to raw units.
pub open spec fn frac_part(x: i64) -> int {
    (x as int) % 0x1_0000_0000
}

/// Splits a Q32 coordinate into its lattice part and its fractional part.
pub fn split_coord(x: i64) -> (r: (i64, u64))
    ensures
        r.0 == floor_part(x),
        r.1 == frac_part(x),
        -0x8000_0000 <= r.0 <= 0x7fff_ffff,
        r.1 < 0x1_0000_0000,
{
    if x >= 0 {
        let q: u64 = (x as u64) / 0x1_0000_0000u64;
        let f: u64 = (x as u64) % 0x1_0000_0000u64;
        (q as i64, f)
    } else {
        // x == -(y + 1) for y >= 0; writing y as q * 2^32 + r gives
        // x == (-q - 1) * 2^32 + (2^32 - 1 - r), with the remainder in range.
        let y: u64 = (-(x + 1)) as u64;
        let q: u64 = y / 0x1_0000_0000u64;
        let r: u64 = y % 0x1_0000_0000u64;
        proof {
            lemma_fundamental_div_mod_converse(
                x as int,
                0x1_0000_0000,
                -(q as int) - 1,
                0xffff_ffff - (r as int),
            );
        }
        (-(q as i64) - 1, 0xffff_ffffu64 - r)
    }
}

} // verus!
