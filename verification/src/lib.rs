//! A deterministic procedural value-noise engine.
//!
//! Given a point in an N-dimensional continuous coordinate space, plus a list
//! of discrete channel indices that decorrelate independent noise fields, the
//! engine produces a reproducible pseudo-random sample in `[0, 1)` that varies
//! smoothly across the domain.
//!
//! All quantities are Q32 fixed-point numbers: an `i64` coordinate or an
//! unsigned sample denotes the real value `raw / 2^32`, and [`fixed::FIXED_ONE`]
//! is the unit.  Working over integers keeps every evaluation a pure function
//! of its inputs, provable bit for bit.
//!
//! Three layers, leaves first:
//! - [`hash::lattice_hash`] maps a sequence of lattice integers to a sample in
//!   `[0, 1)`;
//! - [`noise::coherent_noise`] collapses continuous axes one at a time by
//!   interpolating between the two bracketing lattice values on that axis,
//!   with the lattice hash as the base case;
//! - [`octaves::octave_noise`] sums coherent noise at geometrically increasing
//!   frequencies with geometrically decreasing weights, normalized back to
//!   `[0, 1)`.

pub mod cosine;
pub mod fixed;
pub mod hash;
pub mod noise;
pub mod octaves;
pub mod smoothing;
