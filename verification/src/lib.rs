//! Procedural favicon generation: a small square raster is synthesized from
//! gradient ("Perlin") noise combined with a radial darkening curve and
//! random speckle, then PNG-encoded and wrapped as an embeddable
//! `data:image/png;base64,` string.
//!
//! All arithmetic is fixed-point at scale 65536 (a value `v` stands for the
//! real number `v / 65536`), and randomness enters only through the
//! [`rng::UnitRandom`] capability, so the whole pipeline is a deterministic
//! function of its draws.
use vstd::prelude::*;

pub mod encode;
pub mod favicon;
pub mod fixed;
pub mod noise;
pub mod perm;
pub mod rng;
pub mod synth;

verus! {

} // verus!
