use vstd::prelude::*;

verus! {

/// A source of uniform randomness in [0, 1), quantized to the fixed-point
/// scale: each draw is an integer in [0, 65536), standing for `r / 65536`.
///
/// The generator consumes randomness only through this capability, so a
/// deterministic implementation makes the whole pipeline reproducible.
pub trait UnitRandom {
    fn next_unit(&mut self) -> (r: i64)
        ensures
            0 <= r < 65536,
    ;
}

/// Deterministic source that answers one half for every draw.
pub struct HalfSource {}

impl UnitRandom for HalfSource {
    fn next_unit(&mut self) -> (r: i64)
        ensures
            r == 32768,
    {
        32768
    }
}

/// A small linear congruential pseudo-random source, seeded explicitly.
pub struct Lcg {
    pub state: u64,
}

impl Lcg {
    pub fn new(seed: u64) -> (r: Lcg)
        ensures
            r.state == seed,
    {
        Lcg { state: seed }
    }
}

impl UnitRandom for Lcg {
    fn next_unit(&mut self) -> (r: i64)
        ensures
            0 <= r < 65536,
    {
        self.state = self.state.wrapping_mul(6364136223846793005).wrapping_add(1442695040888963407);
        let s: u64 = self.state;
        proof {
            assert(s >> 48u64 < 65536u64) by (bit_vector);
        }
        let hi: u64 = s >> 48u64;
        hi as i64
    }
}

} // verus!
