use vstd::prelude::*;
use vstd::wrapping::i32_specs::wrapping_mul;

verus! {

/// Multiplier of the noise hash's mixing step.
pub const NOISE_MIX: i32 = 1274126177;

/// The noise hash of three lattice coordinates: their exclusive or, mixed by a
/// shift, a wrapping multiplication and a second shift.
pub open spec fn noise_mix(ix: i32, iy: i32, iz: i32) -> i32 {
    let h0 = ix ^ iy ^ iz;
    let h1 = wrapping_mul(h0 ^ (h0 >> 13i32), NOISE_MIX);
    h1 ^ (h1 >> 16i32)
}

/// Hashes three lattice coordinates for procedural sky noise; the
/// multiplication wraps on overflow.
pub fn noise_hash(ix: i32, iy: i32, iz: i32) -> (r: i32)
    ensures
        r == noise_mix(ix, iy, iz),
{
    let mut hash = ix ^ iy ^ iz;
    hash = (hash ^ (hash >> 13i32)).wrapping_mul(NOISE_MIX);
    hash = hash ^ (hash >> 16i32);
    hash
}

} // verus!
