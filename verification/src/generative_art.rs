//! The lattice hash behind the gradient noise of the generative artwork.
use vstd::prelude::*;

verus! {

/// The multiplier of the lattice `x` coordinate.
pub const X_MULTIPLIER: u64 = 0x517CC1B727220A95;

/// The multiplier of the lattice `y` coordinate.
pub const Y_MULTIPLIER: u64 = 0x6C62272E07BB0142;

/// The first multiplier of the finaliser.
pub const MIX_FIRST: u64 = 0xFF51AFD7ED558CCD;

/// The second multiplier of the finaliser.
pub const MIX_SECOND: u64 = 0xC4CEB9FE1A85EC53;

/// `h` with its top 31 bits folded into the bottom.
pub open spec fn fold33(h: u64) -> u64 {
    h ^ (h >> 33u64)
}

/// The hash of lattice point `(xi, yi)` under `seed`: the seed plus the
/// coordinates (as unsigned 64-bit values) scaled by their multipliers, all
/// modulo 2^64, then three folds separated by two multiplications modulo 2^64.
pub open spec fn lattice_hash(xi: i64, yi: i64, seed: u64) -> u64 {
    let h0 = vstd::wrapping::u64_specs::wrapping_add(
        vstd::wrapping::u64_specs::wrapping_add(
            seed,
            vstd::wrapping::u64_specs::wrapping_mul(xi as u64, X_MULTIPLIER),
        ),
        vstd::wrapping::u64_specs::wrapping_mul(yi as u64, Y_MULTIPLIER),
    );
    let h1 = vstd::wrapping::u64_specs::wrapping_mul(fold33(h0), MIX_FIRST);
    let h2 = vstd::wrapping::u64_specs::wrapping_mul(fold33(h1), MIX_SECOND);
    fold33(h2)
}

/// Hashes lattice point `(xi, yi)` under `seed`, for every coordinate: all
/// arithmetic wraps modulo 2^64.
pub fn hash(xi: i64, yi: i64, seed: u64) -> (h: u64)
    ensures
        h == lattice_hash(xi, yi, seed),
{
    let mut h = seed.wrapping_add((xi as u64).wrapping_mul(X_MULTIPLIER)).wrapping_add(
        (yi as u64).wrapping_mul(Y_MULTIPLIER),
    );
    h ^= h >> 33;
    h = h.wrapping_mul(MIX_FIRST);
    h ^= h >> 33;
    h = h.wrapping_mul(MIX_SECOND);
    h ^= h >> 33;
    h
}

} // verus!
