//! The integer hash behind the value noise of flow-field rendering.

use vstd::prelude::*;

verus! {

/// `|v|` as an unsigned number.
pub open spec fn magnitude(v: i64) -> int {
    if v < 0 {
        -v
    } else {
        v as int
    }
}

/// The hash of lattice point `(xi, yi)` under `seed`: the seed mixed with
/// each coordinate's magnitude times a constant and a constant per
/// negative coordinate, then one linear congruential step.
pub open spec fn hash_spec(xi: i64, yi: i64, seed: u64) -> u64 {
    let h = seed ^ ((magnitude(xi) * 2654435761) as u64) ^ ((magnitude(yi) * 2246822519) as u64) ^ (if xi < 0 {
        0xdeadbeefu64
    } else {
        0u64
    }) ^ (if yi < 0 {
        0xcafebabeu64
    } else {
        0u64
    });
    h.wrapping_mul(6364136223846793005).wrapping_add(1442695040888963407)
}

/// Hashes a lattice point; the coordinate products must fit in `u64`.
pub fn hash(xi: i64, yi: i64, seed: u64) -> (h: u64)
    requires
        magnitude(xi) * 2654435761 <= u64::MAX,
        magnitude(yi) * 2246822519 <= u64::MAX,
    ensures
        h == hash_spec(xi, yi, seed),
{
    let ax: u64 = if xi < 0 {
        (0i128 - xi as i128) as u64
    } else {
        xi as u64
    };
    let ay: u64 = if yi < 0 {
        (0i128 - yi as i128) as u64
    } else {
        yi as u64
    };
    let mut h = seed;
    h ^= ax * 2654435761;
    h ^= ay * 2246822519;
    h ^= if xi < 0 {
        0xdeadbeefu64
    } else {
        0u64
    };
    h ^= if yi < 0 {
        0xcafebabeu64
    } else {
        0u64
    };
    h = h.wrapping_mul(6364136223846793005).wrapping_add(1442695040888963407);
    h
}

} // verus!
