//! Regular `{p, q}` hyperbolic tessellations: which `(p, q)` are
//! hyperbolic.

use vstd::prelude::*;

verus! {

/// Whether `{p, q}` is a hyperbolic tiling: both at least 3 and
/// `(p − 2)(q − 2) > 4`.
pub open spec fn is_hyperbolic(p: u32, q: u32) -> bool {
    p >= 3 && q >= 3 && (p - 2) * (q - 2) > 4
}

/// A regular {p, q} hyperbolic tessellation in the Poincaré disk.
#[derive(Debug, Clone, Copy, PartialEq, Eq, Structural)]
pub struct HyperbolicTiling {
    /// Number of sides of each polygon.
    pub p: u32,
    /// Number of polygons meeting at each vertex.
    pub q: u32,
}

impl HyperbolicTiling {
    /// Create a new tiling; `{p, q}` must be hyperbolic (and `(p − 2)(q − 2)`
    /// must fit in `u32`).
    pub fn new(p: u32, q: u32) -> (t: Self)
        requires
            is_hyperbolic(p, q),
            (p - 2) * (q - 2) <= u32::MAX,
        ensures
            t.p == p,
            t.q == q,
    {
        HyperbolicTiling { p, q }
    }
}

} // verus!
