//! The canvas of the topological-surface renderer.

use vstd::prelude::*;

verus! {

/// Renderer for topological surfaces.
#[derive(Debug, Clone, Copy, PartialEq, Eq, Structural)]
pub struct TopologyRenderer {
    /// Output image width in pixels.
    pub width: u32,
    /// Output image height in pixels.
    pub height: u32,
}

impl TopologyRenderer {
    /// Create a new renderer for a canvas of the given dimensions.
    pub fn new(width: u32, height: u32) -> (r: Self)
        ensures
            r.width == width,
            r.height == height,
    {
        TopologyRenderer { width, height }
    }
}

} // verus!
