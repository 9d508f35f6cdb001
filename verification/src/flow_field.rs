//! Integer parts of streamline rendering: Bresenham plotting into an RGB
//! buffer and the linear congruential generator that picks start points.

use vstd::prelude::*;
use crate::line::{in_line_range, line_points, paint_all, paint_points, walk_line};

verus! {

/// Bresenham's line algorithm — sets the pixels of the line from
/// `(x0, y0)` to `(x1, y1)` that lie in a `width × height` RGB buffer.
pub fn bresenham(
    x0: i64,
    y0: i64,
    x1: i64,
    y1: i64,
    width: usize,
    height: usize,
    pixels: &mut Vec<u8>,
    color: (u8, u8, u8),
)
    requires
        old(pixels)@.len() == width * height * 3,
        in_line_range(x0 as int),
        in_line_range(y0 as int),
        in_line_range(x1 as int),
        in_line_range(y1 as int),
    ensures
        final(pixels)@ == paint_all(
            old(pixels)@,
            line_points(x0 as int, y0 as int, x1 as int, y1 as int, false),
            width as int,
            height as int,
            color,
        ),
{
    let pts = walk_line(x0, y0, x1, y1, false);
    paint_points(pixels, &pts, width, height, color);
}

/// Multiplier of the generator.
pub const LCG_MUL: u64 = 6_364_136_223_846_793_005;

/// Increment of the generator.
pub const LCG_INC: u64 = 1_442_695_040_888_963_407;

/// The generator state that follows `state`.
pub open spec fn lcg_step(state: u64) -> u64 {
    state.wrapping_mul(LCG_MUL).wrapping_add(LCG_INC)
}

/// Simple linear congruential generator.
pub struct LcgRng {
    pub state: u64,
}

impl LcgRng {
    /// A generator whose state is `seed + 1` (wrapping).
    pub fn new(seed: u64) -> (rng: Self)
        ensures
            rng.state == seed.wrapping_add(1),
    {
        LcgRng { state: seed.wrapping_add(1) }
    }

    /// Advances the state and returns it.
    pub fn next_u64(&mut self) -> (v: u64)
        ensures
            v == lcg_step(old(self).state),
            final(self).state == v,
    {
        self.state = self.state.wrapping_mul(LCG_MUL).wrapping_add(LCG_INC);
        self.state
    }
}

} // verus!
