use vstd::prelude::*;

use crate::types::UVec2;

verus! {

/// Draw one pixel at `pos`, wrapped around the canvas.
#[derive(Clone, Copy, Debug, PartialEq, Eq, Structural)]
pub struct DrawPixel {
    pub pos: UVec2,
    pub rgba_u32: u32,
}

/// Draw a `size` rectangle of row-major pixels at `start`, wrapped around the
/// canvas.
pub struct DrawRect {
    pub start: UVec2,
    pub size: UVec2,
    pub rgba_u32: Vec<u32>,
}

/// Draw pixels one after the other in row-major order from `start` on,
/// wrapped around the canvas.
pub struct DrawSpan {
    pub start: UVec2,
    pub rgba_u32: Vec<u32>,
}

} // verus!
