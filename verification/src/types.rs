use vstd::prelude::*;

verus! {

/// An unsigned 2D vector of `u32` components.
#[derive(Clone, Copy, Debug, PartialEq, Eq, Structural)]
pub struct UVec2 {
    pub x: u32,
    pub y: u32,
}

impl UVec2 {
    pub fn new(x: u32, y: u32) -> (r: UVec2)
        ensures
            r.x == x,
            r.y == y,
    {
        UVec2 { x, y }
    }
}

/// The (x, y) position of a chunk in the chunk grid.
#[derive(Clone, Copy, Debug, PartialEq, Eq, Structural)]
pub struct ChunkKey(pub u8, pub u8);

/// The region of one chunk that changed since it was last uploaded.
#[derive(Clone, Copy, Debug, PartialEq, Eq, Structural)]
pub struct DirtyRect {
    pub min: UVec2,
    /// Inclusive.
    pub max: UVec2,
    pub dirty: bool,
}

impl Default for DirtyRect {
    fn default() -> (r: Self)
        ensures
            r == (DirtyRect { min: UVec2 { x: 0, y: 0 }, max: UVec2 { x: 0, y: 0 }, dirty: false }),
    {
        Self { min: UVec2 { x: 0, y: 0 }, max: UVec2 { x: 0, y: 0 }, dirty: false }
    }
}

/// A piece of a rectangle that lies inside the canvas without wrapping.
#[derive(Clone, Copy, Debug, PartialEq, Eq, Structural)]
pub struct SubRect {
    /// In the coordinates of the whole source rectangle.
    pub src_start: UVec2,
    /// Canvas coordinates (no wrap).
    pub dst_start: UVec2,
    /// Width and height.
    pub size: UVec2,
}

/// A signed 2D vector of `i32` components.
#[derive(Clone, Copy, Debug, PartialEq, Eq, Structural)]
pub struct IVec2 {
    pub x: i32,
    pub y: i32,
}

} // verus!
