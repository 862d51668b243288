use vstd::prelude::*;

use crate::types::{SubRect, UVec2};

verus! {

/// How far `x` lies past `start`, going right (or down) around a torus
/// `w` wide, both wrapped into the canvas first.
pub open spec fn wrap_offset(x: int, start: int, w: int) -> int {
    (x - start % w) % w
}

/// Whether canvas pixel `(x, y)` lies in the destination of `p`.
pub open spec fn in_piece(p: SubRect, x: int, y: int) -> bool {
    &&& p.dst_start.x <= x < p.dst_start.x + p.size.x
    &&& p.dst_start.y <= y < p.dst_start.y + p.size.y
}

/// Whether `(i, j)` is a pixel of a rectangle of `size` pixels.
pub open spec fn within_size(size: UVec2, i: int, j: int) -> bool {
    0 <= i < size.x && 0 <= j < size.y
}

/// Whether source pixel `(i, j)` lies in the part of the source `p` reads.
pub open spec fn reads_from(p: SubRect, i: int, j: int) -> bool {
    &&& p.src_start.x <= i < p.src_start.x + p.size.x
    &&& p.src_start.y <= j < p.src_start.y + p.size.y
}

pub open spec fn zero_sub_rect() -> SubRect {
    SubRect {
        src_start: UVec2 { x: 0, y: 0 },
        dst_start: UVec2 { x: 0, y: 0 },
        size: UVec2 { x: 0, y: 0 },
    }
}

/// The pieces of the rectangle of `size` pixels at `start`, wrapped around a
/// canvas of `canvas_size` pixels: the part that fits before the right and
/// bottom edges, then the part that wraps across the right edge, the part
/// that wraps across the bottom edge, and the part that wraps across both, as
/// far as each is not empty.
pub open spec fn torus_pieces(start: UVec2, size: UVec2, canvas_size: UVec2) -> Seq<SubRect> {
    if size.x == 0 || size.y == 0 || canvas_size.x == 0 || canvas_size.y == 0 {
        Seq::empty()
    } else {
        let sx = start.x % canvas_size.x;
        let sy = start.y % canvas_size.y;
        let in_x = if size.x <= canvas_size.x - sx { size.x as int } else { canvas_size.x - sx };
        let in_y = if size.y <= canvas_size.y - sy { size.y as int } else { canvas_size.y - sy };
        let wrap_x = size.x - in_x;
        let wrap_y = size.y - in_y;
        let first = SubRect {
            src_start: UVec2 { x: 0, y: 0 },
            dst_start: UVec2 { x: sx as u32, y: sy as u32 },
            size: UVec2 { x: in_x as u32, y: in_y as u32 },
        };
        let across_x = SubRect {
            src_start: UVec2 { x: in_x as u32, y: 0 },
            dst_start: UVec2 { x: 0, y: sy as u32 },
            size: UVec2 { x: wrap_x as u32, y: in_y as u32 },
        };
        let across_y = SubRect {
            src_start: UVec2 { x: 0, y: in_y as u32 },
            dst_start: UVec2 { x: sx as u32, y: 0 },
            size: UVec2 { x: in_x as u32, y: wrap_y as u32 },
        };
        let across_both = SubRect {
            src_start: UVec2 { x: in_x as u32, y: in_y as u32 },
            dst_start: UVec2 { x: 0, y: 0 },
            size: UVec2 { x: wrap_x as u32, y: wrap_y as u32 },
        };
        if wrap_x != 0 && wrap_y != 0 {
            seq![first, across_x, across_y, across_both]
        } else if wrap_x != 0 {
            seq![first, across_x]
        } else if wrap_y != 0 {
            seq![first, across_y]
        } else {
            seq![first]
        }
    }
}

/// Splits the rectangle of `size` pixels at `start`, wrapped around a canvas
/// of `canvas_size` pixels, into at most 4 sub-rects that are fully inside the
/// canvas bounds. Returns them with their count; unused entries are empty.
/// Each sub-rect knows where to read from the whole `size` source buffer
/// via `src_start`.
#[inline]
pub fn split_torus_rect(start: UVec2, size: UVec2, canvas_size: UVec2) -> (r: ([SubRect; 4], usize))
    requires
        size.x != 0 && size.y != 0 && canvas_size.x != 0 && canvas_size.y != 0 ==> {
            // Wrapping at most once per axis.
            &&& size.x <= canvas_size.x
            &&& size.y <= canvas_size.y
        },
    ensures
        r.1 == torus_pieces(start, size, canvas_size).len(),
        forall|k: int| 0 <= k < r.1 ==> #[trigger] r.0[k] == torus_pieces(start, size, canvas_size)[k],
        r.1 <= 4,
        forall|k: int| r.1 <= k < 4 ==> #[trigger] r.0[k] == zero_sub_rect(),
        (size.x == 0 || size.y == 0 || canvas_size.x == 0 || canvas_size.y == 0) <==> r.1 == 0,
        // One piece, plus one more for each axis the rectangle wraps around, and
        // one more when it wraps around both; the first starts at the wrapped start.
        r.1 != 0 ==> {
            let wraps_x = start.x % canvas_size.x + size.x > canvas_size.x;
            let wraps_y = start.y % canvas_size.y + size.y > canvas_size.y;
            &&& r.1 == (if wraps_x { 2int } else { 1int }) * (if wraps_y { 2int } else { 1int })
            &&& r.0[0].src_start == UVec2 { x: 0, y: 0 }
            &&& r.0[0].dst_start == UVec2 { x: (start.x % canvas_size.x) as u32, y: (start.y % canvas_size.y) as u32 }
        },
        // Every piece is non-empty, lies inside the canvas and inside the source.
        forall|k: int|
            0 <= k < r.1 ==> {
                &&& #[trigger] r.0[k].size.x > 0
                &&& r.0[k].size.y > 0
                &&& r.0[k].dst_start.x + r.0[k].size.x <= canvas_size.x
                &&& r.0[k].dst_start.y + r.0[k].size.y <= canvas_size.y
                &&& r.0[k].src_start.x + r.0[k].size.x <= size.x
                &&& r.0[k].src_start.y + r.0[k].size.y <= size.y
            },
        // Each canvas pixel of a piece shows the source pixel that wraps onto it.
        forall|k: int, x: int, y: int|
            0 <= k < r.1 && #[trigger] in_piece(r.0[k], x, y) ==> {
                &&& wrap_offset(x, start.x as int, canvas_size.x as int) == r.0[k].src_start.x + (x
                    - r.0[k].dst_start.x)
                &&& wrap_offset(y, start.y as int, canvas_size.y as int) == r.0[k].src_start.y + (y
                    - r.0[k].dst_start.y)
            },
        // Every canvas pixel the wrapped rectangle touches is in a piece...
        forall|x: int, y: int|
            0 <= x < canvas_size.x && 0 <= y < canvas_size.y && wrap_offset(
                x,
                start.x as int,
                canvas_size.x as int,
            ) < size.x && wrap_offset(y, start.y as int, canvas_size.y as int) < size.y ==> exists|
                k: int,
            |
                0 <= k < r.1 && #[trigger] in_piece(r.0[k], x, y),
        // ... and in one piece only.
        forall|k: int, l: int, x: int, y: int|
            0 <= k < r.1 && 0 <= l < r.1 && k != l ==> !(#[trigger] in_piece(r.0[k], x, y)
                && #[trigger] in_piece(r.0[l], x, y)),
        // Every source pixel is read by a piece (on a non-empty canvas)...
        forall|i: int, j: int|
            canvas_size.x != 0 && canvas_size.y != 0 && #[trigger] within_size(size, i, j) ==> exists|k: int|
                0 <= k < r.1 && #[trigger] reads_from(r.0[k], i, j),
        // ... and by one piece only.
        forall|k: int, l: int, i: int, j: int|
            0 <= k < r.1 && 0 <= l < r.1 && k != l ==> !(#[trigger] reads_from(r.0[k], i, j)
                && #[trigger] reads_from(r.0[l], i, j)),
{
    let zero = SubRect {
        dst_start: UVec2 { x: 0, y: 0 },
        size: UVec2 { x: 0, y: 0 },
        src_start: UVec2 { x: 0, y: 0 },
    };

    if size.x == 0 || size.y == 0 || canvas_size.x == 0 || canvas_size.y == 0 {
        return ([zero, zero, zero, zero], 0);
    }

    let wrapped_start = UVec2 { x: start.x % canvas_size.x, y: start.y % canvas_size.y };
    let remain = UVec2 { x: canvas_size.x - wrapped_start.x, y: canvas_size.y - wrapped_start.y };

    let in_bounds = UVec2 {
        x: if size.x <= remain.x { size.x } else { remain.x },
        y: if size.y <= remain.y { size.y } else { remain.y },
    };
    let wrapped = UVec2 { x: size.x - in_bounds.x, y: size.y - in_bounds.y };

    let first = SubRect { src_start: UVec2 { x: 0, y: 0 }, dst_start: wrapped_start, size: in_bounds };
    let across_x = SubRect {
        src_start: UVec2 { x: in_bounds.x, y: 0 },
        dst_start: UVec2 { x: 0, y: wrapped_start.y },
        size: UVec2 { x: wrapped.x, y: in_bounds.y },
    };
    let across_y = SubRect {
        src_start: UVec2 { x: 0, y: in_bounds.y },
        dst_start: UVec2 { x: wrapped_start.x, y: 0 },
        size: UVec2 { x: in_bounds.x, y: wrapped.y },
    };
    let across_both = SubRect {
        src_start: in_bounds,
        dst_start: UVec2 { x: 0, y: 0 },
        size: wrapped,
    };

    proof {
        lemma_wrap_offset_axis(start.x as int, size.x as int, canvas_size.x as int);
        lemma_wrap_offset_axis(start.y as int, size.y as int, canvas_size.y as int);
    }

    let r = if wrapped.x != 0 && wrapped.y != 0 {
        ([first, across_x, across_y, across_both], 4)
    } else if wrapped.x != 0 {
        ([first, across_x, zero, zero], 2)
    } else if wrapped.y != 0 {
        ([first, across_y, zero, zero], 2)
    } else {
        ([first, zero, zero, zero], 1)
    };
    proof {
        let w = canvas_size.x as int;
        let h = canvas_size.y as int;
        assert forall|x: int, y: int|
            0 <= x < w && 0 <= y < h && wrap_offset(x, start.x as int, w) < size.x
                && wrap_offset(y, start.y as int, h) < size.y implies exists|k: int|
            0 <= k < r.1 && #[trigger] in_piece(r.0[k], x, y) by {
            let in_x = x >= wrapped_start.x;
            let in_y = y >= wrapped_start.y;
            if in_x && in_y {
                assert(in_piece(r.0[0], x, y));
            } else if !in_x && in_y {
                assert(in_piece(r.0[1], x, y));
            } else if in_x && !in_y {
                if wrapped.x != 0 {
                    assert(in_piece(r.0[2], x, y));
                } else {
                    assert(in_piece(r.0[1], x, y));
                }
            } else {
                assert(in_piece(r.0[3], x, y));
            }
        }
        assert forall|i: int, j: int| #[trigger] within_size(size, i, j) implies exists|k: int|
            0 <= k < r.1 && #[trigger] reads_from(r.0[k], i, j) by {
            if i < in_bounds.x && j < in_bounds.y {
                assert(reads_from(r.0[0], i, j));
            } else if i >= in_bounds.x && j < in_bounds.y {
                assert(reads_from(r.0[1], i, j));
            } else if i < in_bounds.x && j >= in_bounds.y {
                if wrapped.x != 0 {
                    assert(reads_from(r.0[2], i, j));
                } else {
                    assert(reads_from(r.0[1], i, j));
                }
            } else {
                assert(reads_from(r.0[3], i, j));
            }
        }
    }
    r
}

/// Along one axis of a torus `w` long: the part of a run of `size` cells at
/// `start` that fits before the end, and the part that wraps to the front.
proof fn lemma_wrap_offset_axis(start: int, size: int, w: int)
    requires
        0 <= start,
        0 < size <= w,
    ensures
        0 <= start % w < w,
        forall|x: int|
            start % w <= x < w ==> #[trigger] wrap_offset(x, start, w) == x - start % w,
        forall|x: int| 0 <= x < start % w ==> #[trigger] wrap_offset(x, start, w) == x + w - start % w,
{
    vstd::arithmetic::div_mod::lemma_mod_pos_bound(start, w);
    let s = start % w;
    assert forall|x: int| s <= x < w implies #[trigger] wrap_offset(x, start, w) == x - s by {
        vstd::arithmetic::div_mod::lemma_small_mod((x - s) as nat, w as nat);
    }
    assert forall|x: int| 0 <= x < s implies #[trigger] wrap_offset(x, start, w) == x + w - s by {
        vstd::arithmetic::div_mod::lemma_fundamental_div_mod_converse(x - s, w, -1, x + w - s);
    }
}

} // verus!
