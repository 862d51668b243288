use vstd::prelude::*;

verus! {

/// Which way the camera zooms while the zoom keys are held: 1 in, -1 out,
/// 0 when both or neither are held.
pub fn zoom_direction(zoom_in: bool, zoom_out: bool) -> (r: i8)
    ensures
        r == (if zoom_in { 1int } else { 0int }) - (if zoom_out { 1int } else { 0int }),
{
    let mut zoom: i8 = 0;
    if zoom_in {
        zoom = zoom + 1;
    }
    if zoom_out {
        zoom = zoom - 1;
    }
    zoom
}

/// Which way the camera pans while the pan keys are held, as `(x, y)` with y
/// pointing up; a pair of opposite keys cancels out.
pub fn pan_direction(up: bool, down: bool, left: bool, right: bool) -> (r: (i8, i8))
    ensures
        r.0 == (if right { 1int } else { 0int }) - (if left { 1int } else { 0int }),
        r.1 == (if up { 1int } else { 0int }) - (if down { 1int } else { 0int }),
{
    let mut direction: (i8, i8) = (0, 0);
    if up {
        direction.1 = direction.1 + 1;
    }
    if down {
        direction.1 = direction.1 - 1;
    }
    if left {
        direction.0 = direction.0 - 1;
    }
    if right {
        direction.0 = direction.0 + 1;
    }
    direction
}

} // verus!
