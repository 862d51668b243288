use arc::dirty::CanvasDirtyRects;
use arc::types::{ChunkKey, UVec2};

#[test]
fn marks_commute() {
    let mut a = CanvasDirtyRects::new((1, 1));
    let mut b = CanvasDirtyRects::new((1, 1));
    a.mark_rect(&ChunkKey(0, 0), UVec2::new(5, 1), UVec2::new(2, 3));
    a.mark_rect(&ChunkKey(0, 0), UVec2::new(0, 7), UVec2::new(1, 1));
    b.mark_rect(&ChunkKey(0, 0), UVec2::new(0, 7), UVec2::new(1, 1));
    b.mark_rect(&ChunkKey(0, 0), UVec2::new(5, 1), UVec2::new(2, 3));
    let ra = a.take(0);
    assert_eq!(ra, b.take(0));
    assert_eq!(ra, Some((UVec2::new(0, 1), UVec2::new(6, 7))));
}

#[test]
fn marking_twice_is_marking_once() {
    let mut a = CanvasDirtyRects::new((2, 1));
    a.mark_rect(&ChunkKey(1, 0), UVec2::new(2, 2), UVec2::new(3, 1));
    a.mark_rect(&ChunkKey(1, 0), UVec2::new(2, 2), UVec2::new(3, 1));
    assert_eq!(a.take(1), Some((UVec2::new(2, 2), UVec2::new(4, 2))));
}

#[test]
fn empty_mark_changes_nothing() {
    let mut a = CanvasDirtyRects::new((1, 1));
    a.mark_rect(&ChunkKey(0, 0), UVec2::new(2, 2), UVec2::new(0, 3));
    assert_eq!(a.take(0), None);
}

#[test]
fn take_clears_the_chunk() {
    let mut a = CanvasDirtyRects::new((1, 2));
    assert_eq!(a.num_chunks(), (1, 2));
    a.mark_rect(&ChunkKey(0, 1), UVec2::new(0, 0), UVec2::new(1, 1));
    assert_eq!(a.take(1), Some((UVec2::new(0, 0), UVec2::new(0, 0))));
    assert_eq!(a.take(1), None);
    a.mark_rect(&ChunkKey(0, 1), UVec2::new(3, 3), UVec2::new(1, 1));
    assert_eq!(a.take(1), Some((UVec2::new(3, 3), UVec2::new(3, 3))));
}
