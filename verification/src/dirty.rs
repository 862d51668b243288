use vstd::prelude::*;

use crate::chunks::{key_index, lemma_u8_product};
use crate::layout::{chunk_of, lemma_pixel_to_chunk};
use crate::paint::overlay;
use crate::types::{ChunkKey, DirtyRect, UVec2};

verus! {

pub open spec fn min_u32(a: u32, b: u32) -> u32 {
    if a <= b {
        a
    } else {
        b
    }
}

pub open spec fn max_u32(a: u32, b: u32) -> u32 {
    if a >= b {
        a
    } else {
        b
    }
}

/// `r` grown to include the inclusive rectangle `[min, max]`: the rectangle
/// itself when `r` was clean, else the bounding box of both.
pub open spec fn merge_rect(r: DirtyRect, min: UVec2, max: UVec2) -> DirtyRect {
    if !r.dirty {
        DirtyRect { min, max, dirty: true }
    } else {
        DirtyRect {
            min: UVec2 { x: min_u32(r.min.x, min.x), y: min_u32(r.min.y, min.y) },
            max: UVec2 { x: max_u32(r.max.x, max.x), y: max_u32(r.max.y, max.y) },
            dirty: true,
        }
    }
}

/// Whether `r` marks pixel `(x, y)` as changed.
pub open spec fn rect_covers(r: DirtyRect, x: int, y: int) -> bool {
    r.dirty && r.min.x <= x <= r.max.x && r.min.y <= y <= r.max.y
}

/// The rects after marking `size` pixels at `min` in chunk `i`.
pub open spec fn marked(rects: Seq<DirtyRect>, i: int, min: UVec2, size: UVec2) -> Seq<DirtyRect> {
    if size.x == 0 || size.y == 0 {
        rects
    } else {
        rects.update(
            i,
            merge_rect(
                rects[i],
                min,
                UVec2 { x: (min.x + size.x - 1) as u32, y: (min.y + size.y - 1) as u32 },
            ),
        )
    }
}

/// The rects after taking the dirty rect of chunk `i`.
pub open spec fn taken(rects: Seq<DirtyRect>, i: int) -> Seq<DirtyRect> {
    if rects[i].dirty {
        rects.update(i, DirtyRect { dirty: false, ..rects[i] })
    } else {
        rects
    }
}

/// Dirty tracking per chunk.
pub struct CanvasDirtyRects {
    num_chunks: (u8, u8),
    rects: Vec<DirtyRect>,
}

impl CanvasDirtyRects {
    pub closed spec fn spec_num_chunks(self) -> (u8, u8) {
        self.num_chunks
    }

    /// The dirty rect of every chunk, in chunk order.
    pub closed spec fn rects(self) -> Seq<DirtyRect> {
        self.rects@
    }

    pub open spec fn nx(self) -> int {
        self.spec_num_chunks().0 as int
    }

    pub open spec fn ny(self) -> int {
        self.spec_num_chunks().1 as int
    }

    /// One rect per chunk of a non-empty grid; every dirty rect is a proper
    /// rectangle whose far corner leaves room for one more pixel.
    pub open spec fn wf(self) -> bool {
        &&& self.nx() > 0
        &&& self.ny() > 0
        &&& self.rects().len() == self.nx() * self.ny()
        &&& within(self.rects(), u32::MAX as int, u32::MAX as int)
    }

    pub fn new(num_chunks: (u8, u8)) -> (r: Self)
        requires
            num_chunks.0 > 0,
            num_chunks.1 > 0,
        ensures
            r.wf(),
            r.spec_num_chunks() == num_chunks,
            forall|i: int|
                0 <= i < r.rects().len() ==> #[trigger] r.rects()[i] == (DirtyRect {
                    min: UVec2 { x: 0, y: 0 },
                    max: UVec2 { x: 0, y: 0 },
                    dirty: false,
                }),
    {
        proof {
            lemma_u8_product(num_chunks.0, num_chunks.1);
        }
        let total_chunks = (num_chunks.0 as usize) * (num_chunks.1 as usize);
        let rects = vec![DirtyRect::default(); total_chunks];
        Self { num_chunks, rects }
    }

    pub fn num_chunks(&self) -> (r: (u8, u8))
        ensures
            r == self.spec_num_chunks(),
    {
        self.num_chunks
    }

    #[inline(always)]
    fn index(&self, chunk_key: &ChunkKey) -> (r: usize)
        ensures
            r == key_index(*chunk_key, self.nx()),
    {
        proof {
            lemma_u8_product(chunk_key.1, self.num_chunks.0);
        }
        (chunk_key.1 as usize) * (self.num_chunks.0 as usize) + (chunk_key.0 as usize)
    }

    /// Mark a rect in chunk-local pixel coordinates as dirty.
    #[inline(always)]
    pub fn mark_rect(&mut self, chunk_key: &ChunkKey, min: UVec2, size: UVec2)
        requires
            old(self).wf(),
            size.x != 0 && size.y != 0 ==> {
                &&& key_index(*chunk_key, old(self).nx()) < old(self).rects().len()
                &&& min.x + size.x <= u32::MAX
                &&& min.y + size.y <= u32::MAX
            },
        ensures
            final(self).wf(),
            final(self).spec_num_chunks() == old(self).spec_num_chunks(),
            final(self).rects() == marked(
                old(self).rects(),
                key_index(*chunk_key, old(self).nx()),
                min,
                size,
            ),
    {
        if size.x == 0 || size.y == 0 {
            return;
        }
        proof {
            lemma_mark_local(
                self.rects(),
                key_index(*chunk_key, self.nx()),
                min,
                size,
                u32::MAX as int,
                u32::MAX as int,
            );
        }
        let index = self.index(chunk_key);
        let r = self.rects[index];
        let max = UVec2 { x: min.x + size.x - 1, y: min.y + size.y - 1 };
        let merged = if !r.dirty {
            DirtyRect { dirty: true, min, max }
        } else {
            DirtyRect {
                dirty: true,
                min: UVec2 {
                    x: if r.min.x <= min.x { r.min.x } else { min.x },
                    y: if r.min.y <= min.y { r.min.y } else { min.y },
                },
                max: UVec2 {
                    x: if r.max.x >= max.x { r.max.x } else { max.x },
                    y: if r.max.y >= max.y { r.max.y } else { max.y },
                },
            }
        };
        self.rects.set(index, merged);
    }

    /// Returns the dirty rect of chunk `chunk_index` as `(min, max)`, max
    /// inclusive, and marks the chunk clean; `None` if it was clean.
    #[inline(always)]
    pub fn take(&mut self, chunk_index: usize) -> (r: Option<(UVec2, UVec2)>)
        requires
            chunk_index < old(self).rects().len(),
        ensures
            old(self).wf() ==> final(self).wf(),
            final(self).spec_num_chunks() == old(self).spec_num_chunks(),
            final(self).rects() == taken(old(self).rects(), chunk_index as int),
            r == (if old(self).rects()[chunk_index as int].dirty {
                Some(
                    (
                        old(self).rects()[chunk_index as int].min,
                        old(self).rects()[chunk_index as int].max,
                    ),
                )
            } else {
                None
            }),
    {
        let rect = self.rects[chunk_index];
        if !rect.dirty {
            return None;
        }
        self.rects.set(chunk_index, DirtyRect { dirty: false, ..rect });
        Some((rect.min, rect.max))
    }

    #[inline(always)]
    pub fn len(&self) -> (r: usize)
        ensures
            r == self.rects().len(),
    {
        self.rects.len()
    }
}

/// Marking grows a chunk's rect to the smallest rectangle that holds both what
/// was dirty before and the newly marked rectangle.
pub proof fn lemma_merge_is_bounding_box(r: DirtyRect, min: UVec2, max: UVec2)
    requires
        min.x <= max.x,
        min.y <= max.y,
    ensures
        merge_rect(r, min, max).dirty,
        forall|x: int, y: int| #[trigger]
            rect_covers(r, x, y) ==> rect_covers(merge_rect(r, min, max), x, y),
        forall|x: int, y: int|
            min.x <= x <= max.x && min.y <= y <= max.y ==> #[trigger] rect_covers(
                merge_rect(r, min, max),
                x,
                y,
            ),
        forall|q: DirtyRect|
            #![trigger q.min, q.max]
            q.min.x <= min.x && q.min.y <= min.y && max.x <= q.max.x && max.y <= q.max.y && (
            r.dirty ==> q.min.x <= r.min.x && q.min.y <= r.min.y && r.max.x <= q.max.x
                && r.max.y <= q.max.y) ==> {
                &&& q.min.x <= merge_rect(r, min, max).min.x
                &&& q.min.y <= merge_rect(r, min, max).min.y
                &&& merge_rect(r, min, max).max.x <= q.max.x
                &&& merge_rect(r, min, max).max.y <= q.max.y
            },
{
}

/// The order in which rectangles are marked does not matter.
pub proof fn lemma_marks_commute(
    rects: Seq<DirtyRect>,
    i: int,
    a: UVec2,
    a_size: UVec2,
    j: int,
    b: UVec2,
    b_size: UVec2,
)
    requires
        0 <= i < rects.len(),
        0 <= j < rects.len(),
        a.x + a_size.x <= u32::MAX,
        a.y + a_size.y <= u32::MAX,
        b.x + b_size.x <= u32::MAX,
        b.y + b_size.y <= u32::MAX,
    ensures
        marked(marked(rects, i, a, a_size), j, b, b_size) == marked(
            marked(rects, j, b, b_size),
            i,
            a,
            a_size,
        ),
{
    let ab = marked(marked(rects, i, a, a_size), j, b, b_size);
    let ba = marked(marked(rects, j, b, b_size), i, a, a_size);
    assert(ab =~= ba);
}

/// Marking a rectangle twice is the same as marking it once.
pub proof fn lemma_mark_idempotent(rects: Seq<DirtyRect>, i: int, a: UVec2, a_size: UVec2)
    requires
        0 <= i < rects.len(),
        a.x + a_size.x <= u32::MAX,
        a.y + a_size.y <= u32::MAX,
    ensures
        marked(marked(rects, i, a, a_size), i, a, a_size) == marked(rects, i, a, a_size),
{
    assert(marked(marked(rects, i, a, a_size), i, a, a_size) =~= marked(rects, i, a, a_size));
}

/// Taking a chunk's rect leaves the chunk clean, so a second take finds nothing,
/// and leaves every other chunk as it was.
pub proof fn lemma_take_clears(rects: Seq<DirtyRect>, i: int)
    requires
        0 <= i < rects.len(),
    ensures
        !taken(rects, i)[i].dirty,
        taken(taken(rects, i), i) == taken(rects, i),
        forall|j: int| 0 <= j < rects.len() && j != i ==> #[trigger] taken(rects, i)[j] == rects[j],
{
    assert(taken(taken(rects, i), i) =~= taken(rects, i));
}

/// After a non-empty rectangle is marked, taking the chunk's rect yields a
/// rectangle that holds every marked pixel.
pub proof fn lemma_take_after_mark_covers(rects: Seq<DirtyRect>, i: int, a: UVec2, a_size: UVec2)
    requires
        0 <= i < rects.len(),
        a_size.x > 0,
        a_size.y > 0,
        a.x + a_size.x <= u32::MAX,
        a.y + a_size.y <= u32::MAX,
    ensures
        marked(rects, i, a, a_size)[i].dirty,
        forall|x: int, y: int|
            a.x <= x < a.x + a_size.x && a.y <= y < a.y + a_size.y ==> #[trigger] rect_covers(
                marked(rects, i, a, a_size)[i],
                x,
                y,
            ),
{
    let max = UVec2 { x: (a.x + a_size.x - 1) as u32, y: (a.y + a_size.y - 1) as u32 };
    lemma_merge_is_bounding_box(rects[i], a, max);
}

/// Every pixel that `old` marks dirty is still marked dirty in `new`.
pub open spec fn grows(old: Seq<DirtyRect>, new: Seq<DirtyRect>) -> bool {
    &&& new.len() == old.len()
    &&& forall|c: int, x: int, y: int|
        0 <= c < old.len() && #[trigger] rect_covers(old[c], x, y) ==> rect_covers(new[c], x, y)
}

/// Every dirty rect lies inside its `cw * ch` chunk.
pub open spec fn within(rects: Seq<DirtyRect>, cw: int, ch: int) -> bool {
    forall|c: int|
        0 <= c < rects.len() && (#[trigger] rects[c]).dirty ==> {
            &&& rects[c].min.x <= rects[c].max.x < cw
            &&& rects[c].min.y <= rects[c].max.y < ch
        }
}

/// Every canvas pixel that `f` paints is marked dirty in its chunk.
pub open spec fn covers_paint(
    rects: Seq<DirtyRect>,
    nx: int,
    ny: int,
    cw: int,
    ch: int,
    f: spec_fn(int, int) -> Option<u32>,
) -> bool {
    forall|x: int, y: int|
        0 <= x < nx * cw && 0 <= y < ny * ch && (#[trigger] f(x, y)) is Some ==> rect_covers(
            rects[chunk_of(x, y, nx, cw, ch)],
            x % cw,
            y % ch,
        )
}

/// Marking a non-empty rectangle that lies inside its chunk keeps every rect
/// inside its chunk, forgets nothing, touches no other chunk and covers the
/// rectangle.
pub proof fn lemma_mark_local(
    rects: Seq<DirtyRect>,
    i: int,
    min: UVec2,
    size: UVec2,
    cw: int,
    ch: int,
)
    requires
        0 <= i < rects.len(),
        size.x > 0,
        size.y > 0,
        min.x + size.x <= cw <= u32::MAX,
        min.y + size.y <= ch <= u32::MAX,
    ensures
        grows(rects, marked(rects, i, min, size)),
        within(rects, cw, ch) ==> within(marked(rects, i, min, size), cw, ch),
        forall|j: int| 0 <= j < rects.len() && j != i ==> #[trigger] marked(rects, i, min, size)[j] == rects[j],
        forall|x: int, y: int|
            min.x <= x < min.x + size.x && min.y <= y < min.y + size.y ==> #[trigger] rect_covers(
                marked(rects, i, min, size)[i],
                x,
                y,
            ),
{
    let max = UVec2 { x: (min.x + size.x - 1) as u32, y: (min.y + size.y - 1) as u32 };
    lemma_merge_is_bounding_box(rects[i], min, max);
}

/// Growing is transitive.
pub proof fn lemma_grows_trans(a: Seq<DirtyRect>, b: Seq<DirtyRect>, c: Seq<DirtyRect>)
    requires
        grows(a, b),
        grows(b, c),
    ensures
        grows(a, c),
{
    assert forall|k: int, x: int, y: int|
        0 <= k < a.len() && #[trigger] rect_covers(a[k], x, y) implies rect_covers(c[k], x, y) by {
        assert(rect_covers(b[k], x, y));
    }
}

/// Coverage depends only on what is painted inside the canvas.
pub proof fn lemma_covers_ext(
    rects: Seq<DirtyRect>,
    nx: int,
    ny: int,
    cw: int,
    ch: int,
    f: spec_fn(int, int) -> Option<u32>,
    g: spec_fn(int, int) -> Option<u32>,
)
    requires
        covers_paint(rects, nx, ny, cw, ch, f),
        forall|x: int, y: int| 0 <= x < nx * cw && 0 <= y < ny * ch ==> #[trigger] f(x, y) == g(x, y),
    ensures
        covers_paint(rects, nx, ny, cw, ch, g),
{
    assert forall|x: int, y: int|
        0 <= x < nx * cw && 0 <= y < ny * ch && (#[trigger] g(x, y)) is Some implies rect_covers(
            rects[chunk_of(x, y, nx, cw, ch)],
            x % cw,
            y % ch,
        ) by {
        assert(f(x, y) is Some);
    }
}

/// Coverage survives growing.
pub proof fn lemma_covers_grows(
    a: Seq<DirtyRect>,
    b: Seq<DirtyRect>,
    nx: int,
    ny: int,
    cw: int,
    ch: int,
    f: spec_fn(int, int) -> Option<u32>,
)
    requires
        nx > 0, ny > 0, cw > 0, ch > 0,
        a.len() == nx * ny,
        covers_paint(a, nx, ny, cw, ch, f),
        grows(a, b),
    ensures
        covers_paint(b, nx, ny, cw, ch, f),
{
    assert forall|x: int, y: int|
        0 <= x < nx * cw && 0 <= y < ny * ch && (#[trigger] f(x, y)) is Some implies rect_covers(
            b[chunk_of(x, y, nx, cw, ch)],
            x % cw,
            y % ch,
        ) by {
        lemma_pixel_to_chunk(x, y, nx, ny, cw, ch);
        assert(rect_covers(a[chunk_of(x, y, nx, cw, ch)], x % cw, y % ch));
    }
}

/// Covering two paintings covers the one painted over the other.
pub proof fn lemma_covers_overlay(
    rects: Seq<DirtyRect>,
    nx: int,
    ny: int,
    cw: int,
    ch: int,
    f: spec_fn(int, int) -> Option<u32>,
    g: spec_fn(int, int) -> Option<u32>,
)
    requires
        covers_paint(rects, nx, ny, cw, ch, f),
        covers_paint(rects, nx, ny, cw, ch, g),
    ensures
        covers_paint(rects, nx, ny, cw, ch, overlay(f, g)),
{
    assert forall|x: int, y: int|
        0 <= x < nx * cw && 0 <= y < ny * ch && (#[trigger] overlay(f, g)(x, y)) is Some implies rect_covers(
            rects[chunk_of(x, y, nx, cw, ch)],
            x % cw,
            y % ch,
        ) by {
        if g(x, y) is Some {
        } else {
            assert(f(x, y) is Some);
        }
    }
}

/// Marking one rectangle and then another is marking their bounding box.
pub proof fn lemma_merge_twice(r: DirtyRect, a: UVec2, b: UVec2, c: UVec2, d: UVec2)
    ensures
        merge_rect(merge_rect(r, a, b), c, d) == merge_rect(
            r,
            UVec2 { x: min_u32(a.x, c.x), y: min_u32(a.y, c.y) },
            UVec2 { x: max_u32(b.x, d.x), y: max_u32(b.y, d.y) },
        ),
{
}

} // verus!
