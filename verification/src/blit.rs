use vstd::prelude::*;

use crate::chunks::{key_index, write_span, CanvasCpuChunks};
use crate::dirty::{
    covers_paint, grows, lemma_covers_ext, lemma_grows_trans, lemma_mark_local, lemma_merge_twice, marked, max_u32,
    merge_rect, min_u32, rect_covers, within, CanvasDirtyRects,
};
use crate::layout::{chunk_of, lemma_in_chunk, lemma_pixel_to_chunk, offset_of};
use crate::paint::{
    block_paint, lemma_painted_compose, lemma_painted_ext, lemma_painted_nothing, lemma_painted_shaped,
    lemma_run_painted, no_paint, overlay, painted, restrict, run_paint, shaped,
};
use crate::torus::{in_piece, split_torus_rect, torus_pieces, wrap_offset};
use crate::types::{ChunkKey, DirtyRect, SubRect, UVec2};

verus! {

/// `cpu` and `dirty` describe the same grid of chunks, and the chunks of
/// `chunk_size` pixels tile a canvas of `canvas_size` pixels.
pub open spec fn canvas_matches(
    cpu: CanvasCpuChunks,
    dirty: CanvasDirtyRects,
    canvas_size: UVec2,
    chunk_size: UVec2,
) -> bool {
    &&& cpu.wf()
    &&& dirty.wf()
    &&& dirty.spec_num_chunks() == cpu.spec_num_chunks()
    &&& cpu.spec_chunk_size() == (chunk_size.x, chunk_size.y)
    &&& canvas_size.x == cpu.nx() * cpu.cw()
    &&& canvas_size.y == cpu.ny() * cpu.ch()
}

/// Basic facts about a canvas whose chunks match its size.
pub proof fn lemma_canvas_matches(
    cpu: CanvasCpuChunks,
    dirty: CanvasDirtyRects,
    canvas_size: UVec2,
    chunk_size: UVec2,
)
    requires
        canvas_matches(cpu, dirty, canvas_size, chunk_size),
    ensures
        canvas_size.x > 0,
        canvas_size.y > 0,
        chunk_size.x > 0,
        chunk_size.y > 0,
        chunk_size.x <= canvas_size.x,
        chunk_size.y <= canvas_size.y,
        0 < cpu.nx() <= 255,
        0 < cpu.ny() <= 255,
        shaped(cpu.chunks(), cpu.nx(), cpu.ny(), cpu.cw(), cpu.ch()),
        dirty.rects().len() == cpu.chunks().len(),
{
    let nx = cpu.nx();
    let ny = cpu.ny();
    let cw = cpu.cw();
    let ch = cpu.ch();
    assert(nx * cw >= cw) by (nonlinear_arith) requires nx >= 1, cw > 0;
    assert(ny * ch >= ch) by (nonlinear_arith) requires ny >= 1, ch > 0;
}

/// Paints the pixel at `pos`, wrapped around a `w * h` torus, with `rgba`.
pub open spec fn pixel_paint(pos: UVec2, rgba: u32, w: int, h: int) -> spec_fn(int, int) -> Option<
    u32,
> {
    |x: int, y: int|
        if x == (pos.x as int) % w && y == (pos.y as int) % h {
            Some(rgba)
        } else {
            None
        }
}

/// `rects` after marking the pixel at `pos`, wrapped around a `w * h` torus,
/// dirty in its chunk.
pub open spec fn pixel_mark(rects: Seq<DirtyRect>, pos: UVec2, w: int, h: int, nx: int, cw: int, ch: int) -> Seq<
    DirtyRect,
> {
    let x = (pos.x as int) % w;
    let y = (pos.y as int) % h;
    marked(
        rects,
        chunk_of(x, y, nx, cw, ch),
        UVec2 { x: (x % cw) as u32, y: (y % ch) as u32 },
        UVec2 { x: 1, y: 1 },
    )
}

/// The chunk and the chunk-local position of canvas pixel `p`.
fn locate(p: UVec2, chunk_size: UVec2, Ghost(nx): Ghost<int>, Ghost(ny): Ghost<int>) -> (r: (
    ChunkKey,
    UVec2,
))
    requires
        0 < nx <= 255,
        0 < ny <= 255,
        chunk_size.x > 0,
        chunk_size.y > 0,
        p.x < nx * chunk_size.x,
        p.y < ny * chunk_size.y,
    ensures
        r.0.0 == p.x / chunk_size.x,
        r.0.1 == p.y / chunk_size.y,
        r.0.0 < nx,
        r.0.1 < ny,
        key_index(r.0, nx) == chunk_of(p.x as int, p.y as int, nx, chunk_size.x as int, chunk_size.y as int),
        r.1.x == p.x % chunk_size.x,
        r.1.y == p.y % chunk_size.y,
        0 <= key_index(r.0, nx) < nx * ny,
        0 <= offset_of(p.x as int, p.y as int, chunk_size.x as int, chunk_size.y as int)
            < chunk_size.x * chunk_size.y,
{
    proof {
        lemma_pixel_to_chunk(p.x as int, p.y as int, nx, ny, chunk_size.x as int, chunk_size.y as int);
        vstd::arithmetic::div_mod::lemma_fundamental_div_mod(p.x as int, chunk_size.x as int);
        vstd::arithmetic::div_mod::lemma_fundamental_div_mod(p.y as int, chunk_size.y as int);
        vstd::arithmetic::div_mod::lemma_mod_pos_bound(p.x as int, chunk_size.x as int);
        vstd::arithmetic::div_mod::lemma_mod_pos_bound(p.y as int, chunk_size.y as int);
    }
    let chunk_xy = UVec2 { x: p.x / chunk_size.x, y: p.y / chunk_size.y };
    let chunk_key = ChunkKey(chunk_xy.x as u8, chunk_xy.y as u8);
    proof {
        assert(chunk_xy.x * chunk_size.x <= p.x) by (nonlinear_arith)
            requires
                p.x == chunk_size.x * chunk_xy.x + p.x % chunk_size.x,
                p.x % chunk_size.x >= 0,
        ;
        assert(chunk_xy.y * chunk_size.y <= p.y) by (nonlinear_arith)
            requires
                p.y == chunk_size.y * chunk_xy.y + p.y % chunk_size.y,
                p.y % chunk_size.y >= 0,
        ;
    }
    let chunk_min = UVec2 { x: chunk_xy.x * chunk_size.x, y: chunk_xy.y * chunk_size.y };
    let local = UVec2 { x: p.x - chunk_min.x, y: p.y - chunk_min.y };
    proof {
        assert(local.x == p.x % chunk_size.x) by (nonlinear_arith)
            requires
                p.x == chunk_size.x * chunk_xy.x + p.x % chunk_size.x,
                local.x == p.x - chunk_xy.x * chunk_size.x,
        ;
        assert(local.y == p.y % chunk_size.y) by (nonlinear_arith)
            requires
                p.y == chunk_size.y * chunk_xy.y + p.y % chunk_size.y,
                local.y == p.y - chunk_xy.y * chunk_size.y,
        ;
    }
    (chunk_key, local)
}

/// Writes one pixel at `pos`, wrapped around the canvas, and marks it dirty.
#[inline]
pub fn blit_pixel(
    cpu: &mut CanvasCpuChunks,
    dirty: &mut CanvasDirtyRects,
    canvas_size: UVec2,
    chunk_size: UVec2,
    pos: UVec2,
    rgba_u32: u32,
)
    requires
        canvas_matches(*old(cpu), *old(dirty), canvas_size, chunk_size),
    ensures
        canvas_matches(*final(cpu), *final(dirty), canvas_size, chunk_size),
        final(cpu).spec_num_chunks() == old(cpu).spec_num_chunks(),
        final(cpu).chunks() == painted(
            old(cpu).chunks(),
            old(cpu).nx(),
            old(cpu).cw(),
            old(cpu).ch(),
            pixel_paint(pos, rgba_u32, canvas_size.x as int, canvas_size.y as int),
        ),
        final(dirty).rects() == pixel_mark(
            old(dirty).rects(),
            pos,
            canvas_size.x as int,
            canvas_size.y as int,
            old(cpu).nx(),
            old(cpu).cw(),
            old(cpu).ch(),
        ),
        grows(old(dirty).rects(), final(dirty).rects()),
        within(old(dirty).rects(), chunk_size.x as int, chunk_size.y as int) ==> within(
            final(dirty).rects(),
            chunk_size.x as int,
            chunk_size.y as int,
        ),
        covers_paint(
            final(dirty).rects(),
            old(cpu).nx(),
            old(cpu).ny(),
            old(cpu).cw(),
            old(cpu).ch(),
            pixel_paint(pos, rgba_u32, canvas_size.x as int, canvas_size.y as int),
        ),
{
    let ghost nx = cpu.nx();
    let ghost ny = cpu.ny();
    let ghost cw = cpu.cw();
    let ghost ch = cpu.ch();
    let ghost old_chunks = cpu.chunks();
    proof {
        lemma_canvas_matches(*cpu, *dirty, canvas_size, chunk_size);
    }
    // Toroidal wrap
    let p = UVec2 { x: pos.x % canvas_size.x, y: pos.y % canvas_size.y };
    let (chunk_key, local) = locate(p, chunk_size, Ghost(nx), Ghost(ny));

    proof {
        vstd::arithmetic::div_mod::lemma_mod_pos_bound(p.x as int, cw);
        vstd::arithmetic::div_mod::lemma_mod_pos_bound(p.y as int, ch);
        assert(local.y * cw + local.x < cw * ch) by (nonlinear_arith)
            requires local.x < cw, local.y < ch, 0 <= local.x, 0 <= local.y;
    }
    // Write
    let stride = chunk_size.x as usize;
    let idx = local.y as usize * stride + local.x as usize;
    cpu.set_pixel(&chunk_key, idx, rgba_u32);

    proof {
        let c0 = key_index(chunk_key, nx);
        let src = seq![rgba_u32];
        lemma_run_painted(old_chunks, nx, ny, cw, ch, p.x as int, p.y as int, src, 0, 1);
        assert(old_chunks[c0].update(idx as int, rgba_u32) =~= write_span(
            old_chunks[c0],
            idx as int,
            src,
            0,
            1,
        ));
        assert forall|x: int, y: int| 0 <= x < nx * cw && 0 <= y < ny * ch implies #[trigger] run_paint(
            p.x as int,
            p.y as int,
            src,
            0,
            1,
        )(x, y) == pixel_paint(pos, rgba_u32, canvas_size.x as int, canvas_size.y as int)(
            x,
            y,
        ) by {}
        lemma_painted_ext(
            old_chunks,
            nx,
            ny,
            cw,
            ch,
            run_paint(p.x as int, p.y as int, src, 0, 1),
            pixel_paint(pos, rgba_u32, canvas_size.x as int, canvas_size.y as int),
        );
    }

    // Dirty 1x1
    let ghost before_rects = dirty.rects();
    dirty.mark_rect(&chunk_key, local, UVec2 { x: 1, y: 1 });
    proof {
        let ki = key_index(chunk_key, nx);
        lemma_mark_local(before_rects, ki, local, UVec2 { x: 1, y: 1 }, cw, ch);
        let rs = dirty.rects();
        let f = pixel_paint(pos, rgba_u32, canvas_size.x as int, canvas_size.y as int);
        assert forall|x: int, y: int|
            0 <= x < nx * cw && 0 <= y < ny * ch && (#[trigger] f(x, y)) is Some implies rect_covers(
                rs[chunk_of(x, y, nx, cw, ch)],
                x % cw,
                y % ch,
            ) by {
            assert(x == p.x && y == p.y);
            assert(rect_covers(rs[ki], local.x as int, local.y as int));
        }
    }
}

/// Copies a `size` block of a row-major source (row length `src_stride`,
/// block corner `src_min`) into chunk `key` at chunk-local `local_min`.
fn copy_block_into_chunk(
    cpu: &mut CanvasCpuChunks,
    key: &ChunkKey,
    local_min: UVec2,
    size: UVec2,
    src: &[u32],
    src_min: UVec2,
    src_stride: usize,
)
    requires
        old(cpu).wf(),
        key.0 < old(cpu).nx(),
        key.1 < old(cpu).ny(),
        size.x > 0,
        local_min.x + size.x <= old(cpu).cw(),
        local_min.y + size.y <= old(cpu).ch(),
        src_min.x + size.x <= src_stride,
        (src_min.y + size.y) * src_stride <= src@.len(),
    ensures
        final(cpu).wf(),
        final(cpu).spec_num_chunks() == old(cpu).spec_num_chunks(),
        final(cpu).spec_chunk_size() == old(cpu).spec_chunk_size(),
        final(cpu).chunks() == painted(
            old(cpu).chunks(),
            old(cpu).nx(),
            old(cpu).cw(),
            old(cpu).ch(),
            block_paint(
                key.0 * old(cpu).cw() + local_min.x,
                key.1 * old(cpu).ch() + local_min.y,
                size.x as int,
                size.y as int,
                src@,
                src_min.x as int,
                src_min.y as int,
                src_stride as int,
            ),
        ),
{
    let ghost nx = cpu.nx();
    let ghost ny = cpu.ny();
    let ghost cw = cpu.cw();
    let ghost ch = cpu.ch();
    let ghost start = cpu.chunks();
    let ghost x0 = key.0 * cw + local_min.x;
    let ghost y0 = key.1 * ch + local_min.y;
    let ghost sx = src_min.x as int;
    let ghost sy = src_min.y as int;
    let ghost stride = src_stride as int;
    let (cw_u32, _) = cpu.chunk_size();
    let dst_stride = cw_u32 as usize;
    let copy = size.x as usize;
    let rows = size.y as usize;
    proof {
        lemma_painted_nothing(start, nx, cw, ch);
        lemma_painted_ext(start, nx, ny, cw, ch, no_paint(), block_paint(x0, y0, size.x as int, 0, src@, sx, sy, stride));
    }
    let mut row: usize = 0;
    while row < rows
        invariant
            cpu.wf(),
            cpu.spec_num_chunks() == old(cpu).spec_num_chunks(),
            cpu.spec_chunk_size() == old(cpu).spec_chunk_size(),
            nx == cpu.nx(), ny == cpu.ny(), cw == cpu.cw(), ch == cpu.ch(),
            start == old(cpu).chunks(),
            shaped(start, nx, ny, cw, ch),
            dst_stride == cw,
            copy == size.x,
            rows == size.y,
            size.x > 0,
            row <= rows,
            key.0 < nx,
            key.1 < ny,
            x0 == key.0 * cw + local_min.x,
            y0 == key.1 * ch + local_min.y,
            sx == src_min.x, sy == src_min.y, stride == src_stride,
            local_min.x + size.x <= cw,
            local_min.y + size.y <= ch,
            src_min.x + size.x <= src_stride,
            (src_min.y + size.y) * src_stride <= src@.len(),
            src@.len() == src.len(),
            cpu.chunks() == painted(start, nx, cw, ch, block_paint(x0, y0, size.x as int, row as int, src@, sx, sy, stride)),
        decreases rows - row,
    {
        proof {
            assert((src_min.y + row + 1) * src_stride <= (src_min.y + size.y) * src_stride) by (nonlinear_arith)
                requires row < size.y, src_stride >= 0;
            assert((src_min.y + row) * src_stride + src_min.x + size.x <= (src_min.y + row + 1) * src_stride) by (nonlinear_arith)
                requires src_min.x + size.x <= src_stride;
            assert((local_min.y + row) * cw + local_min.x + size.x <= (local_min.y + row + 1) * cw) by (nonlinear_arith)
                requires local_min.x + size.x <= cw;
            assert((local_min.y + row + 1) * cw <= ch * cw) by (nonlinear_arith)
                requires local_min.y + row + 1 <= ch, cw > 0;
            assert(ch * cw == cw * ch) by (nonlinear_arith);
            assert(src_min.y + row + 1 <= (src_min.y + row + 1) * src_stride) by (nonlinear_arith)
                requires src_stride >= 1, src_min.y + row + 1 >= 0;
            lemma_in_chunk(x0, y0 + row, key.0 as int, key.1 as int, nx, ny, cw, ch);
            lemma_pixel_to_chunk(x0, y0 + row, nx, ny, cw, ch);
        }
        let src_index = (src_min.y as usize + row) * src_stride + (src_min.x as usize);
        let dst_index = (local_min.y as usize + row) * dst_stride + (local_min.x as usize);
        let ghost before = cpu.chunks();
        cpu.write_run(key, dst_index, src, src_index, copy);
        proof {
            let xr = x0;
            let yr = y0 + row;
            lemma_in_chunk(xr, yr, key.0 as int, key.1 as int, nx, ny, cw, ch);
            assert(xr - key.0 * cw == local_min.x);
            assert(yr - key.1 * ch == local_min.y + row);
            lemma_painted_shaped(start, nx, ny, cw, ch, block_paint(x0, y0, size.x as int, row as int, src@, sx, sy, stride));
            lemma_run_painted(before, nx, ny, cw, ch, xr, yr, src@, src_index as int, copy as int);
            lemma_painted_compose(start, nx, cw, ch,
                block_paint(x0, y0, size.x as int, row as int, src@, sx, sy, stride),
                run_paint(xr, yr, src@, src_index as int, copy as int));
            assert forall|x: int, y: int| 0 <= x < nx * cw && 0 <= y < ny * ch implies #[trigger] overlay(
                block_paint(x0, y0, size.x as int, row as int, src@, sx, sy, stride),
                run_paint(xr, yr, src@, src_index as int, copy as int),
            )(x, y) == block_paint(x0, y0, size.x as int, row + 1, src@, sx, sy, stride)(x, y) by {
                if y == yr {
                    assert(sy + (y - y0) == sy + row);
                }
            }
            lemma_painted_ext(start, nx, ny, cw, ch,
                overlay(
                    block_paint(x0, y0, size.x as int, row as int, src@, sx, sy, stride),
                    run_paint(xr, yr, src@, src_index as int, copy as int),
                ),
                block_paint(x0, y0, size.x as int, row + 1, src@, sx, sy, stride));
        }
        row = row + 1;
    }
}

/// `cpu` and `dirty` describe the same grid of `chunk_size` chunks.
pub open spec fn chunks_match(cpu: CanvasCpuChunks, dirty: CanvasDirtyRects, chunk_size: UVec2) -> bool {
    &&& cpu.wf()
    &&& dirty.wf()
    &&& dirty.spec_num_chunks() == cpu.spec_num_chunks()
    &&& cpu.spec_chunk_size() == (chunk_size.x, chunk_size.y)
    &&& cpu.width() <= u32::MAX
    &&& cpu.height() <= u32::MAX
}

/// Paints the canvas pixels of `sub` from the row-major `src` whose rows are
/// `orig_size.x` long.
pub open spec fn subrect_paint(sub: SubRect, orig_size: UVec2, src: Seq<u32>) -> spec_fn(
    int,
    int,
) -> Option<u32> {
    block_paint(
        sub.dst_start.x as int,
        sub.dst_start.y as int,
        sub.size.x as int,
        sub.size.y as int,
        src,
        sub.src_start.x as int,
        sub.src_start.y as int,
        orig_size.x as int,
    )
}

/// `f` on the rows above `done_y`, and on the row band up to `band_end` left
/// of `done_x`.
spec fn band_paint(
    f: spec_fn(int, int) -> Option<u32>,
    done_y: int,
    band_end: int,
    done_x: int,
) -> spec_fn(int, int) -> Option<u32> {
    restrict(f, |x: int, y: int| y < done_y || (y < band_end && x < done_x))
}

/// The part of `sub`'s destination that lies in chunk `c`, in chunk-local
/// coordinates, as `(min, max)` with `max` inclusive; `None` when they do not
/// meet.
pub open spec fn sub_in_chunk(sub: SubRect, c: int, nx: int, cw: int, ch: int) -> Option<(UVec2, UVec2)> {
    let x0 = (c % nx) * cw;
    let y0 = (c / nx) * ch;
    let lo_x = if sub.dst_start.x >= x0 { sub.dst_start.x as int } else { x0 };
    let lo_y = if sub.dst_start.y >= y0 { sub.dst_start.y as int } else { y0 };
    let hi_x = if sub.dst_start.x + sub.size.x <= x0 + cw { sub.dst_start.x + sub.size.x } else { x0 + cw };
    let hi_y = if sub.dst_start.y + sub.size.y <= y0 + ch { sub.dst_start.y + sub.size.y } else { y0 + ch };
    if lo_x < hi_x && lo_y < hi_y {
        Some(
            (
                UVec2 { x: (lo_x - x0) as u32, y: (lo_y - y0) as u32 },
                UVec2 { x: (hi_x - 1 - x0) as u32, y: (hi_y - 1 - y0) as u32 },
            ),
        )
    } else {
        None
    }
}

/// `rects` after every chunk that `sub` meets has that part marked dirty.
pub open spec fn mark_sub(rects: Seq<DirtyRect>, sub: SubRect, nx: int, cw: int, ch: int) -> Seq<DirtyRect> {
    Seq::new(
        rects.len(),
        |c: int|
            match sub_in_chunk(sub, c, nx, cw, ch) {
                Some(b) => merge_rect(rects[c], b.0, b.1),
                None => rects[c],
            },
    )
}

/// Whether chunk `c` comes before row `y`, column `x` in row-major order.
spec fn chunk_done(c: int, nx: int, y: int, x: int) -> bool {
    c / nx < y || (c / nx == y && c % nx < x)
}

/// `mark_sub`, done for the chunks in the rows above `done_y` and the chunks
/// of row `done_y` left of column `done_x` only.
spec fn mark_sub_partial(
    rects: Seq<DirtyRect>,
    sub: SubRect,
    nx: int,
    cw: int,
    ch: int,
    done_y: int,
    done_x: int,
) -> Seq<DirtyRect> {
    Seq::new(
        rects.len(),
        |c: int|
            if chunk_done(c, nx, done_y, done_x) {
                mark_sub(rects, sub, nx, cw, ch)[c]
            } else {
                rects[c]
            },
    )
}

/// A chunk outside the column and row range a sub-rect spans does not meet it.
proof fn lemma_sub_outside_range(
    sub: SubRect,
    c: int,
    nx: int,
    cw: int,
    ch: int,
    csx: int,
    csy: int,
    cex: int,
    cey: int,
)
    requires
        nx > 0,
        cw > 0,
        ch > 0,
        0 <= c,
        csx * cw <= sub.dst_start.x,
        csy * ch <= sub.dst_start.y,
        sub.dst_start.x + sub.size.x <= (cex + 1) * cw,
        sub.dst_start.y + sub.size.y <= (cey + 1) * ch,
        c % nx < csx || c % nx > cex || c / nx < csy || c / nx > cey,
    ensures
        sub_in_chunk(sub, c, nx, cw, ch) is None,
{
    let kx = c % nx;
    let ky = c / nx;
    vstd::arithmetic::div_mod::lemma_mod_pos_bound(c, nx);
    vstd::arithmetic::div_mod::lemma_div_pos_is_pos(c, nx);
    if kx < csx {
        assert(kx * cw + cw <= csx * cw) by (nonlinear_arith) requires kx + 1 <= csx, cw > 0;
    } else if kx > cex {
        assert(kx * cw >= (cex + 1) * cw) by (nonlinear_arith) requires kx >= cex + 1, cw > 0;
    } else if ky < csy {
        assert(ky * ch + ch <= csy * ch) by (nonlinear_arith) requires ky + 1 <= csy, ch > 0;
    } else {
        assert(ky * ch >= (cey + 1) * ch) by (nonlinear_arith) requires ky >= cey + 1, ch > 0;
    }
}

/// Two stages of `mark_sub_partial` agree when the chunks on which they
/// differ all lie outside the range of chunks that the sub-rect spans.
proof fn lemma_partial_skip(
    rects: Seq<DirtyRect>,
    sub: SubRect,
    nx: int,
    cw: int,
    ch: int,
    csx: int,
    csy: int,
    cex: int,
    cey: int,
    y1: int,
    x1: int,
    y2: int,
    x2: int,
)
    requires
        nx > 0,
        cw > 0,
        ch > 0,
        csx * cw <= sub.dst_start.x,
        csy * ch <= sub.dst_start.y,
        sub.dst_start.x + sub.size.x <= (cex + 1) * cw,
        sub.dst_start.y + sub.size.y <= (cey + 1) * ch,
        forall|c: int|
            0 <= c && #[trigger] chunk_done(c, nx, y1, x1) != chunk_done(c, nx, y2, x2) ==> (c % nx < csx
                || c % nx > cex || c / nx < csy || c / nx > cey),
    ensures
        mark_sub_partial(rects, sub, nx, cw, ch, y1, x1) == mark_sub_partial(rects, sub, nx, cw, ch, y2, x2),
{
    assert forall|c: int| 0 <= c < rects.len() implies #[trigger] mark_sub_partial(
        rects,
        sub,
        nx,
        cw,
        ch,
        y1,
        x1,
    )[c] == mark_sub_partial(rects, sub, nx, cw, ch, y2, x2)[c] by {
        if chunk_done(c, nx, y1, x1) != chunk_done(c, nx, y2, x2) {
            lemma_sub_outside_range(sub, c, nx, cw, ch, csx, csy, cex, cey);
        }
    }
    assert(mark_sub_partial(rects, sub, nx, cw, ch, y1, x1) =~= mark_sub_partial(
        rects,
        sub,
        nx,
        cw,
        ch,
        y2,
        x2,
    ));
}

/// Before any chunk `mark_sub_partial` is the rects unchanged; past the last
/// one it is `mark_sub`.
proof fn lemma_partial_ends(rects: Seq<DirtyRect>, sub: SubRect, nx: int, cw: int, ch: int)
    requires
        nx > 0,
    ensures
        mark_sub_partial(rects, sub, nx, cw, ch, 0, 0) == rects,
        mark_sub_partial(rects, sub, nx, cw, ch, rects.len() as int, 0) == mark_sub(rects, sub, nx, cw, ch),
{
    assert forall|c: int| 0 <= c < rects.len() implies !chunk_done(c, nx, 0, 0) && chunk_done(
        c,
        nx,
        rects.len() as int,
        0,
    ) by {
        vstd::arithmetic::div_mod::lemma_div_pos_is_pos(c, nx);
        vstd::arithmetic::div_mod::lemma_fundamental_div_mod(c, nx);
        vstd::arithmetic::div_mod::lemma_mod_pos_bound(c, nx);
        let q = c / nx;
        assert(nx * q >= q) by (nonlinear_arith) requires nx >= 1, q >= 0;
    }
    assert(mark_sub_partial(rects, sub, nx, cw, ch, 0, 0) =~= rects);
    assert(mark_sub_partial(rects, sub, nx, cw, ch, rects.len() as int, 0) =~= mark_sub(rects, sub, nx, cw, ch));
}

/// Marking the part of the sub-rect in chunk `(cx, cy)` moves
/// `mark_sub_partial` one chunk on.
proof fn lemma_partial_step(
    rects: Seq<DirtyRect>,
    sub: SubRect,
    nx: int,
    cw: int,
    ch: int,
    cx: int,
    cy: int,
    min: UVec2,
    size: UVec2,
)
    requires
        nx > 0,
        0 <= cx < nx,
        0 <= cy,
        cy * nx + cx < rects.len(),
        size.x > 0,
        size.y > 0,
        min.x + size.x <= u32::MAX,
        min.y + size.y <= u32::MAX,
        sub_in_chunk(sub, cy * nx + cx, nx, cw, ch) == Some(
            (min, UVec2 { x: (min.x + size.x - 1) as u32, y: (min.y + size.y - 1) as u32 }),
        ),
    ensures
        marked(mark_sub_partial(rects, sub, nx, cw, ch, cy, cx), cy * nx + cx, min, size)
            == mark_sub_partial(rects, sub, nx, cw, ch, cy, cx + 1),
{
    let ki = cy * nx + cx;
    vstd::arithmetic::div_mod::lemma_fundamental_div_mod_converse(ki, nx, cy, cx);
    let lhs = marked(mark_sub_partial(rects, sub, nx, cw, ch, cy, cx), ki, min, size);
    let rhs = mark_sub_partial(rects, sub, nx, cw, ch, cy, cx + 1);
    assert forall|c: int| 0 <= c < rects.len() implies #[trigger] lhs[c] == rhs[c] by {
        if c != ki {
            vstd::arithmetic::div_mod::lemma_fundamental_div_mod(c, nx);
            if c / nx == cy && c % nx == cx {
                assert(nx * cy == cy * nx) by (nonlinear_arith);
                assert(c == ki);
            }
        }
    }
    assert(lhs =~= rhs);
}

/// The chunk at column `cx`, row `cy` of a grid `nx` wide.
proof fn lemma_key_div_mod(cx: int, cy: int, nx: int)
    requires
        nx > 0,
        0 <= cx < nx,
        0 <= cy,
    ensures
        (cy * nx + cx) / nx == cy,
        (cy * nx + cx) % nx == cx,
{
    vstd::arithmetic::div_mod::lemma_fundamental_div_mod_converse(cy * nx + cx, nx, cy, cx);
}

/// Copies the part of `src_u32` that `sub_rect` names into the chunks it
/// touches, and marks what it wrote dirty.
#[inline]
pub fn blit_subrect_into_chunks(
    canvas_cpu_chunks: &mut CanvasCpuChunks,
    canvas_dirty_rects: &mut CanvasDirtyRects,
    orig_size: UVec2,
    src_u32: &[u32],
    sub_rect: SubRect,
    chunk_size: UVec2,
)
    requires
        chunks_match(*old(canvas_cpu_chunks), *old(canvas_dirty_rects), chunk_size),
        sub_rect.dst_start.x + sub_rect.size.x <= old(canvas_cpu_chunks).width(),
        sub_rect.dst_start.y + sub_rect.size.y <= old(canvas_cpu_chunks).height(),
        sub_rect.src_start.x + sub_rect.size.x <= orig_size.x,
        sub_rect.src_start.y + sub_rect.size.y <= orig_size.y,
        orig_size.x * orig_size.y <= src_u32@.len(),
    ensures
        chunks_match(*final(canvas_cpu_chunks), *final(canvas_dirty_rects), chunk_size),
        final(canvas_cpu_chunks).spec_num_chunks() == old(canvas_cpu_chunks).spec_num_chunks(),
        final(canvas_cpu_chunks).chunks() == painted(
            old(canvas_cpu_chunks).chunks(),
            old(canvas_cpu_chunks).nx(),
            old(canvas_cpu_chunks).cw(),
            old(canvas_cpu_chunks).ch(),
            subrect_paint(sub_rect, orig_size, src_u32@),
        ),
        grows(old(canvas_dirty_rects).rects(), final(canvas_dirty_rects).rects()),
        within(old(canvas_dirty_rects).rects(), chunk_size.x as int, chunk_size.y as int) ==> within(
            final(canvas_dirty_rects).rects(),
            chunk_size.x as int,
            chunk_size.y as int,
        ),
        covers_paint(
            final(canvas_dirty_rects).rects(),
            old(canvas_cpu_chunks).nx(),
            old(canvas_cpu_chunks).ny(),
            old(canvas_cpu_chunks).cw(),
            old(canvas_cpu_chunks).ch(),
            subrect_paint(sub_rect, orig_size, src_u32@),
        ),
        final(canvas_dirty_rects).rects() == mark_sub(
            old(canvas_dirty_rects).rects(),
            sub_rect,
            old(canvas_cpu_chunks).nx(),
            old(canvas_cpu_chunks).cw(),
            old(canvas_cpu_chunks).ch(),
        ),
{
    let ghost nx = canvas_cpu_chunks.nx();
    let ghost ny = canvas_cpu_chunks.ny();
    let ghost cw = canvas_cpu_chunks.cw();
    let ghost ch = canvas_cpu_chunks.ch();
    let ghost start = canvas_cpu_chunks.chunks();
    let ghost start_rects = canvas_dirty_rects.rects();
    let ghost full = subrect_paint(sub_rect, orig_size, src_u32@);
    let chunk_w = chunk_size.x;
    let chunk_h = chunk_size.y;

    if sub_rect.size.x == 0 || sub_rect.size.y == 0 {
        proof {
            lemma_painted_nothing(start, nx, cw, ch);
            assert forall|x: int, y: int| 0 <= x < nx * cw && 0 <= y < ny * ch implies #[trigger] no_paint()(x, y) == full(x, y) by {}
            assert(shaped(start, nx, ny, cw, ch));
            lemma_painted_ext(start, nx, ny, cw, ch, no_paint(), full);
            assert(mark_sub(start_rects, sub_rect, nx, cw, ch) =~= start_rects);
        }
        return;
    }
    proof {
        assert(shaped(start, nx, ny, cw, ch));
        assert(nx <= 255 && ny <= 255);
    }

    let sub_min = sub_rect.dst_start;
    let sub_max = UVec2 { x: sub_min.x + sub_rect.size.x, y: sub_min.y + sub_rect.size.y };

    // Which chunks does this sub-rect touch?
    let chunk_start = UVec2 { x: sub_min.x / chunk_w, y: sub_min.y / chunk_h };
    let sub_max_minus_one = UVec2 { x: sub_max.x - 1, y: sub_max.y - 1 };
    let chunk_end = UVec2 { x: sub_max_minus_one.x / chunk_w, y: sub_max_minus_one.y / chunk_h };
    proof {
        let smx = sub_min.x as int;
        let smy = sub_min.y as int;
        let mmx = sub_max_minus_one.x as int;
        let mmy = sub_max_minus_one.y as int;
        let csx = chunk_start.x as int;
        let csy = chunk_start.y as int;
        let cex = chunk_end.x as int;
        let cey = chunk_end.y as int;
        lemma_pixel_to_chunk(mmx, mmy, nx, ny, cw, ch);
        vstd::arithmetic::div_mod::lemma_fundamental_div_mod(smx, cw);
        vstd::arithmetic::div_mod::lemma_fundamental_div_mod(smy, ch);
        vstd::arithmetic::div_mod::lemma_fundamental_div_mod(mmx, cw);
        vstd::arithmetic::div_mod::lemma_fundamental_div_mod(mmy, ch);
        vstd::arithmetic::div_mod::lemma_mod_pos_bound(smx, cw);
        vstd::arithmetic::div_mod::lemma_mod_pos_bound(smy, ch);
        vstd::arithmetic::div_mod::lemma_mod_pos_bound(mmx, cw);
        vstd::arithmetic::div_mod::lemma_mod_pos_bound(mmy, ch);
        let rsx = smx % cw;
        let rsy = smy % ch;
        let rmx = mmx % cw;
        let rmy = mmy % ch;
        assert(csx * cw <= smx) by (nonlinear_arith)
            requires smx == cw * csx + rsx, rsx >= 0;
        assert(csy * ch <= smy) by (nonlinear_arith)
            requires smy == ch * csy + rsy, rsy >= 0;
        assert(smx < csx * cw + cw) by (nonlinear_arith)
            requires smx == cw * csx + rsx, rsx < cw;
        assert(smy < csy * ch + ch) by (nonlinear_arith)
            requires smy == ch * csy + rsy, rsy < ch;
        assert(mmx + 1 <= (cex + 1) * cw) by (nonlinear_arith)
            requires mmx == cw * cex + rmx, rmx < cw;
        assert(mmy + 1 <= (cey + 1) * ch) by (nonlinear_arith)
            requires mmy == ch * cey + rmy, rmy < ch;
        assert(cex * cw <= mmx) by (nonlinear_arith)
            requires mmx == cw * cex + rmx, rmx >= 0;
        assert(cey * ch <= mmy) by (nonlinear_arith)
            requires mmy == ch * cey + rmy, rmy >= 0;
        assert(csx <= cex) by (nonlinear_arith)
            requires csx * cw <= smx, smx <= mmx, mmx < (cex + 1) * cw, cw > 0;
        assert(csy <= cey) by (nonlinear_arith)
            requires csy * ch <= smy, smy <= mmy, mmy < (cey + 1) * ch, ch > 0;
        lemma_painted_nothing(start, nx, cw, ch);
        assert forall|x: int, y: int| 0 <= x < nx * cw && 0 <= y < ny * ch implies #[trigger] no_paint()(x, y)
            == band_paint(full, chunk_start.y * ch, chunk_start.y * ch, 0)(x, y) by {}
        lemma_painted_ext(start, nx, ny, cw, ch, no_paint(), band_paint(full, chunk_start.y * ch, chunk_start.y * ch, 0));
        lemma_partial_ends(start_rects, sub_rect, nx, cw, ch);
        assert forall|c: int|
            0 <= c && #[trigger] chunk_done(c, nx, 0, 0) != chunk_done(c, nx, csy, 0) implies (c % nx < csx
                || c % nx > cex || c / nx < csy || c / nx > cey) by {
            vstd::arithmetic::div_mod::lemma_div_pos_is_pos(c, nx);
        }
        lemma_partial_skip(start_rects, sub_rect, nx, cw, ch, csx, csy, cex, cey, 0, 0, csy, 0);
    }

    let src_stride = orig_size.x as usize;

    let mut cy = chunk_start.y;
    while cy <= chunk_end.y
        invariant
            chunks_match(*canvas_cpu_chunks, *canvas_dirty_rects, chunk_size),
            canvas_cpu_chunks.spec_num_chunks() == old(canvas_cpu_chunks).spec_num_chunks(),
            nx == canvas_cpu_chunks.nx(), ny == canvas_cpu_chunks.ny(),
            cw == canvas_cpu_chunks.cw(), ch == canvas_cpu_chunks.ch(),
            nx <= 255, ny <= 255,
            chunk_w == cw, chunk_h == ch,
            start == old(canvas_cpu_chunks).chunks(),
            start_rects == old(canvas_dirty_rects).rects(),
            shaped(start, nx, ny, cw, ch),
            full == subrect_paint(sub_rect, orig_size, src_u32@),
            sub_min == sub_rect.dst_start,
            sub_max.x == sub_min.x + sub_rect.size.x,
            sub_max.y == sub_min.y + sub_rect.size.y,
            sub_rect.size.x > 0, sub_rect.size.y > 0,
            sub_max.x <= nx * cw, sub_max.y <= ny * ch,
            sub_rect.src_start.x + sub_rect.size.x <= orig_size.x,
            sub_rect.src_start.y + sub_rect.size.y <= orig_size.y,
            orig_size.x * orig_size.y <= src_u32@.len(),
            src_stride == orig_size.x,
            chunk_start.x * cw <= sub_min.x,
            chunk_start.y * ch <= sub_min.y,
            sub_max.x <= (chunk_end.x + 1) * cw,
            sub_max.y <= (chunk_end.y + 1) * ch,
            sub_min.x < chunk_start.x * cw + cw,
            sub_min.y < chunk_start.y * ch + ch,
            chunk_end.x * cw <= sub_max.x - 1,
            chunk_end.y * ch <= sub_max.y - 1,
            chunk_start.x <= chunk_end.x, chunk_end.x < nx,
            chunk_start.y <= cy <= chunk_end.y + 1, chunk_end.y < ny,
            canvas_cpu_chunks.chunks() == painted(start, nx, cw, ch, band_paint(full, cy * ch, cy * ch, 0)),
            canvas_dirty_rects.rects() == mark_sub_partial(start_rects, sub_rect, nx, cw, ch, cy as int, 0),
            grows(start_rects, canvas_dirty_rects.rects()),
            within(start_rects, cw, ch) ==> within(canvas_dirty_rects.rects(), cw, ch),
            covers_paint(canvas_dirty_rects.rects(), nx, ny, cw, ch, band_paint(full, cy * ch, cy * ch, 0)),
        decreases chunk_end.y + 1 - cy,
    {
        proof {
            assert forall|x: int, y: int| 0 <= x < nx * cw && 0 <= y < ny * ch implies
                #[trigger] band_paint(full, cy * ch, cy * ch, 0)(x, y)
                    == band_paint(full, cy * ch, cy * ch + ch, chunk_start.x * cw)(x, y) by {}
            lemma_painted_ext(start, nx, ny, cw, ch, band_paint(full, cy * ch, cy * ch, 0),
                band_paint(full, cy * ch, cy * ch + ch, chunk_start.x * cw));
            lemma_covers_ext(canvas_dirty_rects.rects(), nx, ny, cw, ch, band_paint(full, cy * ch, cy * ch, 0),
                band_paint(full, cy * ch, cy * ch + ch, chunk_start.x * cw));
            lemma_partial_skip(start_rects, sub_rect, nx, cw, ch, chunk_start.x as int, chunk_start.y as int,
                chunk_end.x as int, chunk_end.y as int, cy as int, 0, cy as int, chunk_start.x as int);
        }
        let mut cx = chunk_start.x;
        while cx <= chunk_end.x
            invariant
                chunks_match(*canvas_cpu_chunks, *canvas_dirty_rects, chunk_size),
                canvas_cpu_chunks.spec_num_chunks() == old(canvas_cpu_chunks).spec_num_chunks(),
                nx == canvas_cpu_chunks.nx(), ny == canvas_cpu_chunks.ny(),
                cw == canvas_cpu_chunks.cw(), ch == canvas_cpu_chunks.ch(),
                nx <= 255, ny <= 255,
                chunk_w == cw, chunk_h == ch,
                start == old(canvas_cpu_chunks).chunks(),
                start_rects == old(canvas_dirty_rects).rects(),
                shaped(start, nx, ny, cw, ch),
                full == subrect_paint(sub_rect, orig_size, src_u32@),
                sub_min == sub_rect.dst_start,
                sub_max.x == sub_min.x + sub_rect.size.x,
                sub_max.y == sub_min.y + sub_rect.size.y,
                sub_rect.size.x > 0, sub_rect.size.y > 0,
                sub_max.x <= nx * cw, sub_max.y <= ny * ch,
                sub_rect.src_start.x + sub_rect.size.x <= orig_size.x,
                sub_rect.src_start.y + sub_rect.size.y <= orig_size.y,
                orig_size.x * orig_size.y <= src_u32@.len(),
                src_stride == orig_size.x,
                chunk_start.x * cw <= sub_min.x,
                chunk_start.y * ch <= sub_min.y,
                sub_max.x <= (chunk_end.x + 1) * cw,
                sub_max.y <= (chunk_end.y + 1) * ch,
                sub_min.x < chunk_start.x * cw + cw,
                sub_min.y < chunk_start.y * ch + ch,
                chunk_end.x * cw <= sub_max.x - 1,
                chunk_end.y * ch <= sub_max.y - 1,
                chunk_start.x <= cx <= chunk_end.x + 1, chunk_end.x < nx,
                chunk_start.y <= cy <= chunk_end.y, chunk_end.y < ny,
                canvas_cpu_chunks.chunks() == painted(start, nx, cw, ch, band_paint(full, cy * ch, cy * ch + ch, cx * cw)),
                canvas_dirty_rects.rects() == mark_sub_partial(start_rects, sub_rect, nx, cw, ch, cy as int, cx as int),
                grows(start_rects, canvas_dirty_rects.rects()),
                within(start_rects, cw, ch) ==> within(canvas_dirty_rects.rects(), cw, ch),
                covers_paint(canvas_dirty_rects.rects(), nx, ny, cw, ch, band_paint(full, cy * ch, cy * ch + ch, cx * cw)),
            decreases chunk_end.x + 1 - cx,
        {
            let ghost before = canvas_cpu_chunks.chunks();
            let ghost before_rects = canvas_dirty_rects.rects();
            proof {
                assert(cx * cw + cw <= nx * cw) by (nonlinear_arith) requires cx < nx, cw > 0;
                assert(cy * ch + ch <= ny * ch) by (nonlinear_arith) requires cy < ny, ch > 0;
                assert((cx + 1) * cw == cx * cw + cw) by (nonlinear_arith);
                assert((cy + 1) * ch == cy * ch + ch) by (nonlinear_arith);
                assert(0 <= cx * cw) by (nonlinear_arith) requires cx >= 0, cw > 0;
                assert(0 <= cy * ch) by (nonlinear_arith) requires cy >= 0, ch > 0;
                assert(cx * cw <= chunk_end.x * cw) by (nonlinear_arith) requires cx <= chunk_end.x, cw > 0;
                assert(cy * ch <= chunk_end.y * ch) by (nonlinear_arith) requires cy <= chunk_end.y, ch > 0;
            }
            let chunk_key = ChunkKey(cx as u8, cy as u8);
            let chunk_min = UVec2 { x: cx * chunk_w, y: cy * chunk_h };
            let chunk_max = UVec2 { x: chunk_min.x + chunk_w, y: chunk_min.y + chunk_h };

            let intersection_min = UVec2 {
                x: if sub_min.x >= chunk_min.x { sub_min.x } else { chunk_min.x },
                y: if sub_min.y >= chunk_min.y { sub_min.y } else { chunk_min.y },
            };
            let intersection_max = UVec2 {
                x: if sub_max.x <= chunk_max.x { sub_max.x } else { chunk_max.x },
                y: if sub_max.y <= chunk_max.y { sub_max.y } else { chunk_max.y },
            };
            proof {
                // The chunks from chunk_start to chunk_end all overlap the sub-rect.
                assert(chunk_min.x < sub_max.x) by (nonlinear_arith)
                    requires chunk_min.x == cx * cw, cx <= chunk_end.x,
                        sub_max.x - 1 >= chunk_end.x * cw, cw > 0;
                assert(chunk_min.y < sub_max.y) by (nonlinear_arith)
                    requires chunk_min.y == cy * ch, cy <= chunk_end.y,
                        sub_max.y - 1 >= chunk_end.y * ch, ch > 0;
                assert(sub_min.x < chunk_max.x) by (nonlinear_arith)
                    requires chunk_max.x == cx * cw + cw, chunk_start.x <= cx,
                        sub_min.x < chunk_start.x * cw + cw, cw > 0;
                assert(sub_min.y < chunk_max.y) by (nonlinear_arith)
                    requires chunk_max.y == cy * ch + ch, chunk_start.y <= cy,
                        sub_min.y < chunk_start.y * ch + ch, ch > 0;
            }
            let intersection_size = UVec2 {
                x: intersection_max.x - intersection_min.x,
                y: intersection_max.y - intersection_min.y,
            };
            let local_min = UVec2 {
                x: intersection_min.x - chunk_min.x,
                y: intersection_min.y - chunk_min.y,
            };
            let src_min = UVec2 {
                x: sub_rect.src_start.x + (intersection_min.x - sub_rect.dst_start.x),
                y: sub_rect.src_start.y + (intersection_min.y - sub_rect.dst_start.y),
            };
            let ghost block = block_paint(
                intersection_min.x as int,
                intersection_min.y as int,
                intersection_size.x as int,
                intersection_size.y as int,
                src_u32@,
                src_min.x as int,
                src_min.y as int,
                src_stride as int,
            );
            proof {
                assert((src_min.y + intersection_size.y) * src_stride <= orig_size.y * orig_size.x) by (nonlinear_arith)
                    requires src_min.y + intersection_size.y <= orig_size.y, src_stride == orig_size.x;
                assert(orig_size.y * orig_size.x == orig_size.x * orig_size.y) by (nonlinear_arith);
            }

            copy_block_into_chunk(
                canvas_cpu_chunks,
                &chunk_key,
                local_min,
                intersection_size,
                src_u32,
                src_min,
                src_stride,
            );
            proof {
                let prev = band_paint(full, cy * ch, cy * ch + ch, cx * cw);
                let next = band_paint(full, cy * ch, cy * ch + ch, (cx + 1) * cw);
                lemma_painted_compose(start, nx, cw, ch, prev, block);
                assert forall|x: int, y: int| 0 <= x < nx * cw && 0 <= y < ny * ch implies
                    #[trigger] overlay(prev, block)(x, y) == next(x, y) by {
                    if intersection_min.x <= x < intersection_max.x && intersection_min.y <= y < intersection_max.y {
                        assert(src_min.y + (y - intersection_min.y) == sub_rect.src_start.y + (y - sub_rect.dst_start.y));
                        assert(src_min.x + (x - intersection_min.x) == sub_rect.src_start.x + (x - sub_rect.dst_start.x));
                    }
                }
                lemma_painted_ext(start, nx, ny, cw, ch, overlay(prev, block), next);
            }

            let ghost mid_rects = canvas_dirty_rects.rects();
            proof {
                let ki = key_index(chunk_key, nx);
                assert(ki == cy * nx + cx);
                assert(ki < nx * ny) by (nonlinear_arith) requires ki == cy * nx + cx, cx < nx, cy < ny;
            }
            canvas_dirty_rects.mark_rect(&chunk_key, local_min, intersection_size);
            proof {
                let prev = band_paint(full, cy * ch, cy * ch + ch, cx * cw);
                let next = band_paint(full, cy * ch, cy * ch + ch, (cx + 1) * cw);
                let ki = key_index(chunk_key, nx);
                assert(ki == cy * nx + cx);
                assert(ki < nx * ny) by (nonlinear_arith) requires ki == cy * nx + cx, cx < nx, cy < ny;
                lemma_mark_local(mid_rects, ki, local_min, intersection_size, cw, ch);
                lemma_grows_trans(start_rects, mid_rects, canvas_dirty_rects.rects());
                lemma_key_div_mod(cx as int, cy as int, nx);
                assert(sub_in_chunk(sub_rect, ki, nx, cw, ch) == Some(
                    (local_min, UVec2 {
                        x: (local_min.x + intersection_size.x - 1) as u32,
                        y: (local_min.y + intersection_size.y - 1) as u32,
                    }),
                ));
                lemma_partial_step(start_rects, sub_rect, nx, cw, ch, cx as int, cy as int, local_min, intersection_size);
                let rs = canvas_dirty_rects.rects();
                assert forall|x: int, y: int|
                    0 <= x < nx * cw && 0 <= y < ny * ch && (#[trigger] next(x, y)) is Some implies rect_covers(
                        rs[chunk_of(x, y, nx, cw, ch)],
                        x % cw,
                        y % ch,
                    ) by {
                    if intersection_min.x <= x < intersection_max.x && intersection_min.y <= y < intersection_max.y {
                        lemma_in_chunk(x, y, cx as int, cy as int, nx, ny, cw, ch);
                        assert(rect_covers(rs[ki], x - chunk_min.x, y - chunk_min.y));
                    } else {
                        assert(prev(x, y) is Some);
                        lemma_pixel_to_chunk(x, y, nx, ny, cw, ch);
                        assert(rect_covers(mid_rects[chunk_of(x, y, nx, cw, ch)], x % cw, y % ch));
                    }
                }
            }
            cx = cx + 1;
        }
        proof {
            assert forall|x: int, y: int| 0 <= x < nx * cw && 0 <= y < ny * ch implies
                #[trigger] band_paint(full, cy * ch, cy * ch + ch, cx * cw)(x, y)
                    == band_paint(full, (cy + 1) * ch, (cy + 1) * ch, 0)(x, y) by {
                assert((cy + 1) * ch == cy * ch + ch) by (nonlinear_arith);
            }
            lemma_painted_ext(start, nx, ny, cw, ch, band_paint(full, cy * ch, cy * ch + ch, cx * cw),
                band_paint(full, (cy + 1) * ch, (cy + 1) * ch, 0));
            lemma_covers_ext(canvas_dirty_rects.rects(), nx, ny, cw, ch, band_paint(full, cy * ch, cy * ch + ch, cx * cw),
                band_paint(full, (cy + 1) * ch, (cy + 1) * ch, 0));
            lemma_partial_skip(start_rects, sub_rect, nx, cw, ch, chunk_start.x as int, chunk_start.y as int,
                chunk_end.x as int, chunk_end.y as int, cy as int, cx as int, cy + 1, 0);
            assert((cy + 1) * ch == cy * ch + ch) by (nonlinear_arith);
        }
        cy = cy + 1;
    }
    proof {
        assert forall|x: int, y: int| 0 <= x < nx * cw && 0 <= y < ny * ch implies
            #[trigger] band_paint(full, cy * ch, cy * ch, 0)(x, y) == full(x, y) by {}
        lemma_painted_ext(start, nx, ny, cw, ch, band_paint(full, cy * ch, cy * ch, 0), full);
        lemma_covers_ext(canvas_dirty_rects.rects(), nx, ny, cw, ch, band_paint(full, cy * ch, cy * ch, 0), full);
        lemma_partial_ends(start_rects, sub_rect, nx, cw, ch);
        assert(start_rects.len() == nx * ny);
        assert(ny <= nx * ny) by (nonlinear_arith) requires nx >= 1, ny >= 0;
        assert forall|c: int|
            0 <= c && #[trigger] chunk_done(c, nx, cy as int, 0) != chunk_done(c, nx, start_rects.len() as int, 0)
            implies (c % nx < chunk_start.x || c % nx > chunk_end.x || c / nx < chunk_start.y || c / nx
            > chunk_end.y) by {
            vstd::arithmetic::div_mod::lemma_div_pos_is_pos(c, nx);
            vstd::arithmetic::div_mod::lemma_fundamental_div_mod(c, nx);
            vstd::arithmetic::div_mod::lemma_mod_pos_bound(c, nx);
            let q = c / nx;
            assert(nx * q >= q) by (nonlinear_arith) requires nx >= 1, q >= 0;
        }
        lemma_partial_skip(start_rects, sub_rect, nx, cw, ch, chunk_start.x as int, chunk_start.y as int,
            chunk_end.x as int, chunk_end.y as int, cy as int, 0, start_rects.len() as int, 0);
    }
}

/// Paints a `size` rectangle from the row-major `src` at `start`, wrapped
/// around a `w * h` torus.
pub open spec fn rect_paint(start: UVec2, size: UVec2, src: Seq<u32>, w: int, h: int) -> spec_fn(
    int,
    int,
) -> Option<u32> {
    |x: int, y: int|
        if wrap_offset(x, start.x as int, w) < size.x && wrap_offset(y, start.y as int, h) < size.y {
            Some(src[wrap_offset(y, start.y as int, h) * size.x + wrap_offset(x, start.x as int, w)])
        } else {
            None
        }
}

/// Whether `(x, y)` is in one of the first `k` of the pieces `p`.
spec fn in_first_pieces(p: [SubRect; 4], k: int, x: int, y: int) -> bool {
    ||| (k > 0 && in_piece(p[0], x, y))
    ||| (k > 1 && in_piece(p[1], x, y))
    ||| (k > 2 && in_piece(p[2], x, y))
    ||| (k > 3 && in_piece(p[3], x, y))
}

/// `rects` after `mark_sub` for each of `pieces`, in order.
pub open spec fn mark_pieces(rects: Seq<DirtyRect>, pieces: Seq<SubRect>, nx: int, cw: int, ch: int) -> Seq<
    DirtyRect,
>
    decreases pieces.len(),
{
    if pieces.len() == 0 {
        rects
    } else {
        mark_sub(mark_pieces(rects, pieces.drop_last(), nx, cw, ch), pieces.last(), nx, cw, ch)
    }
}

/// Writes a `size` rectangle of pixels at `start`, wrapping around the canvas
/// at most once per axis, and marks what it wrote dirty.
#[inline]
pub fn blit_rect_torus_into_chunks(
    canvas_cpu_chunks: &mut CanvasCpuChunks,
    canvas_dirty_rects: &mut CanvasDirtyRects,
    start: UVec2,
    size: UVec2,
    src_u32: &[u32],
    canvas_size: UVec2,
    chunk_size: UVec2,
)
    requires
        canvas_matches(*old(canvas_cpu_chunks), *old(canvas_dirty_rects), canvas_size, chunk_size),
        size.x != 0 && size.y != 0 ==> size.x <= canvas_size.x && size.y <= canvas_size.y,
        size.x * size.y <= src_u32@.len(),
    ensures
        canvas_matches(*final(canvas_cpu_chunks), *final(canvas_dirty_rects), canvas_size, chunk_size),
        final(canvas_cpu_chunks).spec_num_chunks() == old(canvas_cpu_chunks).spec_num_chunks(),
        final(canvas_cpu_chunks).chunks() == painted(
            old(canvas_cpu_chunks).chunks(),
            old(canvas_cpu_chunks).nx(),
            old(canvas_cpu_chunks).cw(),
            old(canvas_cpu_chunks).ch(),
            rect_paint(start, size, src_u32@, canvas_size.x as int, canvas_size.y as int),
        ),
        grows(old(canvas_dirty_rects).rects(), final(canvas_dirty_rects).rects()),
        within(old(canvas_dirty_rects).rects(), chunk_size.x as int, chunk_size.y as int) ==> within(
            final(canvas_dirty_rects).rects(),
            chunk_size.x as int,
            chunk_size.y as int,
        ),
        covers_paint(
            final(canvas_dirty_rects).rects(),
            old(canvas_cpu_chunks).nx(),
            old(canvas_cpu_chunks).ny(),
            old(canvas_cpu_chunks).cw(),
            old(canvas_cpu_chunks).ch(),
            rect_paint(start, size, src_u32@, canvas_size.x as int, canvas_size.y as int),
        ),
        final(canvas_dirty_rects).rects() == mark_pieces(
            old(canvas_dirty_rects).rects(),
            torus_pieces(start, size, canvas_size),
            old(canvas_cpu_chunks).nx(),
            old(canvas_cpu_chunks).cw(),
            old(canvas_cpu_chunks).ch(),
        ),
{
    let ghost nx = canvas_cpu_chunks.nx();
    let ghost ny = canvas_cpu_chunks.ny();
    let ghost cw = canvas_cpu_chunks.cw();
    let ghost ch = canvas_cpu_chunks.ch();
    let ghost first = canvas_cpu_chunks.chunks();
    let ghost first_rects = canvas_dirty_rects.rects();
    let ghost w = canvas_size.x as int;
    let ghost h = canvas_size.y as int;
    let ghost full = rect_paint(start, size, src_u32@, w, h);
    proof {
        lemma_canvas_matches(*canvas_cpu_chunks, *canvas_dirty_rects, canvas_size, chunk_size);
    }
    let (sub_rects, n) = split_torus_rect(start, size, canvas_size);
    let ghost pieces = sub_rects;
    proof {
        assert(torus_pieces(start, size, canvas_size).take(0) =~= Seq::<SubRect>::empty());
        lemma_painted_nothing(first, nx, cw, ch);
        assert forall|x: int, y: int| 0 <= x < nx * cw && 0 <= y < ny * ch implies #[trigger] no_paint()(x, y)
            == restrict(full, |x: int, y: int| in_first_pieces(pieces, 0, x, y))(x, y) by {}
        lemma_painted_ext(first, nx, ny, cw, ch, no_paint(), restrict(full, |x: int, y: int| in_first_pieces(pieces, 0, x, y)));
    }
    let mut k: usize = 0;
    while k < n
        invariant
            canvas_matches(*canvas_cpu_chunks, *canvas_dirty_rects, canvas_size, chunk_size),
            canvas_cpu_chunks.spec_num_chunks() == old(canvas_cpu_chunks).spec_num_chunks(),
            nx == canvas_cpu_chunks.nx(), ny == canvas_cpu_chunks.ny(),
            cw == canvas_cpu_chunks.cw(), ch == canvas_cpu_chunks.ch(),
            w == nx * cw, h == ny * ch, w == canvas_size.x, h == canvas_size.y,
            first == old(canvas_cpu_chunks).chunks(),
            first_rects == old(canvas_dirty_rects).rects(),
            shaped(first, nx, ny, cw, ch),
            full == rect_paint(start, size, src_u32@, w, h),
            pieces == sub_rects,
            size.x * size.y <= src_u32@.len(),
            n <= 4,
            k <= n,
            forall|l: int|
                0 <= l < n ==> {
                    &&& #[trigger] pieces[l].size.x > 0
                    &&& pieces[l].size.y > 0
                    &&& pieces[l].dst_start.x + pieces[l].size.x <= canvas_size.x
                    &&& pieces[l].dst_start.y + pieces[l].size.y <= canvas_size.y
                    &&& pieces[l].src_start.x + pieces[l].size.x <= size.x
                    &&& pieces[l].src_start.y + pieces[l].size.y <= size.y
                },
            forall|l: int, x: int, y: int|
                0 <= l < n && #[trigger] in_piece(pieces[l], x, y) ==> {
                    &&& wrap_offset(x, start.x as int, w) == pieces[l].src_start.x + (x - pieces[l].dst_start.x)
                    &&& wrap_offset(y, start.y as int, h) == pieces[l].src_start.y + (y - pieces[l].dst_start.y)
                },
            canvas_cpu_chunks.chunks() == painted(first, nx, cw, ch, restrict(full, |x: int, y: int| in_first_pieces(pieces, k as int, x, y))),
            grows(first_rects, canvas_dirty_rects.rects()),
            within(first_rects, cw, ch) ==> within(canvas_dirty_rects.rects(), cw, ch),
            covers_paint(canvas_dirty_rects.rects(), nx, ny, cw, ch, restrict(full, |x: int, y: int| in_first_pieces(pieces, k as int, x, y))),
            n == torus_pieces(start, size, canvas_size).len(),
            forall|l: int| 0 <= l < n ==> #[trigger] pieces[l] == torus_pieces(start, size, canvas_size)[l],
            canvas_dirty_rects.rects() == mark_pieces(first_rects, torus_pieces(start, size, canvas_size).take(k as int), nx, cw, ch),
        decreases n - k,
    {
        let sub_rect = sub_rects[k];
        let ghost mid_rects = canvas_dirty_rects.rects();
        proof {
            assert(pieces[k as int].size.x > 0);
        }
        blit_subrect_into_chunks(canvas_cpu_chunks, canvas_dirty_rects, size, src_u32, sub_rect, chunk_size);
        proof {
            let prev = restrict(full, |x: int, y: int| in_first_pieces(pieces, k as int, x, y));
            let next = restrict(full, |x: int, y: int| in_first_pieces(pieces, k + 1, x, y));
            let sp = subrect_paint(sub_rect, size, src_u32@);
            lemma_painted_compose(first, nx, cw, ch, prev, sp);
            assert forall|x: int, y: int| 0 <= x < nx * cw && 0 <= y < ny * ch implies
                #[trigger] overlay(prev, sp)(x, y) == next(x, y) by {
                if in_piece(pieces[k as int], x, y) {
                    assert(in_first_pieces(pieces, k + 1, x, y));
                } else {
                    assert(in_first_pieces(pieces, k + 1, x, y) == in_first_pieces(pieces, k as int, x, y));
                }
            }
            lemma_painted_ext(first, nx, ny, cw, ch, overlay(prev, sp), next);
            lemma_grows_trans(first_rects, mid_rects, canvas_dirty_rects.rects());
            let tp = torus_pieces(start, size, canvas_size);
            assert(tp.take(k + 1).drop_last() =~= tp.take(k as int));
            let rs = canvas_dirty_rects.rects();
            assert forall|x: int, y: int|
                0 <= x < nx * cw && 0 <= y < ny * ch && (#[trigger] next(x, y)) is Some implies rect_covers(
                    rs[chunk_of(x, y, nx, cw, ch)],
                    x % cw,
                    y % ch,
                ) by {
                if in_piece(pieces[k as int], x, y) {
                    assert(sp(x, y) is Some);
                } else {
                    assert(in_first_pieces(pieces, k + 1, x, y) == in_first_pieces(pieces, k as int, x, y));
                    assert(prev(x, y) is Some);
                    lemma_pixel_to_chunk(x, y, nx, ny, cw, ch);
                    assert(rect_covers(mid_rects[chunk_of(x, y, nx, cw, ch)], x % cw, y % ch));
                }
            }
        }
        k = k + 1;
    }
    proof {
        let done = restrict(full, |x: int, y: int| in_first_pieces(pieces, k as int, x, y));
        assert forall|x: int, y: int| 0 <= x < nx * cw && 0 <= y < ny * ch implies #[trigger] done(x, y) == full(x, y) by {
            if full(x, y) is Some {
                let l = choose|l: int| 0 <= l < n && #[trigger] in_piece(pieces[l], x, y);
                assert(in_piece(pieces[l], x, y));
            }
        }
        lemma_painted_ext(first, nx, ny, cw, ch, done, full);
        lemma_covers_ext(canvas_dirty_rects.rects(), nx, ny, cw, ch, done, full);
        let tp = torus_pieces(start, size, canvas_size);
        assert(tp.take(k as int) =~= tp);
    }
}

/// Paints the single pixel `(x0, y0)` with `v`.
pub open spec fn single_paint(x0: int, y0: int, v: u32) -> spec_fn(int, int) -> Option<u32> {
    |x: int, y: int|
        if x == x0 && y == y0 {
            Some(v)
        } else {
            None
        }
}

/// Row-major position on a `w * h` canvas where `start`, wrapped, lies.
pub open spec fn span_origin(start: UVec2, w: int, h: int) -> int {
    ((start.y as int) % h) * w + (start.x as int) % w
}

/// Paints `src[0..k]` one pixel after the other in row-major order from
/// `start` on, wrapping from the end of a row to the start of the next and
/// from the last row to the first; a later pixel overwrites an earlier one.
pub open spec fn span_paint(start: UVec2, src: Seq<u32>, w: int, h: int, k: int) -> spec_fn(
    int,
    int,
) -> Option<u32>
    decreases k,
{
    if k <= 0 {
        no_paint()
    } else {
        let l = (span_origin(start, w, h) + k - 1) % (w * h);
        overlay(span_paint(start, src, w, h, k - 1), single_paint(l % w, l / w, src[k - 1]))
    }
}

/// Painting `t` more span pixels from a cursor at `(cx, cy)` is painting the
/// run of `t` pixels from the cursor, as long as the run stays in the row.
proof fn lemma_span_extend(
    start: UVec2,
    src: Seq<u32>,
    w: int,
    h: int,
    k: int,
    cx: int,
    cy: int,
    t: int,
)
    requires
        w > 0,
        h > 0,
        0 <= k,
        0 <= t,
        0 <= cx,
        cx + t <= w,
        0 <= cy < h,
        cy * w + cx == (span_origin(start, w, h) + k) % (w * h),
    ensures
        forall|x: int, y: int| #[trigger] span_paint(start, src, w, h, k + t)(x, y) == overlay(
            span_paint(start, src, w, h, k),
            run_paint(cx, cy, src, k, t),
        )(x, y),
    decreases t,
{
    if t > 0 {
        lemma_span_extend(start, src, w, h, k, cx, cy, t - 1);
        let n = w * h;
        let o = span_origin(start, w, h);
        let l = (o + k + t - 1) % n;
        assert(n > 0) by (nonlinear_arith) requires w > 0, h > 0, n == w * h;
        assert(cy * w + cx + t - 1 < n) by (nonlinear_arith)
            requires cy < h, cx + t - 1 < w, n == w * h, w > 0;
        assert(cy * w + cx >= 0) by (nonlinear_arith) requires cy >= 0, cx >= 0, w > 0;
        vstd::arithmetic::div_mod::lemma_add_mod_noop(o + k, t - 1, n);
        vstd::arithmetic::div_mod::lemma_small_mod((t - 1) as nat, n as nat);
        vstd::arithmetic::div_mod::lemma_small_mod((cy * w + cx + t - 1) as nat, n as nat);
        assert(l == cy * w + cx + t - 1);
        vstd::arithmetic::div_mod::lemma_fundamental_div_mod_converse(l, w, cy, cx + t - 1);
        assert(k + t - 1 == (k + t) - 1);
        assert forall|x: int, y: int| #[trigger] span_paint(start, src, w, h, k + t)(x, y) == overlay(
            span_paint(start, src, w, h, k),
            run_paint(cx, cy, src, k, t),
        )(x, y) by {
            assert(span_paint(start, src, w, h, k + (t - 1))(x, y) == overlay(
                span_paint(start, src, w, h, k),
                run_paint(cx, cy, src, k, t - 1),
            )(x, y));
        }
    } else {
        assert forall|x: int, y: int| #[trigger] span_paint(start, src, w, h, k + t)(x, y) == overlay(
            span_paint(start, src, w, h, k),
            run_paint(cx, cy, src, k, t),
        )(x, y) by {}
    }
}

/// `rects` after marking the first `k` span pixels dirty one by one.
pub open spec fn span_marks(
    rects: Seq<DirtyRect>,
    start: UVec2,
    w: int,
    h: int,
    nx: int,
    cw: int,
    ch: int,
    k: int,
) -> Seq<DirtyRect>
    decreases k,
{
    if k <= 0 {
        rects
    } else {
        let l = (span_origin(start, w, h) + k - 1) % (w * h);
        pixel_mark(
            span_marks(rects, start, w, h, nx, cw, ch, k - 1),
            UVec2 { x: (l % w) as u32, y: (l / w) as u32 },
            w,
            h,
            nx,
            cw,
            ch,
        )
    }
}

/// Marking span pixels keeps one rect per chunk.
proof fn lemma_span_marks_len(
    rects: Seq<DirtyRect>,
    start: UVec2,
    nx: int,
    ny: int,
    cw: int,
    ch: int,
    k: int,
)
    requires
        nx > 0,
        ny > 0,
        cw > 0,
        ch > 0,
        rects.len() == nx * ny,
    ensures
        span_marks(rects, start, nx * cw, ny * ch, nx, cw, ch, k).len() == rects.len(),
    decreases k,
{
    if k > 0 {
        lemma_span_marks_len(rects, start, nx, ny, cw, ch, k - 1);
        let w = nx * cw;
        let h = ny * ch;
        let l = (span_origin(start, w, h) + k - 1) % (w * h);
        let pos = UVec2 { x: (l % w) as u32, y: (l / w) as u32 };
        assert(w > 0 && h > 0) by (nonlinear_arith) requires nx > 0, ny > 0, cw > 0, ch > 0, w == nx * cw, h == ny * ch;
        vstd::arithmetic::div_mod::lemma_mod_pos_bound(pos.x as int, w);
        vstd::arithmetic::div_mod::lemma_mod_pos_bound(pos.y as int, h);
        lemma_pixel_to_chunk((pos.x as int) % w, (pos.y as int) % h, nx, ny, cw, ch);
    }
}

/// Marking `t` more span pixels one by one from a cursor at `(cx, cy)` in
/// chunk `(kx, ky)` marks the one-row run from the cursor, as long as the run
/// stays in the chunk.
proof fn lemma_span_marks_extend(
    rects: Seq<DirtyRect>,
    start: UVec2,
    nx: int,
    ny: int,
    cw: int,
    ch: int,
    k: int,
    cx: int,
    cy: int,
    kx: int,
    ky: int,
    t: int,
)
    requires
        nx > 0,
        ny > 0,
        0 < cw <= u32::MAX,
        0 < ch <= u32::MAX,
        rects.len() == nx * ny,
        nx * cw <= u32::MAX,
        ny * ch <= u32::MAX,
        0 <= k,
        0 <= t,
        0 <= kx < nx,
        0 <= ky < ny,
        kx * cw <= cx,
        cx + t <= kx * cw + cw,
        ky * ch <= cy < ky * ch + ch,
        cy * (nx * cw) + cx == (span_origin(start, nx * cw, ny * ch) + k) % ((nx * cw) * (ny * ch)),
    ensures
        span_marks(rects, start, nx * cw, ny * ch, nx, cw, ch, k + t) == marked(
            span_marks(rects, start, nx * cw, ny * ch, nx, cw, ch, k),
            ky * nx + kx,
            UVec2 { x: (cx - kx * cw) as u32, y: (cy - ky * ch) as u32 },
            UVec2 { x: t as u32, y: 1 },
        ),
    decreases t,
{
    let w = nx * cw;
    let h = ny * ch;
    let base = span_marks(rects, start, w, h, nx, cw, ch, k);
    let ki = ky * nx + kx;
    let lx = cx - kx * cw;
    let ly = cy - ky * ch;
    if t > 0 {
        lemma_span_marks_extend(rects, start, nx, ny, cw, ch, k, cx, cy, kx, ky, t - 1);
        lemma_span_marks_len(rects, start, nx, ny, cw, ch, k);
        let n = w * h;
        let o = span_origin(start, w, h);
        let l = (o + k + t - 1) % n;
        assert(w > 0 && h > 0) by (nonlinear_arith) requires nx > 0, ny > 0, cw > 0, ch > 0, w == nx * cw, h == ny * ch;
        assert(n > 0) by (nonlinear_arith) requires w > 0, h > 0, n == w * h;
        assert(cx + t - 1 < w) by (nonlinear_arith) requires cx + t <= kx * cw + cw, kx < nx, w == nx * cw, cw > 0;
        assert(cy < h) by (nonlinear_arith) requires cy < ky * ch + ch, ky < ny, h == ny * ch, ch > 0;
        assert(0 <= kx * cw && 0 <= ky * ch) by (nonlinear_arith) requires kx >= 0, ky >= 0, cw > 0, ch > 0;
        assert(cy * w + cx + t - 1 < n) by (nonlinear_arith)
            requires cy < h, cx + t - 1 < w, n == w * h, w > 0;
        assert(cy * w + cx >= 0) by (nonlinear_arith) requires cy >= 0, cx >= 0, w > 0;
        vstd::arithmetic::div_mod::lemma_add_mod_noop(o + k, t - 1, n);
        vstd::arithmetic::div_mod::lemma_small_mod((t - 1) as nat, n as nat);
        vstd::arithmetic::div_mod::lemma_small_mod((cy * w + cx + t - 1) as nat, n as nat);
        assert(l == cy * w + cx + t - 1);
        vstd::arithmetic::div_mod::lemma_fundamental_div_mod_converse(l, w, cy, cx + t - 1);
        let x = cx + t - 1;
        vstd::arithmetic::div_mod::lemma_small_mod(x as nat, w as nat);
        vstd::arithmetic::div_mod::lemma_small_mod(cy as nat, h as nat);
        lemma_in_chunk(x, cy, kx, ky, nx, ny, cw, ch);
        assert(ki < nx * ny) by (nonlinear_arith) requires ki == ky * nx + kx, 0 <= kx < nx, 0 <= ky < ny;
        assert(0 <= ki) by (nonlinear_arith) requires ki == ky * nx + kx, kx >= 0, ky >= 0, nx > 0;
        assert(k + t - 1 == k + (t - 1));
        let pos = UVec2 { x: (l % w) as u32, y: (l / w) as u32 };
        assert(pos.x == x && pos.y == cy);
        assert((pos.x as int) % w == x);
        assert((pos.y as int) % h == cy);
        assert(x % cw == lx + t - 1);
        assert(cy % ch == ly);
        let prev = span_marks(rects, start, w, h, nx, cw, ch, k + (t - 1));
        assert(prev == marked(base, ki, UVec2 { x: lx as u32, y: ly as u32 }, UVec2 { x: (t - 1) as u32, y: 1 }));
        let pmin = UVec2 { x: lx as u32, y: ly as u32 };
        let last = UVec2 { x: (lx + t - 1) as u32, y: ly as u32 };
        assert(span_marks(rects, start, w, h, nx, cw, ch, k + t) == marked(prev, ki, last, UVec2 { x: 1, y: 1 }));
        if t > 1 {
            let mid_max = UVec2 { x: (lx + t - 2) as u32, y: ly as u32 };
            assert(prev == base.update(ki, merge_rect(base[ki], pmin, mid_max)));
            assert(marked(prev, ki, last, UVec2 { x: 1, y: 1 }) == prev.update(ki, merge_rect(prev[ki], last, last)));
            assert(marked(base, ki, pmin, UVec2 { x: t as u32, y: 1 }) == base.update(
                ki,
                merge_rect(base[ki], pmin, last),
            ));
            lemma_merge_twice(
                base[ki],
                pmin,
                UVec2 { x: (lx + t - 2) as u32, y: ly as u32 },
                last,
                last,
            );
            assert(UVec2 { x: min_u32(pmin.x, last.x), y: min_u32(pmin.y, last.y) } == pmin);
            assert(UVec2 { x: max_u32(mid_max.x, last.x), y: max_u32(mid_max.y, last.y) } == last);
            assert(merge_rect(prev[ki], last, last) == merge_rect(base[ki], pmin, last));
            assert(marked(prev, ki, last, UVec2 { x: 1, y: 1 }) =~= marked(
                base,
                ki,
                pmin,
                UVec2 { x: t as u32, y: 1 },
            ));
        }
    }
}

/// Writes `src_u32` pixel after pixel in row-major order from `start` on,
/// wrapping around the canvas, and marks what it wrote dirty.
#[inline]
pub fn blit_span_row_major(
    cpu: &mut CanvasCpuChunks,
    dirty: &mut CanvasDirtyRects,
    canvas_size: UVec2,
    chunk_size: UVec2,
    start: UVec2,
    src_u32: &[u32],
)
    requires
        canvas_matches(*old(cpu), *old(dirty), canvas_size, chunk_size),
    ensures
        canvas_matches(*final(cpu), *final(dirty), canvas_size, chunk_size),
        final(cpu).spec_num_chunks() == old(cpu).spec_num_chunks(),
        final(cpu).chunks() == painted(
            old(cpu).chunks(),
            old(cpu).nx(),
            old(cpu).cw(),
            old(cpu).ch(),
            span_paint(start, src_u32@, canvas_size.x as int, canvas_size.y as int, src_u32@.len() as int),
        ),
        grows(old(dirty).rects(), final(dirty).rects()),
        within(old(dirty).rects(), chunk_size.x as int, chunk_size.y as int) ==> within(
            final(dirty).rects(),
            chunk_size.x as int,
            chunk_size.y as int,
        ),
        covers_paint(
            final(dirty).rects(),
            old(cpu).nx(),
            old(cpu).ny(),
            old(cpu).cw(),
            old(cpu).ch(),
            span_paint(start, src_u32@, canvas_size.x as int, canvas_size.y as int, src_u32@.len() as int),
        ),
        final(dirty).rects() == span_marks(
            old(dirty).rects(),
            start,
            canvas_size.x as int,
            canvas_size.y as int,
            old(cpu).nx(),
            old(cpu).cw(),
            old(cpu).ch(),
            src_u32@.len() as int,
        ),
{
    let ghost nx = cpu.nx();
    let ghost ny = cpu.ny();
    let ghost cw = cpu.cw();
    let ghost ch = cpu.ch();
    let ghost first = cpu.chunks();
    let ghost first_rects = dirty.rects();
    let ghost w = canvas_size.x as int;
    let ghost h = canvas_size.y as int;
    proof {
        lemma_canvas_matches(*cpu, *dirty, canvas_size, chunk_size);
        lemma_painted_nothing(first, nx, cw, ch);
        assert forall|x: int, y: int| 0 <= x < nx * cw && 0 <= y < ny * ch implies #[trigger] no_paint()(x, y)
            == span_paint(start, src_u32@, w, h, 0)(x, y) by {}
        lemma_painted_ext(first, nx, ny, cw, ch, no_paint(), span_paint(start, src_u32@, w, h, 0));
    }

    if src_u32.len() == 0 {
        return;
    }

    // Cursor in wrapped canvas coords
    let mut cursor = UVec2 { x: start.x % canvas_size.x, y: start.y % canvas_size.y };
    proof {
        let n = w * h;
        assert(n > 0) by (nonlinear_arith) requires w > 0, h > 0, n == w * h;
        vstd::arithmetic::div_mod::lemma_mod_pos_bound(start.x as int, w);
        vstd::arithmetic::div_mod::lemma_mod_pos_bound(start.y as int, h);
        assert(cursor.y * w + cursor.x < n) by (nonlinear_arith)
            requires cursor.y < h, cursor.x < w, n == w * h, w > 0;
        assert(cursor.y * w + cursor.x >= 0) by (nonlinear_arith) requires cursor.y >= 0, cursor.x >= 0, w > 0;
        vstd::arithmetic::div_mod::lemma_small_mod((cursor.y * w + cursor.x) as nat, n as nat);
    }

    let mut src_index: usize = 0;
    let mut remaining = src_u32.len();

    while remaining > 0
        invariant
            canvas_matches(*cpu, *dirty, canvas_size, chunk_size),
            cpu.spec_num_chunks() == old(cpu).spec_num_chunks(),
            nx == cpu.nx(), ny == cpu.ny(), cw == cpu.cw(), ch == cpu.ch(),
            0 < nx <= 255, 0 < ny <= 255,
            w == nx * cw, h == ny * ch, w == canvas_size.x, h == canvas_size.y,
            w > 0, h > 0,
            first == old(cpu).chunks(),
            first_rects == old(dirty).rects(),
            shaped(first, nx, ny, cw, ch),
            src_index + remaining == src_u32@.len(),
            src_u32@.len() == src_u32.len(),
            cursor.x < w,
            cursor.y < h,
            cursor.y * w + cursor.x == (span_origin(start, w, h) + src_index) % (w * h),
            cpu.chunks() == painted(first, nx, cw, ch, span_paint(start, src_u32@, w, h, src_index as int)),
            grows(first_rects, dirty.rects()),
            within(first_rects, cw, ch) ==> within(dirty.rects(), cw, ch),
            covers_paint(dirty.rects(), nx, ny, cw, ch, span_paint(start, src_u32@, w, h, src_index as int)),
            first_rects.len() == nx * ny,
            dirty.rects() == span_marks(first_rects, start, w, h, nx, cw, ch, src_index as int),
        decreases remaining,
    {
        // Chunk coords and chunk-local coords
        let (chunk_key, local_xy) = locate(cursor, chunk_size, Ghost(nx), Ghost(ny));

        // Remaining pixels to end of canvas row and chunk row
        let until_canvas_row_end = (canvas_size.x - cursor.x) as usize;
        let until_chunk_row_end = (chunk_size.x - local_xy.x) as usize;

        let mut run = remaining;
        if until_canvas_row_end < run {
            run = until_canvas_row_end;
        }
        if until_chunk_row_end < run {
            run = until_chunk_row_end;
        }
        proof {
            vstd::arithmetic::div_mod::lemma_mod_pos_bound(cursor.x as int, cw);
            vstd::arithmetic::div_mod::lemma_mod_pos_bound(cursor.y as int, ch);
            assert(local_xy.y * cw + local_xy.x + run <= cw * ch) by (nonlinear_arith)
                requires local_xy.x + run <= cw, local_xy.y < ch, 0 <= local_xy.x, 0 <= local_xy.y;
        }

        // Write into chunk row-major storage (stride = chunk_size.x)
        let dst_stride = chunk_size.x as usize;
        let dst_index = (local_xy.y as usize) * dst_stride + (local_xy.x as usize);
        let ghost before = cpu.chunks();
        cpu.write_run(&chunk_key, dst_index, src_u32, src_index, run);
        proof {
            let k = src_index as int;
            lemma_painted_shaped(first, nx, ny, cw, ch, span_paint(start, src_u32@, w, h, k));
            lemma_run_painted(before, nx, ny, cw, ch, cursor.x as int, cursor.y as int, src_u32@, k, run as int);
            lemma_painted_compose(first, nx, cw, ch, span_paint(start, src_u32@, w, h, k), run_paint(cursor.x as int, cursor.y as int, src_u32@, k, run as int));
            lemma_span_extend(start, src_u32@, w, h, k, cursor.x as int, cursor.y as int, run as int);
            assert forall|x: int, y: int| 0 <= x < nx * cw && 0 <= y < ny * ch implies #[trigger] overlay(
                span_paint(start, src_u32@, w, h, k),
                run_paint(cursor.x as int, cursor.y as int, src_u32@, k, run as int),
            )(x, y) == span_paint(start, src_u32@, w, h, k + run)(x, y) by {}
            lemma_painted_ext(first, nx, ny, cw, ch, overlay(
                span_paint(start, src_u32@, w, h, k),
                run_paint(cursor.x as int, cursor.y as int, src_u32@, k, run as int),
            ), span_paint(start, src_u32@, w, h, k + run));
        }

        // Mark dirty: a 1-row-high span in chunk-local coords
        let ghost mid_rects = dirty.rects();
        dirty.mark_rect(&chunk_key, UVec2 { x: local_xy.x, y: local_xy.y }, UVec2 { x: run as u32, y: 1 });
        proof {
            let k = src_index as int;
            let ki = key_index(chunk_key, nx);
            lemma_mark_local(mid_rects, ki, local_xy, UVec2 { x: run as u32, y: 1 }, cw, ch);
            lemma_grows_trans(first_rects, mid_rects, dirty.rects());
            let kx = cursor.x / chunk_size.x;
            let ky = cursor.y / chunk_size.y;
            vstd::arithmetic::div_mod::lemma_fundamental_div_mod(cursor.x as int, cw);
            vstd::arithmetic::div_mod::lemma_fundamental_div_mod(cursor.y as int, ch);
            assert(kx * cw + local_xy.x == cursor.x) by (nonlinear_arith)
                requires cursor.x == cw * kx + local_xy.x;
            assert(ky * ch + local_xy.y == cursor.y) by (nonlinear_arith)
                requires cursor.y == ch * ky + local_xy.y;
            lemma_span_marks_extend(first_rects, start, nx, ny, cw, ch, k, cursor.x as int, cursor.y as int,
                kx as int, ky as int, run as int);
            let rs = dirty.rects();
            let prev = span_paint(start, src_u32@, w, h, k);
            let rp = run_paint(cursor.x as int, cursor.y as int, src_u32@, k, run as int);
            assert forall|x: int, y: int|
                0 <= x < nx * cw && 0 <= y < ny * ch && (#[trigger] overlay(prev, rp)(x, y)) is Some implies rect_covers(
                    rs[chunk_of(x, y, nx, cw, ch)],
                    x % cw,
                    y % ch,
                ) by {
                if rp(x, y) is Some {
                    let kx = cursor.x / chunk_size.x;
                    let ky = cursor.y / chunk_size.y;
                    vstd::arithmetic::div_mod::lemma_fundamental_div_mod(cursor.x as int, cw);
                    vstd::arithmetic::div_mod::lemma_fundamental_div_mod(cursor.y as int, ch);
                    assert(kx * cw + local_xy.x == cursor.x) by (nonlinear_arith)
                        requires cursor.x == cw * kx + local_xy.x;
                    assert(ky * ch + local_xy.y == cursor.y) by (nonlinear_arith)
                        requires cursor.y == ch * ky + local_xy.y;
                    lemma_in_chunk(x, y, kx as int, ky as int, nx, ny, cw, ch);
                } else {
                    assert(prev(x, y) is Some);
                    lemma_pixel_to_chunk(x, y, nx, ny, cw, ch);
                    assert(rect_covers(mid_rects[chunk_of(x, y, nx, cw, ch)], x % cw, y % ch));
                }
            }
            assert(covers_paint(rs, nx, ny, cw, ch, overlay(prev, rp)));
            lemma_covers_ext(rs, nx, ny, cw, ch, overlay(prev, rp), span_paint(start, src_u32@, w, h, k + run));
        }

        // Advance
        let ghost cx0 = cursor.x as int;
        let ghost cy0 = cursor.y as int;
        src_index = src_index + run;
        remaining = remaining - run;

        // Move cursor along the canvas in row-major order
        cursor.x = cursor.x + run as u32;
        if cursor.x == canvas_size.x {
            cursor.x = 0;
            cursor.y = cursor.y + 1;
            if cursor.y == canvas_size.y {
                cursor.y = 0;
            }
        }
        proof {
            let n = w * h;
            let o = span_origin(start, w, h);
            let k0 = src_index - run;
            let old_lin = cy0 * w + cx0;
            assert(n > 0) by (nonlinear_arith) requires w > 0, h > 0, n == w * h;
            assert(old_lin + run <= n) by (nonlinear_arith)
                requires old_lin == cy0 * w + cx0, cx0 + run <= w, 0 <= cy0 < h, n == w * h, w > 0;
            assert(old_lin >= 0) by (nonlinear_arith) requires old_lin == cy0 * w + cx0, cy0 >= 0, cx0 >= 0, w > 0;
            vstd::arithmetic::div_mod::lemma_add_mod_noop_right(run as int, o + k0, n);
            assert(run + (o + k0) == o + src_index);
            assert((o + src_index) % n == (old_lin + run) % n);
            if cx0 + run < w {
                assert(cursor.y * w + cursor.x == old_lin + run);
                assert(old_lin + run < n) by (nonlinear_arith)
                    requires old_lin == cy0 * w + cx0, cx0 + run < w, 0 <= cy0 < h, n == w * h, w > 0;
                vstd::arithmetic::div_mod::lemma_small_mod((old_lin + run) as nat, n as nat);
            } else if cy0 + 1 < h {
                assert(cursor.y * w + cursor.x == old_lin + run) by (nonlinear_arith)
                    requires cursor.y == cy0 + 1, cursor.x == 0, cx0 + run == w, old_lin == cy0 * w + cx0;
                assert(old_lin + run < n) by (nonlinear_arith)
                    requires old_lin + run == (cy0 + 1) * w, cy0 + 1 < h, n == w * h, w > 0;
                vstd::arithmetic::div_mod::lemma_small_mod((old_lin + run) as nat, n as nat);
            } else {
                assert(old_lin + run == n) by (nonlinear_arith)
                    requires old_lin == cy0 * w + cx0, cx0 + run == w, cy0 + 1 == h, n == w * h;
                vstd::arithmetic::div_mod::lemma_mod_self_0(n);
                assert(cursor.y * w + cursor.x == 0);
            }
        }
    }
}

/// A span no longer than the canvas puts each of its pixels where it belongs:
/// pixel `k` lands `k` places after the wrapped start, row by row, and no later
/// pixel overwrites it.
pub proof fn lemma_span_pixel(start: UVec2, src: Seq<u32>, w: int, h: int, n: int, k: int)
    requires
        w > 0,
        h > 0,
        0 <= k < n <= w * h,
    ensures
        ({
            let l = (span_origin(start, w, h) + k) % (w * h);
            span_paint(start, src, w, h, n)(l % w, l / w) == Some(src[k])
        }),
    decreases n,
{
    let nn = w * h;
    let o = span_origin(start, w, h);
    let l = (o + k) % nn;
    if n > k + 1 {
        lemma_span_pixel(start, src, w, h, n - 1, k);
        let l2 = (o + n - 1) % nn;
        assert(nn > 0) by (nonlinear_arith) requires w > 0, h > 0, nn == w * h;
        vstd::arithmetic::div_mod::lemma_mod_bound(o + k, nn);
        vstd::arithmetic::div_mod::lemma_mod_bound(o + n - 1, nn);
        // Two positions fewer than a full canvas apart are different.
        assert(l != l2) by {
            vstd::arithmetic::div_mod::lemma_fundamental_div_mod(o + k, nn);
            vstd::arithmetic::div_mod::lemma_fundamental_div_mod(o + n - 1, nn);
            let qa = (o + k) / nn;
            let qb = (o + n - 1) / nn;
            if l == l2 {
                assert(n - 1 - k == nn * (qb - qa)) by (nonlinear_arith)
                    requires o + k == nn * qa + l, o + n - 1 == nn * qb + l2, l == l2;
                assert(false) by (nonlinear_arith)
                    requires n - 1 - k == nn * (qb - qa), 0 < n - 1 - k < nn;
            }
        }
        vstd::arithmetic::div_mod::lemma_fundamental_div_mod(l, w);
        vstd::arithmetic::div_mod::lemma_fundamental_div_mod(l2, w);
        assert(l % w != l2 % w || l / w != l2 / w) by {
            if l % w == l2 % w && l / w == l2 / w {
                assert(l == l2) by (nonlinear_arith)
                    requires l == w * (l / w) + l % w, l2 == w * (l2 / w) + l2 % w,
                        l % w == l2 % w, l / w == l2 / w;
            }
        }
    }
}

} // verus!
