use vstd::prelude::*;

use crate::blit::{
    blit_pixel, blit_rect_torus_into_chunks, blit_span_row_major, canvas_matches, lemma_canvas_matches, mark_pieces,
    pixel_mark, pixel_paint, rect_paint, span_marks, span_paint,
};
use crate::chunks::CanvasCpuChunks;
use crate::layout::{chunk_of, lemma_pixel_to_chunk, offset_of};
use crate::config::{lemma_chunks_tile_canvas, CanvasConfig};
use crate::dirty::{
    rect_covers, covers_paint, grows, lemma_covers_grows, lemma_covers_overlay, lemma_grows_trans, within,
    CanvasDirtyRects,
};
use crate::messages::{DrawPixel, DrawRect, DrawSpan};
use crate::paint::{
    lemma_painted_compose, lemma_painted_nothing, lemma_painted_pixel, lemma_painted_shaped, no_paint, overlay, painted,
    shaped,
};
use crate::torus::torus_pieces;
use crate::types::{DirtyRect, UVec2};
use crate::upload::{
    block_rows, build_upload_ops, byte_of, clean, little_endian, lemma_block_rows_index, machine_bytes,
    lemma_plan_covers_rect, lemma_plan_inside_chunk, lemma_planned_contains, lemma_within_plan_fits,
    lemma_word_bytes, op_matches, ops_follow_plan, planned, upload_plan, CanvasImageHandles, CanvasUploadOp,
    CanvasUploadOps,
};

verus! {

/// `base`, then the first `k` pixel messages painted over it in order.
pub open spec fn paint_pixels(
    base: spec_fn(int, int) -> Option<u32>,
    msgs: Seq<DrawPixel>,
    w: int,
    h: int,
    k: int,
) -> spec_fn(int, int) -> Option<u32>
    decreases k,
{
    if k <= 0 {
        base
    } else {
        overlay(
            paint_pixels(base, msgs, w, h, k - 1),
            pixel_paint(msgs[k - 1].pos, msgs[k - 1].rgba_u32, w, h),
        )
    }
}

/// A rect message is drawn when it is not empty and brings one pixel per cell.
pub open spec fn rect_drawn(r: DrawRect) -> bool {
    r.size.x != 0 && r.size.y != 0 && r.rgba_u32@.len() == r.size.x * r.size.y
}

/// `base`, then those of the first `k` rect messages that are drawn, painted
/// over it in order.
pub open spec fn paint_rects(
    base: spec_fn(int, int) -> Option<u32>,
    msgs: Seq<DrawRect>,
    w: int,
    h: int,
    k: int,
) -> spec_fn(int, int) -> Option<u32>
    decreases k,
{
    if k <= 0 {
        base
    } else if rect_drawn(msgs[k - 1]) {
        overlay(
            paint_rects(base, msgs, w, h, k - 1),
            rect_paint(msgs[k - 1].start, msgs[k - 1].size, msgs[k - 1].rgba_u32@, w, h),
        )
    } else {
        paint_rects(base, msgs, w, h, k - 1)
    }
}

/// `base`, then the first `k` span messages painted over it in order.
pub open spec fn paint_spans(
    base: spec_fn(int, int) -> Option<u32>,
    msgs: Seq<DrawSpan>,
    w: int,
    h: int,
    k: int,
) -> spec_fn(int, int) -> Option<u32>
    decreases k,
{
    if k <= 0 {
        base
    } else {
        overlay(
            paint_spans(base, msgs, w, h, k - 1),
            span_paint(
                msgs[k - 1].start,
                msgs[k - 1].rgba_u32@,
                w,
                h,
                msgs[k - 1].rgba_u32@.len() as int,
            ),
        )
    }
}

/// What one round of drawing paints: all pixels, then all rects, then all spans,
/// each in the order given.
pub open spec fn draw_paint(
    pixels: Seq<DrawPixel>,
    rects: Seq<DrawRect>,
    spans: Seq<DrawSpan>,
    w: int,
    h: int,
) -> spec_fn(int, int) -> Option<u32> {
    paint_spans(
        paint_rects(
            paint_pixels(no_paint(), pixels, w, h, pixels.len() as int),
            rects,
            w,
            h,
            rects.len() as int,
        ),
        spans,
        w,
        h,
        spans.len() as int,
    )
}

/// `rects` after the first `k` pixel messages are marked dirty in order.
pub open spec fn mark_pixels(
    rects: Seq<DirtyRect>,
    msgs: Seq<DrawPixel>,
    canvas_size: UVec2,
    nx: int,
    cw: int,
    ch: int,
    k: int,
) -> Seq<DirtyRect>
    decreases k,
{
    if k <= 0 {
        rects
    } else {
        pixel_mark(
            mark_pixels(rects, msgs, canvas_size, nx, cw, ch, k - 1),
            msgs[k - 1].pos,
            canvas_size.x as int,
            canvas_size.y as int,
            nx,
            cw,
            ch,
        )
    }
}

/// `rects` after those of the first `k` rect messages that are drawn are
/// marked dirty in order.
pub open spec fn mark_rects(
    rects: Seq<DirtyRect>,
    msgs: Seq<DrawRect>,
    canvas_size: UVec2,
    nx: int,
    cw: int,
    ch: int,
    k: int,
) -> Seq<DirtyRect>
    decreases k,
{
    if k <= 0 {
        rects
    } else if rect_drawn(msgs[k - 1]) {
        mark_pieces(
            mark_rects(rects, msgs, canvas_size, nx, cw, ch, k - 1),
            torus_pieces(msgs[k - 1].start, msgs[k - 1].size, canvas_size),
            nx,
            cw,
            ch,
        )
    } else {
        mark_rects(rects, msgs, canvas_size, nx, cw, ch, k - 1)
    }
}

/// `rects` after the first `k` span messages are marked dirty in order.
pub open spec fn mark_spans(
    rects: Seq<DirtyRect>,
    msgs: Seq<DrawSpan>,
    canvas_size: UVec2,
    nx: int,
    cw: int,
    ch: int,
    k: int,
) -> Seq<DirtyRect>
    decreases k,
{
    if k <= 0 {
        rects
    } else {
        span_marks(
            mark_spans(rects, msgs, canvas_size, nx, cw, ch, k - 1),
            msgs[k - 1].start,
            canvas_size.x as int,
            canvas_size.y as int,
            nx,
            cw,
            ch,
            msgs[k - 1].rgba_u32@.len() as int,
        )
    }
}

/// The dirty rects after one round of drawing: all pixels, then all rects,
/// then all spans, each in the order given.
pub open spec fn draw_marks(
    rects: Seq<DirtyRect>,
    pixels: Seq<DrawPixel>,
    rect_msgs: Seq<DrawRect>,
    spans: Seq<DrawSpan>,
    canvas_size: UVec2,
    nx: int,
    cw: int,
    ch: int,
) -> Seq<DirtyRect> {
    mark_spans(
        mark_rects(
            mark_pixels(rects, pixels, canvas_size, nx, cw, ch, pixels.len() as int),
            rect_msgs,
            canvas_size,
            nx,
            cw,
            ch,
            rect_msgs.len() as int,
        ),
        spans,
        canvas_size,
        nx,
        cw,
        ch,
        spans.len() as int,
    )
}

/// The canvas state `cpu`/`dirty` was made for `config`.
pub open spec fn built_for(config: CanvasConfig, cpu: CanvasCpuChunks, dirty: CanvasDirtyRects) -> bool {
    &&& config.is_valid()
    &&& cpu.wf()
    &&& dirty.wf()
    &&& cpu.spec_num_chunks() == config.num_chunks
    &&& dirty.spec_num_chunks() == config.num_chunks
    &&& cpu.spec_chunk_size() == config.spec_chunk_size()
}

/// One drawing step: painting `g` over the chunks painted with `f` so far, and
/// marking `g` dirty, keeps the chunks and the dirty rects in step.
proof fn lemma_draw_step(
    first: Seq<Seq<u32>>,
    first_rects: Seq<DirtyRect>,
    mid: Seq<DirtyRect>,
    next: Seq<DirtyRect>,
    nx: int,
    ny: int,
    cw: int,
    ch: int,
    f: spec_fn(int, int) -> Option<u32>,
    g: spec_fn(int, int) -> Option<u32>,
)
    requires
        nx > 0, ny > 0, cw > 0, ch > 0,
        mid.len() == nx * ny,
        grows(first_rects, mid),
        covers_paint(mid, nx, ny, cw, ch, f),
        grows(mid, next),
        covers_paint(next, nx, ny, cw, ch, g),
    ensures
        grows(first_rects, next),
        covers_paint(next, nx, ny, cw, ch, overlay(f, g)),
        painted(painted(first, nx, cw, ch, f), nx, cw, ch, g) == painted(first, nx, cw, ch, overlay(f, g)),
{
    lemma_grows_trans(first_rects, mid, next);
    lemma_covers_grows(mid, next, nx, ny, cw, ch, f);
    lemma_covers_overlay(next, nx, ny, cw, ch, f, g);
    lemma_painted_compose(first, nx, cw, ch, f, g);
}

/// Applies one round of draw messages to the canvas (pixels, then rects, then
/// spans), then turns what became dirty into upload ops. Rect messages that are
/// empty or whose pixel count does not match their size are skipped.
pub fn collect_ops<H: Clone>(
    config: &CanvasConfig,
    draw_pixels: &[DrawPixel],
    draw_rects: &[DrawRect],
    draw_spans: &[DrawSpan],
    canvas_image_handles: &CanvasImageHandles<H>,
    canvas_cpu_chunks: &mut CanvasCpuChunks,
    canvas_dirty_rects: &mut CanvasDirtyRects,
    canvas_upload_ops: &mut CanvasUploadOps<H>,
)
    requires
        built_for(*config, *old(canvas_cpu_chunks), *old(canvas_dirty_rects)),
        canvas_image_handles.handles().len() == old(canvas_cpu_chunks).chunks().len(),
        old(canvas_cpu_chunks).cw() + 64 <= u32::MAX,
        4 * old(canvas_cpu_chunks).cw() <= u32::MAX,
        4 * old(canvas_cpu_chunks).cw() * old(canvas_cpu_chunks).ch() <= usize::MAX,
        forall|i: int|
            0 <= i < draw_rects@.len() && (#[trigger] draw_rects@[i]).size.x != 0 && draw_rects@[i].size.y != 0
                ==> draw_rects@[i].size.x * draw_rects@[i].size.y <= u32::MAX,
        forall|i: int|
            0 <= i < draw_rects@.len() && rect_drawn(#[trigger] draw_rects@[i]) ==> {
                &&& draw_rects@[i].size.x <= config.canvas_size.0
                &&& draw_rects@[i].size.y <= config.canvas_size.1
            },
    ensures
        built_for(*config, *final(canvas_cpu_chunks), *final(canvas_dirty_rects)),
        final(canvas_cpu_chunks).chunks() == painted(
            old(canvas_cpu_chunks).chunks(),
            old(canvas_cpu_chunks).nx(),
            old(canvas_cpu_chunks).cw(),
            old(canvas_cpu_chunks).ch(),
            draw_paint(
                draw_pixels@,
                draw_rects@,
                draw_spans@,
                config.canvas_size.0 as int,
                config.canvas_size.1 as int,
            ),
        ),
        ({
            let marked_rects = draw_marks(
                old(canvas_dirty_rects).rects(),
                draw_pixels@,
                draw_rects@,
                draw_spans@,
                UVec2 { x: config.canvas_size.0, y: config.canvas_size.1 },
                old(canvas_cpu_chunks).nx(),
                old(canvas_cpu_chunks).cw(),
                old(canvas_cpu_chunks).ch(),
            );
            {
                &&& grows(old(canvas_dirty_rects).rects(), marked_rects)
                &&& within(old(canvas_dirty_rects).rects(), old(canvas_cpu_chunks).cw(), old(canvas_cpu_chunks).ch())
                    ==> within(marked_rects, old(canvas_cpu_chunks).cw(), old(canvas_cpu_chunks).ch())
                &&& covers_paint(
                    marked_rects,
                    old(canvas_cpu_chunks).nx(),
                    old(canvas_cpu_chunks).ny(),
                    old(canvas_cpu_chunks).cw(),
                    old(canvas_cpu_chunks).ch(),
                    draw_paint(
                        draw_pixels@,
                        draw_rects@,
                        draw_spans@,
                        config.canvas_size.0 as int,
                        config.canvas_size.1 as int,
                    ),
                )
                &&& final(canvas_dirty_rects).rects() == marked_rects.map_values(|r: DirtyRect| clean(r))
                &&& ops_follow_plan(
                    final(canvas_upload_ops).ops@,
                    planned(
                        marked_rects,
                        old(canvas_cpu_chunks).cw(),
                        old(canvas_cpu_chunks).ch(),
                        marked_rects.len() as int,
                    ),
                    canvas_image_handles.handles(),
                    final(canvas_cpu_chunks).chunks(),
                    old(canvas_cpu_chunks).cw(),
                )
            }
        }),
        old(canvas_cpu_chunks).cw() % 64 == 0 ==> forall|i: int|
            0 <= i < final(canvas_upload_ops).ops@.len() ==> (#[trigger] final(canvas_upload_ops).ops@[i]).bytes_per_row
                % 256 == 0,
{
    let ghost nx = canvas_cpu_chunks.nx();
    let ghost ny = canvas_cpu_chunks.ny();
    let ghost cw = canvas_cpu_chunks.cw();
    let ghost ch = canvas_cpu_chunks.ch();
    let ghost first = canvas_cpu_chunks.chunks();
    let ghost first_rects = canvas_dirty_rects.rects();
    let (canvas_w, canvas_h) = config.canvas_size();
    let canvas_size = UVec2 { x: canvas_w, y: canvas_h };
    let (chunk_w, chunk_h) = config.chunk_size();
    let chunk_size = UVec2 { x: chunk_w, y: chunk_h };
    let ghost w = canvas_w as int;
    let ghost h = canvas_h as int;
    proof {
        lemma_chunks_tile_canvas(*config);
        assert(canvas_w == nx * cw) by (nonlinear_arith) requires cw * nx == canvas_w;
        assert(canvas_h == ny * ch) by (nonlinear_arith) requires ch * ny == canvas_h;
        assert(canvas_matches(*canvas_cpu_chunks, *canvas_dirty_rects, canvas_size, chunk_size));
        lemma_canvas_matches(*canvas_cpu_chunks, *canvas_dirty_rects, canvas_size, chunk_size);
        lemma_painted_nothing(first, nx, cw, ch);
        assert(covers_paint(first_rects, nx, ny, cw, ch, no_paint()));
    }

    // Pixels
    let mut i: usize = 0;
    while i < draw_pixels.len()
        invariant
            canvas_matches(*canvas_cpu_chunks, *canvas_dirty_rects, canvas_size, chunk_size),
            canvas_cpu_chunks.spec_num_chunks() == old(canvas_cpu_chunks).spec_num_chunks(),
            nx == canvas_cpu_chunks.nx(), ny == canvas_cpu_chunks.ny(),
            cw == canvas_cpu_chunks.cw(), ch == canvas_cpu_chunks.ch(),
            chunk_size.x == cw, chunk_size.y == ch,
            w == canvas_size.x, h == canvas_size.y,
            first == old(canvas_cpu_chunks).chunks(),
            first_rects == old(canvas_dirty_rects).rects(),
            i <= draw_pixels@.len(),
            canvas_cpu_chunks.chunks() == painted(first, nx, cw, ch, paint_pixels(no_paint(), draw_pixels@, w, h, i as int)),
            grows(first_rects, canvas_dirty_rects.rects()),
            within(first_rects, cw, ch) ==> within(canvas_dirty_rects.rects(), cw, ch),
            covers_paint(canvas_dirty_rects.rects(), nx, ny, cw, ch, paint_pixels(no_paint(), draw_pixels@, w, h, i as int)),
            canvas_dirty_rects.rects() == mark_pixels(first_rects, draw_pixels@, canvas_size, nx, cw, ch, i as int),
        decreases draw_pixels@.len() - i,
    {
        let msg = draw_pixels[i];
        let ghost mid = canvas_dirty_rects.rects();
        proof {
            lemma_canvas_matches(*canvas_cpu_chunks, *canvas_dirty_rects, canvas_size, chunk_size);
        }
        blit_pixel(canvas_cpu_chunks, canvas_dirty_rects, canvas_size, chunk_size, msg.pos, msg.rgba_u32);
        proof {
            lemma_draw_step(first, first_rects, mid, canvas_dirty_rects.rects(), nx, ny, cw, ch,
                paint_pixels(no_paint(), draw_pixels@, w, h, i as int),
                pixel_paint(msg.pos, msg.rgba_u32, w, h));
        }
        i = i + 1;
    }
    let ghost after_pixels = paint_pixels(no_paint(), draw_pixels@, w, h, draw_pixels@.len() as int);
    let ghost pixel_rects = mark_pixels(first_rects, draw_pixels@, canvas_size, nx, cw, ch, draw_pixels@.len() as int);

    // Rects
    let mut i: usize = 0;
    while i < draw_rects.len()
        invariant
            canvas_matches(*canvas_cpu_chunks, *canvas_dirty_rects, canvas_size, chunk_size),
            canvas_cpu_chunks.spec_num_chunks() == old(canvas_cpu_chunks).spec_num_chunks(),
            nx == canvas_cpu_chunks.nx(), ny == canvas_cpu_chunks.ny(),
            cw == canvas_cpu_chunks.cw(), ch == canvas_cpu_chunks.ch(),
            chunk_size.x == cw, chunk_size.y == ch,
            w == canvas_size.x, h == canvas_size.y,
            w == config.canvas_size.0, h == config.canvas_size.1,
            first == old(canvas_cpu_chunks).chunks(),
            first_rects == old(canvas_dirty_rects).rects(),
            i <= draw_rects@.len(),
            forall|j: int|
                0 <= j < draw_rects@.len() && (#[trigger] draw_rects@[j]).size.x != 0 && draw_rects@[j].size.y != 0
                    ==> draw_rects@[j].size.x * draw_rects@[j].size.y <= u32::MAX,
            forall|j: int|
                0 <= j < draw_rects@.len() && rect_drawn(#[trigger] draw_rects@[j]) ==> {
                    &&& draw_rects@[j].size.x <= config.canvas_size.0
                    &&& draw_rects@[j].size.y <= config.canvas_size.1
                },
            canvas_cpu_chunks.chunks() == painted(first, nx, cw, ch, paint_rects(after_pixels, draw_rects@, w, h, i as int)),
            grows(first_rects, canvas_dirty_rects.rects()),
            within(first_rects, cw, ch) ==> within(canvas_dirty_rects.rects(), cw, ch),
            covers_paint(canvas_dirty_rects.rects(), nx, ny, cw, ch, paint_rects(after_pixels, draw_rects@, w, h, i as int)),
            canvas_dirty_rects.rects() == mark_rects(pixel_rects, draw_rects@, canvas_size, nx, cw, ch, i as int),
        decreases draw_rects@.len() - i,
    {
        let msg = &draw_rects[i];
        if msg.size.x == 0 || msg.size.y == 0 {
            i = i + 1;
            continue;
        }
        proof {
            assert(draw_rects@[i as int].size.x * draw_rects@[i as int].size.y <= u32::MAX);
        }
        let expected = (msg.size.x * msg.size.y) as usize;
        if msg.rgba_u32.len() != expected {
            i = i + 1;
            continue;
        }
        let ghost mid = canvas_dirty_rects.rects();
        proof {
            lemma_canvas_matches(*canvas_cpu_chunks, *canvas_dirty_rects, canvas_size, chunk_size);
            assert(rect_drawn(draw_rects@[i as int]));
        }
        blit_rect_torus_into_chunks(
            canvas_cpu_chunks,
            canvas_dirty_rects,
            msg.start,
            msg.size,
            msg.rgba_u32.as_slice(),
            canvas_size,
            chunk_size,
        );
        proof {
            lemma_draw_step(first, first_rects, mid, canvas_dirty_rects.rects(), nx, ny, cw, ch,
                paint_rects(after_pixels, draw_rects@, w, h, i as int),
                rect_paint(msg.start, msg.size, msg.rgba_u32@, w, h));
        }
        i = i + 1;
    }
    let ghost after_rects = paint_rects(after_pixels, draw_rects@, w, h, draw_rects@.len() as int);
    let ghost rect_rects = mark_rects(pixel_rects, draw_rects@, canvas_size, nx, cw, ch, draw_rects@.len() as int);

    // Spans
    let mut i: usize = 0;
    while i < draw_spans.len()
        invariant
            canvas_matches(*canvas_cpu_chunks, *canvas_dirty_rects, canvas_size, chunk_size),
            canvas_cpu_chunks.spec_num_chunks() == old(canvas_cpu_chunks).spec_num_chunks(),
            nx == canvas_cpu_chunks.nx(), ny == canvas_cpu_chunks.ny(),
            cw == canvas_cpu_chunks.cw(), ch == canvas_cpu_chunks.ch(),
            chunk_size.x == cw, chunk_size.y == ch,
            w == canvas_size.x, h == canvas_size.y,
            first == old(canvas_cpu_chunks).chunks(),
            first_rects == old(canvas_dirty_rects).rects(),
            i <= draw_spans@.len(),
            shaped(first, nx, ny, cw, ch),
            canvas_cpu_chunks.chunks() == painted(first, nx, cw, ch, paint_spans(after_rects, draw_spans@, w, h, i as int)),
            grows(first_rects, canvas_dirty_rects.rects()),
            within(first_rects, cw, ch) ==> within(canvas_dirty_rects.rects(), cw, ch),
            covers_paint(canvas_dirty_rects.rects(), nx, ny, cw, ch, paint_spans(after_rects, draw_spans@, w, h, i as int)),
            canvas_dirty_rects.rects() == mark_spans(rect_rects, draw_spans@, canvas_size, nx, cw, ch, i as int),
        decreases draw_spans@.len() - i,
    {
        let msg = &draw_spans[i];
        let ghost mid = canvas_dirty_rects.rects();
        proof {
            lemma_canvas_matches(*canvas_cpu_chunks, *canvas_dirty_rects, canvas_size, chunk_size);
        }
        if msg.rgba_u32.len() == 0 {
            proof {
                assert forall|x: int, y: int| 0 <= x < nx * cw && 0 <= y < ny * ch implies
                    #[trigger] paint_spans(after_rects, draw_spans@, w, h, i + 1)(x, y)
                        == paint_spans(after_rects, draw_spans@, w, h, i as int)(x, y) by {}
                crate::paint::lemma_painted_ext(first, nx, ny, cw, ch,
                    paint_spans(after_rects, draw_spans@, w, h, i as int),
                    paint_spans(after_rects, draw_spans@, w, h, i + 1));
                crate::dirty::lemma_covers_ext(canvas_dirty_rects.rects(), nx, ny, cw, ch,
                    paint_spans(after_rects, draw_spans@, w, h, i as int),
                    paint_spans(after_rects, draw_spans@, w, h, i + 1));
            }
            i = i + 1;
            continue;
        }
        blit_span_row_major(
            canvas_cpu_chunks,
            canvas_dirty_rects,
            canvas_size,
            chunk_size,
            msg.start,
            msg.rgba_u32.as_slice(),
        );
        proof {
            lemma_draw_step(first, first_rects, mid, canvas_dirty_rects.rects(), nx, ny, cw, ch,
                paint_spans(after_rects, draw_spans@, w, h, i as int),
                span_paint(msg.start, msg.rgba_u32@, w, h, msg.rgba_u32@.len() as int));
        }
        i = i + 1;
    }

    let ghost marked_rects = canvas_dirty_rects.rects();
    proof {
        lemma_within_plan_fits(marked_rects, cw, ch);
    }
    build_upload_ops(
        canvas_image_handles,
        canvas_cpu_chunks,
        canvas_dirty_rects,
        canvas_upload_ops,
        chunk_size,
    );
    proof {
        assert(draw_paint(draw_pixels@, draw_rects@, draw_spans@, w, h) == paint_spans(after_rects, draw_spans@, w, h, draw_spans@.len() as int));
    }
}

/// Every pixel that a round of drawing paints reaches the GPU with the colour
/// it was painted: one of the round's upload ops goes to a clone of the image
/// handle of the pixel's chunk, covers the pixel, and holds the pixel's colour
/// at the pixel's place in its bytes, in the byte order of the machine.
pub proof fn lemma_drawn_pixel_reaches_upload<H: Clone>(
    first: Seq<Seq<u32>>,
    marked_rects: Seq<DirtyRect>,
    ops: Seq<CanvasUploadOp<H>>,
    handles: Seq<H>,
    nx: int,
    ny: int,
    cw: int,
    ch: int,
    f: spec_fn(int, int) -> Option<u32>,
    x: int,
    y: int,
)
    requires
        shaped(first, nx, ny, cw, ch),
        cw <= u32::MAX,
        ch <= u32::MAX,
        marked_rects.len() == nx * ny,
        within(marked_rects, cw, ch),
        covers_paint(marked_rects, nx, ny, cw, ch, f),
        ops_follow_plan(
            ops,
            planned(marked_rects, cw, ch, marked_rects.len() as int),
            handles,
            painted(first, nx, cw, ch, f),
            cw,
        ),
        0 <= x < nx * cw,
        0 <= y < ny * ch,
        f(x, y) is Some,
    ensures
        exists|i: int|
            0 <= i < ops.len() && {
                let op = #[trigger] ops[i];
                let j = (y % ch - op.start.y) * op.size.x + (x % cw - op.start.x);
                &&& cloned(handles[chunk_of(x, y, nx, cw, ch)], op.handle)
                &&& op.start.x <= x % cw < op.start.x + op.size.x
                &&& op.start.y <= y % ch < op.start.y + op.size.y
                &&& 4 * j + 4 <= op.bytes@.len()
                &&& op.bytes@.subrange(4 * j, 4 * j + 4) == machine_bytes(seq![f(x, y)->0])
            },
{
    let chunks = painted(first, nx, cw, ch, f);
    let c = chunk_of(x, y, nx, cw, ch);
    lemma_pixel_to_chunk(x, y, nx, ny, cw, ch);
    lemma_painted_shaped(first, nx, ny, cw, ch, f);
    lemma_painted_pixel(first, nx, ny, cw, ch, f, x, y);
    let r = marked_rects[c];
    assert(rect_covers(r, x % cw, y % ch));
    lemma_plan_covers_rect(r, cw, ch);
    lemma_plan_inside_chunk(r, cw, ch);
    lemma_planned_contains(marked_rects, cw, ch, marked_rects.len() as int, c);
    let plan = planned(marked_rects, cw, ch, marked_rects.len() as int);
    let (start, size) = upload_plan(r, cw, ch).unwrap();
    let i = choose|i: int| 0 <= i < plan.len() && #[trigger] plan[i] == (c, start, size);
    let op = ops[i];
    assert(op_matches(op, handles[plan[i].0], plan[i].1, plan[i].2, chunks[plan[i].0], cw));
    let sx = start.x as int;
    let sy = start.y as int;
    let w = size.x as int;
    let h = size.y as int;
    let jc = x % cw - sx;
    let jr = y % ch - sy;
    let j = jr * w + jc;
    let rows = block_rows(chunks[c], cw, sx, sy, w, h);
    assert((sy + h) * cw <= cw * ch) by (nonlinear_arith) requires sy + h <= ch, cw > 0;
    lemma_block_rows_index(chunks[c], cw, sx, sy, w, h, jc, jr);
    assert((sy + jr) * cw + sx + jc == offset_of(x, y, cw, ch));
    assert(rows[j] == f(x, y)->0);
    assert(j < w * h) by (nonlinear_arith) requires j == jr * w + jc, 0 <= jr < h, 0 <= jc < w;
    assert(0 <= j) by (nonlinear_arith) requires j == jr * w + jc, 0 <= jr, 0 <= jc, w > 0;
    assert forall|b: int| 0 <= b < 4 implies #[trigger] op.bytes@.subrange(4 * j, 4 * j + 4)[b] == machine_bytes(
        seq![f(x, y)->0],
    )[b] by {
        lemma_word_bytes(rows, j, b);
    }
    assert(op.bytes@.subrange(4 * j, 4 * j + 4) =~= machine_bytes(seq![f(x, y)->0]));
}

/// The word whose bytes, least significant first, are `b`.
pub open spec fn le_word(b: Seq<u8>) -> int {
    b[0] + 256 * b[1] + 65536 * b[2] + 16777216 * b[3]
}

/// The word whose bytes, most significant first, are `b`.
pub open spec fn be_word(b: Seq<u8>) -> int {
    b[3] + 256 * b[2] + 65536 * b[1] + 16777216 * b[0]
}

/// The word whose bytes, in the machine's byte order, are `b`.
pub open spec fn machine_word(b: Seq<u8>) -> int {
    if little_endian() {
        le_word(b)
    } else {
        be_word(b)
    }
}

/// Trusted: calls `u32::from_ne_bytes`, which reads the four bytes as a word in
/// the byte order of the machine. Whether that order is little- or big-endian
/// is not stated: it depends on the machine, but it is the one order of the
/// machine, the same in which words are turned back into bytes.
#[verifier::external_body]
fn u32_from_ne_bytes(bytes: [u8; 4]) -> (r: u32)
    ensures
        r == machine_word(bytes@),
{
    u32::from_ne_bytes(bytes)
}

/// Packs RGBA8 colour bytes into one canvas pixel, in the byte order of the
/// machine, so that the pixel's bytes in memory are `rgba` in order.
pub fn pack_rgba8(rgba: [u8; 4]) -> (r: u32)
    ensures
        r == machine_word(rgba@),
        machine_bytes(seq![r]) == rgba@,
{
    let r = u32_from_ne_bytes(rgba);
    proof {
        lemma_word_round_trip(rgba@);
    }
    r
}

/// Packing four bytes into a word and laying the word out in memory again
/// gives back the four bytes, in order, whatever the machine's byte order.
pub proof fn lemma_word_round_trip(b: Seq<u8>)
    requires
        b.len() == 4,
    ensures
        0 <= machine_word(b) <= u32::MAX,
        machine_bytes(seq![machine_word(b) as u32]) == b,
{
    let b0 = b[0];
    let b1 = b[1];
    let b2 = b[2];
    let b3 = b[3];
    let l = le_word(b);
    let g = be_word(b);
    assert(0 <= l <= u32::MAX && 0 <= g <= u32::MAX);
    let lw = l as u32;
    let gw = g as u32;
    assert(byte_of(lw, 0) == b0 && byte_of(lw, 1) == b1 && byte_of(lw, 2) == b2 && byte_of(lw, 3) == b3)
        by (nonlinear_arith)
        requires lw == b0 + 256 * b1 + 65536 * b2 + 16777216 * b3;
    assert(byte_of(gw, 0) == b3 && byte_of(gw, 1) == b2 && byte_of(gw, 2) == b1 && byte_of(gw, 3) == b0)
        by (nonlinear_arith)
        requires gw == b3 + 256 * b2 + 65536 * b1 + 16777216 * b0;
    assert forall|k: int| 0 <= k < 4 implies #[trigger] machine_bytes(seq![machine_word(b) as u32])[k] == b[k] by {
        lemma_word_bytes(seq![machine_word(b) as u32], 0, k);
    }
    assert(machine_bytes(seq![machine_word(b) as u32]) =~= b);
}

/// RGBA8 bytes of one chunk, every pixel the clear colour.
pub fn initial_chunk_rgba(config: &CanvasConfig) -> (data: Vec<u8>)
    requires
        config.num_chunks.0 > 0,
        config.num_chunks.1 > 0,
        4 * config.spec_chunk_size().0 * config.spec_chunk_size().1 <= usize::MAX,
    ensures
        data@.len() == 4 * config.spec_chunk_size().0 * config.spec_chunk_size().1,
        forall|i: int| 0 <= i < data@.len() ==> #[trigger] data@[i] == config.clear_colour[i % 4],
{
    proof {
        let cw = config.spec_chunk_size().0 as int;
        let ch = config.spec_chunk_size().1 as int;
        assert(cw * ch <= 4 * cw * ch) by (nonlinear_arith) requires cw >= 0, ch >= 0;
    }
    let pixels_per_chunk = config.pixels_per_chunk();
    let colour: [u8; 4] = *config.clear_colour();
    let mut data: Vec<u8> = Vec::new();
    let mut px: usize = 0;
    while px < pixels_per_chunk
        invariant
            px <= pixels_per_chunk,
            pixels_per_chunk == config.spec_chunk_size().0 * config.spec_chunk_size().1,
            colour@ == config.clear_colour@,
            data@.len() == 4 * px,
            forall|i: int| 0 <= i < data@.len() ==> #[trigger] data@[i] == colour@[i % 4],
        decreases pixels_per_chunk - px,
    {
        let ghost before = data@;
        data.push(colour[0]);
        data.push(colour[1]);
        data.push(colour[2]);
        data.push(colour[3]);
        proof {
            assert forall|i: int| 0 <= i < data@.len() implies #[trigger] data@[i] == colour@[i % 4] by {
                if i >= before.len() {
                    assert(i % 4 == i - 4 * px) by {
                        vstd::arithmetic::div_mod::lemma_fundamental_div_mod_converse(i, 4, px as int, i - 4 * px);
                    }
                } else {
                    assert(data@[i] == before[i]);
                }
            }
        }
        px = px + 1;
    }
    proof {
        let cw = config.spec_chunk_size().0 as int;
        let ch = config.spec_chunk_size().1 as int;
        assert(4 * (cw * ch) == 4 * cw * ch) by (nonlinear_arith);
    }
    data
}

/// The CPU pixel store and the dirty tracking of a new canvas for `config`:
/// every pixel the clear colour, every chunk clean.
pub fn canvas_storage(config: &CanvasConfig) -> (r: (CanvasCpuChunks, CanvasDirtyRects))
    requires
        config.is_valid(),
        config.spec_chunk_size().0 * config.spec_chunk_size().1 <= usize::MAX,
    ensures
        built_for(*config, r.0, r.1),
        within(r.1.rects(), r.0.cw(), r.0.ch()),
        forall|i: int| 0 <= i < r.1.rects().len() ==> !(#[trigger] r.1.rects()[i]).dirty,
        r.0.chunks()[0][0] == machine_word(config.clear_colour@),
        machine_bytes(seq![r.0.chunks()[0][0]]) == config.clear_colour@,
        forall|c: int, o: int|
            0 <= c < r.0.chunks().len() && 0 <= o < r.0.chunks()[c].len() ==> #[trigger] r.0.chunks()[c][o]
                == r.0.chunks()[0][0],
{
    proof {
        lemma_chunks_tile_canvas(*config);
    }
    let num_chunks = config.num_chunks();
    let chunk_size = config.chunk_size();
    let default_px = pack_rgba8(*config.clear_colour());
    let cpu = CanvasCpuChunks::new(num_chunks, chunk_size, default_px);
    let dirty = CanvasDirtyRects::new(num_chunks);
    proof {
        assert(cpu.nx() * cpu.ny() > 0) by (nonlinear_arith) requires cpu.nx() > 0, cpu.ny() > 0;
        assert(cpu.chunks()[0].len() == cpu.cw() * cpu.ch());
        assert(cpu.cw() * cpu.ch() > 0) by (nonlinear_arith) requires cpu.cw() > 0, cpu.ch() > 0;
        assert(cpu.chunks()[0][0] == default_px);
    }
    (cpu, dirty)
}

} // verus!
