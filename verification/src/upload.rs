use vstd::prelude::*;

use crate::chunks::CanvasCpuChunks;
use crate::dirty::{taken, within, CanvasDirtyRects};
use crate::types::{DirtyRect, UVec2};

verus! {

/// Byte `b` (0 is the least significant) of `w`.
pub open spec fn byte_of(w: u32, b: int) -> u8 {
    if b == 0 {
        (w % 256) as u8
    } else if b == 1 {
        ((w / 256) % 256) as u8
    } else if b == 2 {
        ((w / 65536) % 256) as u8
    } else {
        (w / 16777216) as u8
    }
}

/// The words of `s` as bytes, least significant byte first.
pub open spec fn le_bytes(s: Seq<u32>) -> Seq<u8> {
    Seq::new(4 * s.len(), |i: int| byte_of(s[i / 4], i % 4))
}

/// The words of `s` as bytes, most significant byte first.
pub open spec fn be_bytes(s: Seq<u32>) -> Seq<u8> {
    Seq::new(4 * s.len(), |i: int| byte_of(s[i / 4], 3 - i % 4))
}

/// Whether the machine keeps the least significant byte of a word first in
/// memory. It is one fact about the machine, the same for every word and every
/// call; which way it goes is left open.
pub closed spec fn little_endian() -> bool {
    choose|b: bool| #[trigger] either_way(b)
}

spec fn either_way(b: bool) -> bool {
    b || !b
}

/// The words of `s` as bytes in the machine's byte order.
pub open spec fn machine_bytes(s: Seq<u32>) -> Seq<u8> {
    if little_endian() {
        le_bytes(s)
    } else {
        be_bytes(s)
    }
}

/// The bytes of `words` as they lie in memory: every word's four bytes in the
/// byte order of the machine.
///
/// Trusted: calls `bytemuck::cast_slice::<u32, u8>`, which reinterprets the
/// words' memory as bytes (it cannot fail for this pair of types), then copies
/// the bytes into a vector. Whether that order is little- or big-endian is not
/// stated: it depends on the machine, but it is the one order of the machine.
#[verifier::external_body]
fn pixels_as_bytes(words: &[u32]) -> (bytes: Vec<u8>)
    ensures
        bytes@ == machine_bytes(words@),
{
    bytemuck::cast_slice::<u32, u8>(words).to_vec()
}

/// Width, in pixels, that every upload row is padded to a multiple of.
pub const ROW_ALIGN_PX: u32 = 64;

pub open spec fn min_int(a: int, b: int) -> int {
    if a <= b {
        a
    } else {
        b
    }
}

pub open spec fn sat_int(a: int) -> int {
    if a < 0 {
        0
    } else {
        a
    }
}

/// Left edge of the upload region of rect `r` in a chunk `cw` wide.
pub open spec fn ex_min_x(r: DirtyRect, cw: int) -> int {
    min_int(r.min.x as int, sat_int(cw - 1))
}

/// Top edge of the upload region of rect `r` in a chunk `ch` high.
pub open spec fn ex_min_y(r: DirtyRect, ch: int) -> int {
    min_int(r.min.y as int, sat_int(ch - 1))
}

/// Right edge (exclusive) of the dirty part of rect `r`, clamped to the chunk.
pub open spec fn ex_max_x(r: DirtyRect, cw: int) -> int {
    min_int(r.max.x + 1, cw)
}

/// Bottom edge (exclusive) of the dirty part of rect `r`, clamped to the chunk.
pub open spec fn ex_max_y(r: DirtyRect, ch: int) -> int {
    min_int(r.max.y + 1, ch)
}

/// Left edge of the upload region, rounded down to the row alignment.
pub open spec fn pad_min_x(r: DirtyRect, cw: int) -> int {
    (ex_min_x(r, cw) / 64) * 64
}

/// Right edge of the upload region, rounded up to the row alignment and
/// clamped to the chunk.
pub open spec fn pad_max_x(r: DirtyRect, cw: int) -> int {
    min_int(((ex_max_x(r, cw) + 63) / 64) * 64, cw)
}

pub open spec fn pad_width(r: DirtyRect, cw: int) -> int {
    sat_int(pad_max_x(r, cw) - pad_min_x(r, cw))
}

pub open spec fn ex_height(r: DirtyRect, ch: int) -> int {
    sat_int(ex_max_y(r, ch) - ex_min_y(r, ch))
}

/// The region to upload for chunk rect `r`, as `(start, size)`, or `None` when
/// there is nothing to upload.
pub open spec fn upload_plan(r: DirtyRect, cw: int, ch: int) -> Option<(UVec2, UVec2)> {
    if !r.dirty || pad_width(r, cw) == 0 || ex_height(r, ch) == 0 {
        None
    } else {
        Some(
            (
                UVec2 { x: pad_min_x(r, cw) as u32, y: ex_min_y(r, ch) as u32 },
                UVec2 { x: pad_width(r, cw) as u32, y: ex_height(r, ch) as u32 },
            ),
        )
    }
}

/// Planning an upload for rect `r` stays within the integer types: no
/// intermediate value overflows and the row bytes fit in memory.
pub open spec fn plan_fits(r: DirtyRect, cw: int, ch: int) -> bool {
    r.dirty ==> {
        &&& r.max.x + 1 <= u32::MAX
        &&& r.max.y + 1 <= u32::MAX
        &&& ex_max_x(r, cw) + 64 <= u32::MAX
        &&& 4 * pad_width(r, cw) <= u32::MAX
        &&& 4 * pad_width(r, cw) * ex_height(r, ch) <= usize::MAX
    }
}

/// The rows `y .. y + h` of columns `x .. x + w` of a row-major chunk `cw`
/// wide, top row first.
pub open spec fn block_rows(chunk: Seq<u32>, cw: int, x: int, y: int, w: int, h: int) -> Seq<u32>
    decreases h,
{
    if h <= 0 {
        Seq::empty()
    } else {
        block_rows(chunk, cw, x, y, w, h - 1) + chunk.subrange(
            (y + h - 1) * cw + x,
            (y + h - 1) * cw + x + w,
        )
    }
}

/// A pending upload of a region of one chunk's pixels to its image.
pub struct CanvasUploadOp<H> {
    pub handle: H,
    pub start: UVec2,
    pub size: UVec2,
    pub bytes_per_row: u32,
    pub bytes: Vec<u8>,
}

/// Pending canvas upload operations.
pub struct CanvasUploadOps<H> {
    pub ops: Vec<CanvasUploadOp<H>>,
}

impl<H> CanvasUploadOps<H> {
    pub fn new() -> (r: Self)
        ensures
            r.ops@.len() == 0,
    {
        CanvasUploadOps { ops: Vec::new() }
    }
}

/// One image handle per chunk, in chunk order.
pub struct CanvasImageHandles<H> {
    handles: Vec<H>,
}

impl<H> CanvasImageHandles<H> {
    pub closed spec fn handles(self) -> Seq<H> {
        self.handles@
    }

    pub fn new(num_chunks: (u8, u8), handles: Vec<H>) -> (r: Self)
        requires
            num_chunks.0 > 0,
            num_chunks.1 > 0,
            handles@.len() == num_chunks.0 * num_chunks.1,
        ensures
            r.handles() == handles@,
    {
        Self { handles }
    }

    #[inline(always)]
    pub fn handle(&self, index: usize) -> (r: &H)
        requires
            index < self.handles().len(),
        ensures
            *r == self.handles()[index as int],
    {
        &self.handles[index]
    }

    pub fn len(&self) -> (r: usize)
        ensures
            r == self.handles().len(),
    {
        self.handles.len()
    }
}

/// Rect `r` with its dirty flag cleared.
pub open spec fn clean(r: DirtyRect) -> DirtyRect {
    DirtyRect { dirty: false, ..r }
}

/// `rects` with the first `k` rects cleaned.
pub open spec fn cleaned(rects: Seq<DirtyRect>, k: int) -> Seq<DirtyRect> {
    Seq::new(rects.len(), |c: int| if c < k { clean(rects[c]) } else { rects[c] })
}

/// The uploads planned for the first `k` chunks, in chunk order, as
/// `(chunk index, start, size)`.
pub open spec fn planned(rects: Seq<DirtyRect>, cw: int, ch: int, k: int) -> Seq<(int, UVec2, UVec2)>
    decreases k,
{
    if k <= 0 {
        Seq::empty()
    } else {
        let prev = planned(rects, cw, ch, k - 1);
        match upload_plan(rects[k - 1], cw, ch) {
            Some((start, size)) => prev.push((k - 1, start, size)),
            None => prev,
        }
    }
}

/// `op` uploads the `size` region at `start` of the row-major `chunk` (`cw`
/// wide) to a clone of `handle`.
pub open spec fn op_matches<H: Clone>(
    op: CanvasUploadOp<H>,
    handle: H,
    start: UVec2,
    size: UVec2,
    chunk: Seq<u32>,
    cw: int,
) -> bool {
    &&& cloned(handle, op.handle)
    &&& op.start == start
    &&& op.size == size
    &&& op.bytes_per_row == 4 * size.x
    &&& {
        let rows = block_rows(chunk, cw, start.x as int, start.y as int, size.x as int, size.y as int);
        op.bytes@ == machine_bytes(rows)
    }
}

/// `ops` carry out `plan`, one op per planned upload, in order.
pub open spec fn ops_follow_plan<H: Clone>(
    ops: Seq<CanvasUploadOp<H>>,
    plan: Seq<(int, UVec2, UVec2)>,
    handles: Seq<H>,
    chunks: Seq<Seq<u32>>,
    cw: int,
) -> bool {
    &&& ops.len() == plan.len()
    &&& forall|i: int|
        0 <= i < plan.len() ==> op_matches(
            #[trigger] ops[i],
            handles[plan[i].0],
            plan[i].1,
            plan[i].2,
            chunks[plan[i].0],
            cw,
        )
}

/// Converts dirty rects to upload ops: a CPU snapshot of the touched rows of
/// every dirty chunk, widened to whole multiples of 64 pixels. Every chunk is
/// clean afterwards.
#[inline]
pub fn build_upload_ops<H: Clone>(
    canvas_image_handles: &CanvasImageHandles<H>,
    canvas_cpu_chunks: &CanvasCpuChunks,
    canvas_dirty_rects: &mut CanvasDirtyRects,
    canvas_upload_ops: &mut CanvasUploadOps<H>,
    chunk_size: UVec2,
)
    requires
        canvas_cpu_chunks.wf(),
        old(canvas_dirty_rects).wf(),
        old(canvas_dirty_rects).spec_num_chunks() == canvas_cpu_chunks.spec_num_chunks(),
        canvas_cpu_chunks.spec_chunk_size() == (chunk_size.x, chunk_size.y),
        canvas_image_handles.handles().len() == canvas_cpu_chunks.chunks().len(),
        forall|c: int|
            0 <= c < old(canvas_dirty_rects).rects().len() ==> plan_fits(
                #[trigger] old(canvas_dirty_rects).rects()[c],
                chunk_size.x as int,
                chunk_size.y as int,
            ),
    ensures
        final(canvas_dirty_rects).wf(),
        final(canvas_dirty_rects).spec_num_chunks() == old(canvas_dirty_rects).spec_num_chunks(),
        final(canvas_dirty_rects).rects() == old(canvas_dirty_rects).rects().map_values(
            |r: DirtyRect| clean(r),
        ),
        ops_follow_plan(
            final(canvas_upload_ops).ops@,
            planned(
                old(canvas_dirty_rects).rects(),
                chunk_size.x as int,
                chunk_size.y as int,
                old(canvas_dirty_rects).rects().len() as int,
            ),
            canvas_image_handles.handles(),
            canvas_cpu_chunks.chunks(),
            chunk_size.x as int,
        ),
        chunk_size.x % 64 == 0 ==> forall|i: int|
            0 <= i < final(canvas_upload_ops).ops@.len() ==> (#[trigger] final(canvas_upload_ops).ops@[i]).bytes_per_row
                % 256 == 0,
{
    canvas_upload_ops.ops.clear();

    let chunk_w = chunk_size.x;
    let chunk_h = chunk_size.y;
    let ghost cw = chunk_w as int;
    let ghost ch = chunk_h as int;
    let ghost rects0 = canvas_dirty_rects.rects();
    let n = canvas_dirty_rects.len();

    let mut chunk_index: usize = 0;
    while chunk_index < n
        invariant
            canvas_cpu_chunks.wf(),
            canvas_dirty_rects.wf(),
            canvas_dirty_rects.spec_num_chunks() == old(canvas_dirty_rects).spec_num_chunks(),
            canvas_cpu_chunks.spec_chunk_size() == (chunk_size.x, chunk_size.y),
            cw == chunk_w, ch == chunk_h,
            chunk_w == chunk_size.x, chunk_h == chunk_size.y,
            rects0 == old(canvas_dirty_rects).rects(),
            n == rects0.len(),
            n == canvas_cpu_chunks.chunks().len(),
            canvas_image_handles.handles().len() == n,
            chunk_index <= n,
            forall|c: int| 0 <= c < rects0.len() ==> plan_fits(#[trigger] rects0[c], cw, ch),
            canvas_dirty_rects.rects() == cleaned(rects0, chunk_index as int),
            canvas_upload_ops.ops@.len() == planned(rects0, cw, ch, chunk_index as int).len(),
            forall|i: int|
                0 <= i < planned(rects0, cw, ch, chunk_index as int).len() ==> op_matches(
                    #[trigger] canvas_upload_ops.ops@[i],
                    canvas_image_handles.handles()[planned(rects0, cw, ch, chunk_index as int)[i].0],
                    planned(rects0, cw, ch, chunk_index as int)[i].1,
                    planned(rects0, cw, ch, chunk_index as int)[i].2,
                    canvas_cpu_chunks.chunks()[planned(rects0, cw, ch, chunk_index as int)[i].0],
                    cw,
                ),
        decreases n - chunk_index,
    {
        let ghost k = chunk_index as int;
        let ghost r = rects0[k];
        let ghost before = canvas_dirty_rects.rects();
        let taken_rect = canvas_dirty_rects.take(chunk_index);
        proof {
            assert(before[k] == r);
            assert(taken(before, k) =~= cleaned(rects0, k + 1));
        }
        match taken_rect {
            None => {
                proof {
                    assert(planned(rects0, cw, ch, k + 1) == planned(rects0, cw, ch, k));
                }
            },
            Some((min, max)) => {
                proof {
                    assert(r.dirty && min == r.min && max == r.max);
                    assert(plan_fits(rects0[k], cw, ch));
                }
                let min_ex = min;
                let max_ex = UVec2 { x: max.x + 1, y: max.y + 1 };

                // Safety clamp (helps if a bug elsewhere overmarks)
                let cw_m1 = chunk_w.saturating_sub(1);
                let ch_m1 = chunk_h.saturating_sub(1);
                let min_ex = UVec2 {
                    x: if min_ex.x <= cw_m1 { min_ex.x } else { cw_m1 },
                    y: if min_ex.y <= ch_m1 { min_ex.y } else { ch_m1 },
                };
                let max_ex = UVec2 {
                    x: if max_ex.x <= chunk_w { max_ex.x } else { chunk_w },
                    y: if max_ex.y <= chunk_h { max_ex.y } else { chunk_h },
                };

                // Pad X to 64px for bytes_per_row alignment
                let padding_min_x = (min_ex.x / ROW_ALIGN_PX) * ROW_ALIGN_PX;
                let rounded_max_x = ((max_ex.x + ROW_ALIGN_PX - 1) / ROW_ALIGN_PX) * ROW_ALIGN_PX;
                let padding_max_x = if rounded_max_x <= chunk_w { rounded_max_x } else { chunk_w };

                let padded_width = padding_max_x.saturating_sub(padding_min_x);
                let height = max_ex.y.saturating_sub(min_ex.y);
                proof {
                    assert(min_ex.x == ex_min_x(r, cw));
                    assert(min_ex.y == ex_min_y(r, ch));
                    assert(max_ex.x == ex_max_x(r, cw));
                    assert(max_ex.y == ex_max_y(r, ch));
                    assert(padding_min_x == pad_min_x(r, cw));
                    assert(padding_max_x == pad_max_x(r, cw));
                    assert(padded_width == pad_width(r, cw));
                    assert(height == ex_height(r, ch));
                }
                if padded_width == 0 || height == 0 {
                    proof {
                        assert(planned(rects0, cw, ch, k + 1) == planned(rects0, cw, ch, k));
                    }
                } else {
                    let bytes_per_row = padded_width * 4;

                    let handle = canvas_image_handles.handle(chunk_index).clone();
                    let chunk = canvas_cpu_chunks.chunk(chunk_index);
                    proof {
                        assert(canvas_cpu_chunks.cw() == cw && canvas_cpu_chunks.ch() == ch);
                        assert(0 <= k < canvas_cpu_chunks.chunks().len());
                        assert(canvas_cpu_chunks.chunks()[k].len() == canvas_cpu_chunks.cw() * canvas_cpu_chunks.ch());
                    }
                    let row_stride = chunk_w as usize;
                    let x0 = padding_min_x as usize;
                    let width = padded_width as usize;

                    let mut pixels: Vec<u32> = Vec::new();
                    let mut y = min_ex.y;
                    while y < max_ex.y
                        invariant
                            chunk@ == canvas_cpu_chunks.chunks()[k],
                            chunk@.len() == cw * ch,
                            cw * ch <= usize::MAX,
                            min_ex.y <= y <= max_ex.y,
                            max_ex.y <= ch,
                            x0 + width <= cw,
                            row_stride == cw,
                            pixels@ == block_rows(chunk@, cw, x0 as int, min_ex.y as int, width as int, y - min_ex.y),
                        decreases max_ex.y - y,
                    {
                        proof {
                            assert((y + 1) * cw <= ch * cw) by (nonlinear_arith) requires y + 1 <= ch, cw >= 0;
                            assert(ch * cw == cw * ch) by (nonlinear_arith);
                            assert(y * cw + cw == (y + 1) * cw) by (nonlinear_arith);
                        }
                        let row_start = (y as usize) * row_stride;
                        let ghost row_pixels = pixels@;
                        let mut x: usize = 0;
                        while x < width
                            invariant
                                chunk@ == canvas_cpu_chunks.chunks()[k],
                                chunk@.len() == cw * ch,
                                cw * ch <= usize::MAX,
                                row_start == y * cw,
                                y * cw + cw <= cw * ch,
                                x0 + width <= cw,
                                x <= width,
                                pixels@ == row_pixels + chunk@.subrange(row_start + x0, row_start + x0 + x),
                            decreases width - x,
                        {
                            pixels.push(chunk[row_start + x0 + x]);
                            x = x + 1;
                            assert(pixels@ =~= row_pixels + chunk@.subrange(row_start + x0, row_start + x0 + x));
                        }
                        y = y + 1;
                        proof {
                            assert((y - min_ex.y) - 1 == y - 1 - min_ex.y);
                            assert(min_ex.y + (y - min_ex.y) - 1 == y - 1);
                        }
                    }
                    let bytes = pixels_as_bytes(pixels.as_slice());

                    let ghost old_ops = canvas_upload_ops.ops@;
                    canvas_upload_ops.ops.push(CanvasUploadOp {
                        handle,
                        start: UVec2 { x: padding_min_x, y: min_ex.y },
                        size: UVec2 { x: padded_width, y: height },
                        bytes_per_row,
                        bytes,
                    });
                    proof {
                        let plan = planned(rects0, cw, ch, k + 1);
                        assert(plan == planned(rects0, cw, ch, k).push((k, UVec2 { x: padding_min_x, y: min_ex.y }, UVec2 { x: padded_width, y: height })));
                        assert forall|i: int| 0 <= i < plan.len() implies op_matches(
                            #[trigger] canvas_upload_ops.ops@[i],
                            canvas_image_handles.handles()[plan[i].0],
                            plan[i].1,
                            plan[i].2,
                            canvas_cpu_chunks.chunks()[plan[i].0],
                            cw,
                        ) by {
                            if i < plan.len() - 1 {
                                assert(canvas_upload_ops.ops@[i] == old_ops[i]);
                            }
                        }
                    }
                }
            },
        }
        chunk_index = chunk_index + 1;
    }
    proof {
        assert(cleaned(rects0, n as int) =~= rects0.map_values(|r: DirtyRect| clean(r)));
        if cw % 64 == 0 {
            let plan = planned(rects0, cw, ch, n as int);
            assert forall|i: int| 0 <= i < canvas_upload_ops.ops@.len() implies (
            #[trigger] canvas_upload_ops.ops@[i]).bytes_per_row % 256 == 0 by {
                lemma_planned_entry(rects0, cw, ch, n as int, i);
                assert(op_matches(
                    canvas_upload_ops.ops@[i],
                    canvas_image_handles.handles()[plan[i].0],
                    plan[i].1,
                    plan[i].2,
                    canvas_cpu_chunks.chunks()[plan[i].0],
                    cw,
                ));
                lemma_plan_row_alignment(rects0[plan[i].0], cw, ch);
            }
        }
    }
}

proof fn lemma_round_to_64(a: int)
    requires
        a >= 0,
    ensures
        (a / 64) * 64 <= a < (a / 64) * 64 + 64,
        ((a + 63) / 64) * 64 >= a,
        ((a + 63) / 64) * 64 < a + 64,
        ((a / 64) * 64) % 64 == 0,
        (((a + 63) / 64) * 64) % 64 == 0,
        (a / 64) * 64 >= 0,
{
    vstd::arithmetic::div_mod::lemma_fundamental_div_mod(a, 64);
    vstd::arithmetic::div_mod::lemma_fundamental_div_mod(a + 63, 64);
    vstd::arithmetic::div_mod::lemma_mod_pos_bound(a, 64);
    vstd::arithmetic::div_mod::lemma_mod_pos_bound(a + 63, 64);
    vstd::arithmetic::div_mod::lemma_mod_multiples_basic(a / 64, 64);
    vstd::arithmetic::div_mod::lemma_mod_multiples_basic((a + 63) / 64, 64);
    vstd::arithmetic::div_mod::lemma_div_pos_is_pos(a, 64);
}

/// Pixel `(c, r)` of a block sits at `r * w + c` in its rows, and is the
/// chunk's pixel at column `x + c` of row `y + r`.
pub proof fn lemma_block_rows_index(chunk: Seq<u32>, cw: int, x: int, y: int, w: int, h: int, c: int, r: int)
    requires
        0 <= x,
        0 <= y,
        x + w <= cw,
        (y + h) * cw <= chunk.len(),
        0 <= c < w,
        0 <= r < h,
    ensures
        block_rows(chunk, cw, x, y, w, h).len() == w * h,
        block_rows(chunk, cw, x, y, w, h)[r * w + c] == chunk[(y + r) * cw + x + c],
    decreases h,
{
    lemma_block_rows_len(chunk, cw, x, y, w, h);
    let last = (y + h - 1) * cw + x;
    assert(last + w <= (y + h) * cw) by (nonlinear_arith) requires last == (y + h - 1) * cw + x, x + w <= cw;
    assert(0 <= last) by (nonlinear_arith) requires last == (y + h - 1) * cw + x, x >= 0, y + h - 1 >= 0, cw >= x + w, w > 0;
    assert((y + h - 1) * cw <= (y + h) * cw) by (nonlinear_arith) requires cw >= 0, y + h - 1 >= 0;
    lemma_block_rows_len(chunk, cw, x, y, w, h - 1);
    if r < h - 1 {
        lemma_block_rows_index(chunk, cw, x, y, w, h - 1, c, r);
        assert((r + 1) * w <= (h - 1) * w) by (nonlinear_arith) requires r + 1 <= h - 1, w >= 0;
        assert((r + 1) * w == r * w + w) by (nonlinear_arith);
        assert(r * w + c < (h - 1) * w);
    } else {
        assert(r * w + c == (h - 1) * w + c);
    }
}

/// A block of `h` rows of `w` pixels has `w * h` pixels.
proof fn lemma_block_rows_len(chunk: Seq<u32>, cw: int, x: int, y: int, w: int, h: int)
    requires
        0 <= x,
        0 <= y,
        0 <= w,
        0 <= h,
        x + w <= cw,
        (y + h) * cw <= chunk.len(),
    ensures
        block_rows(chunk, cw, x, y, w, h).len() == w * h,
    decreases h,
{
    if h > 0 {
        assert((y + h - 1) * cw <= (y + h) * cw) by (nonlinear_arith) requires cw >= 0, y + h - 1 >= 0;
        lemma_block_rows_len(chunk, cw, x, y, w, h - 1);
        let last = (y + h - 1) * cw + x;
        assert(last + w <= (y + h) * cw) by (nonlinear_arith) requires last == (y + h - 1) * cw + x, x + w <= cw;
        assert(0 <= last) by (nonlinear_arith) requires last == (y + h - 1) * cw + x, x >= 0, y + h - 1 >= 0, cw >= x + w, w >= 0;
        assert((y + h - 1) * cw <= (y + h) * cw) by (nonlinear_arith) requires cw >= 0, y + h - 1 >= 0;
        assert(w * (h - 1) + w == w * h) by (nonlinear_arith);
        assert(chunk.subrange(last, last + w).len() == w);
    } else {
        assert(w * h == 0) by (nonlinear_arith) requires h == 0;
    }
}

/// Byte `b` of word `j` sits at `4 * j + b` in both byte orders.
pub proof fn lemma_word_bytes(s: Seq<u32>, j: int, b: int)
    requires
        0 <= j < s.len(),
        0 <= b < 4,
    ensures
        le_bytes(s)[4 * j + b] == byte_of(s[j], b),
        be_bytes(s)[4 * j + b] == byte_of(s[j], 3 - b),
        machine_bytes(s)[4 * j + b] == machine_bytes(seq![s[j]])[b],
{
    vstd::arithmetic::div_mod::lemma_fundamental_div_mod_converse(b, 4, 0, b);
    vstd::arithmetic::div_mod::lemma_fundamental_div_mod_converse(4 * j + b, 4, j, b);
}

/// Every number in an upload plan fits in a `u32`.
proof fn lemma_plan_fields_fit(r: DirtyRect, cw: int, ch: int)
    requires
        0 < cw <= u32::MAX,
        0 < ch <= u32::MAX,
    ensures
        0 <= pad_min_x(r, cw) <= ex_min_x(r, cw) < cw,
        0 <= pad_width(r, cw) <= cw,
        0 <= ex_min_y(r, ch) < ch,
        0 <= ex_height(r, ch) <= ch,
        pad_min_x(r, cw) + pad_width(r, cw) <= cw || pad_width(r, cw) == 0,
{
    lemma_round_to_64(ex_min_x(r, cw));
    lemma_round_to_64(ex_max_x(r, cw));
}

/// An upload region lies inside its chunk, starts on a multiple of 64 pixels
/// and is never empty.
pub proof fn lemma_plan_inside_chunk(r: DirtyRect, cw: int, ch: int)
    requires
        0 < cw <= u32::MAX,
        0 < ch <= u32::MAX,
        upload_plan(r, cw, ch) is Some,
    ensures
        ({
            let (start, size) = upload_plan(r, cw, ch).unwrap();
            &&& start.x + size.x <= cw
            &&& start.y + size.y <= ch
            &&& start.x % 64 == 0
            &&& size.x > 0
            &&& size.y > 0
        }),
{
    lemma_round_to_64(ex_min_x(r, cw));
    lemma_round_to_64(ex_max_x(r, cw));
    lemma_plan_fields_fit(r, cw, ch);
}

/// When a chunk's dirty rect lies inside the chunk, its upload region holds
/// every dirty pixel.
pub proof fn lemma_plan_covers_rect(r: DirtyRect, cw: int, ch: int)
    requires
        cw <= u32::MAX,
        ch <= u32::MAX,
        r.dirty,
        r.min.x <= r.max.x < cw,
        r.min.y <= r.max.y < ch,
    ensures
        upload_plan(r, cw, ch) is Some,
        ({
            let (start, size) = upload_plan(r, cw, ch).unwrap();
            &&& start.x <= r.min.x
            &&& r.max.x < start.x + size.x
            &&& start.y <= r.min.y
            &&& r.max.y < start.y + size.y
        }),
{
    lemma_round_to_64(ex_min_x(r, cw));
    lemma_round_to_64(ex_max_x(r, cw));
    lemma_plan_fields_fit(r, cw, ch);
}

/// When the chunk width is a multiple of 64 pixels, every upload row is a
/// whole multiple of 256 bytes, as texture copies require.
pub proof fn lemma_plan_row_alignment(r: DirtyRect, cw: int, ch: int)
    requires
        0 < cw <= u32::MAX,
        0 < ch <= u32::MAX,
        cw % 64 == 0,
        upload_plan(r, cw, ch) is Some,
    ensures
        (4 * upload_plan(r, cw, ch).unwrap().1.x) % 256 == 0,
{
    let a = ex_min_x(r, cw);
    let b = ex_max_x(r, cw);
    lemma_plan_fields_fit(r, cw, ch);
    lemma_round_to_64(a);
    lemma_round_to_64(b);
    let lo = (a / 64) * 64;
    let hi = pad_max_x(r, cw);
    assert(hi % 64 == 0);
    let wdt = hi - lo;
    assert(wdt % 64 == 0) by {
        vstd::arithmetic::div_mod::lemma_sub_mod_noop(hi, lo, 64);
    }
    assert((4 * wdt) % 256 == 0) by {
        vstd::arithmetic::div_mod::lemma_fundamental_div_mod(wdt, 64);
        let q = wdt / 64;
        assert(4 * wdt == 256 * q) by (nonlinear_arith) requires wdt == 64 * q;
        vstd::arithmetic::div_mod::lemma_mod_multiples_basic(q, 256);
        assert(256 * q == q * 256) by (nonlinear_arith);
    }
}

/// Proper rects in chunks of moderate size can always be planned.
pub proof fn lemma_within_plan_fits(rects: Seq<DirtyRect>, cw: int, ch: int)
    requires
        within(rects, u32::MAX as int, u32::MAX as int),
        0 < cw,
        0 < ch <= u32::MAX,
        cw + 64 <= u32::MAX,
        4 * cw <= u32::MAX,
        4 * cw * ch <= usize::MAX,
    ensures
        forall|c: int| 0 <= c < rects.len() ==> plan_fits(#[trigger] rects[c], cw, ch),
{
    assert forall|c: int| 0 <= c < rects.len() implies plan_fits(#[trigger] rects[c], cw, ch) by {
        let r = rects[c];
        if r.dirty {
            lemma_plan_fields_fit(r, cw, ch);
            let pw = pad_width(r, cw);
            let hh = ex_height(r, ch);
            assert(4 * pw * hh <= 4 * cw * ch) by (nonlinear_arith)
                requires 0 <= pw <= cw, 0 <= hh <= ch;
            assert(ex_max_x(r, cw) <= cw);
        }
    }
}

/// Every planned upload is the upload plan of one of the planned chunks.
proof fn lemma_planned_entry(rects: Seq<DirtyRect>, cw: int, ch: int, k: int, i: int)
    requires
        0 <= i < planned(rects, cw, ch, k).len(),
    ensures
        0 <= planned(rects, cw, ch, k)[i].0 < k,
        upload_plan(rects[planned(rects, cw, ch, k)[i].0], cw, ch) == Some(
            (planned(rects, cw, ch, k)[i].1, planned(rects, cw, ch, k)[i].2),
        ),
    decreases k,
{
    if k > 0 {
        let prev = planned(rects, cw, ch, k - 1);
        if i < prev.len() {
            lemma_planned_entry(rects, cw, ch, k - 1, i);
            assert(planned(rects, cw, ch, k)[i] == prev[i]);
        }
    }
}

/// Every chunk with something to upload has its upload in the plan, and the
/// plan lists chunks in increasing order.
pub proof fn lemma_planned_contains(rects: Seq<DirtyRect>, cw: int, ch: int, k: int, c: int)
    requires
        0 <= c < k <= rects.len(),
        upload_plan(rects[c], cw, ch) is Some,
    ensures
        exists|i: int|
            0 <= i < planned(rects, cw, ch, k).len() && #[trigger] planned(rects, cw, ch, k)[i] == (
                c,
                upload_plan(rects[c], cw, ch).unwrap().0,
                upload_plan(rects[c], cw, ch).unwrap().1,
            ),
    decreases k,
{
    let prev = planned(rects, cw, ch, k - 1);
    if c < k - 1 {
        lemma_planned_contains(rects, cw, ch, k - 1, c);
        let i = choose|i: int|
            0 <= i < prev.len() && #[trigger] prev[i] == (
                c,
                upload_plan(rects[c], cw, ch).unwrap().0,
                upload_plan(rects[c], cw, ch).unwrap().1,
            );
        assert(planned(rects, cw, ch, k)[i] == prev[i]);
    } else {
        let i = prev.len() as int;
        assert(planned(rects, cw, ch, k)[i] == (
            c,
            upload_plan(rects[c], cw, ch).unwrap().0,
            upload_plan(rects[c], cw, ch).unwrap().1,
        ));
    }
}

} // verus!
