use arc::blit::{blit_pixel, blit_rect_torus_into_chunks, blit_span_row_major, blit_subrect_into_chunks};
use arc::chunks::CanvasCpuChunks;
use arc::dirty::CanvasDirtyRects;
use arc::types::{ChunkKey, SubRect, UVec2};
use arc::upload::{build_upload_ops, CanvasImageHandles, CanvasUploadOps};

// An 8 x 4 canvas cut into 2 x 2 chunks of 4 x 2 pixels.
fn small_canvas() -> (CanvasCpuChunks, CanvasDirtyRects, UVec2, UVec2) {
    let cpu = CanvasCpuChunks::new((2, 2), (4, 2), 0);
    let dirty = CanvasDirtyRects::new((2, 2));
    (cpu, dirty, UVec2::new(8, 4), UVec2::new(4, 2))
}

fn pixel(cpu: &CanvasCpuChunks, x: u32, y: u32) -> u32 {
    let (nx, _) = cpu.num_chunks();
    let (cw, ch) = cpu.chunk_size();
    let chunk = (y / ch) as usize * nx as usize + (x / cw) as usize;
    cpu.chunk(chunk)[((y % ch) * cw + x % cw) as usize]
}

fn count_painted(cpu: &CanvasCpuChunks) -> usize {
    let (nx, ny) = cpu.num_chunks();
    let mut n = 0;
    for c in 0..(nx as usize * ny as usize) {
        n += cpu.chunk(c).iter().filter(|&&p| p != 0).count();
    }
    n
}

#[test]
fn blit_pixel_wraps_and_marks_one_cell() {
    let (mut cpu, mut dirty, canvas, chunk) = small_canvas();
    blit_pixel(&mut cpu, &mut dirty, canvas, chunk, UVec2::new(9, 5), 42);
    assert_eq!(pixel(&cpu, 1, 1), 42);
    assert_eq!(count_painted(&cpu), 1);
    assert_eq!(dirty.take(0), Some((UVec2::new(1, 1), UVec2::new(1, 1))));
    for c in 1..4 {
        assert_eq!(dirty.take(c), None);
    }
}

#[test]
fn blit_pixel_later_write_wins() {
    let (mut cpu, mut dirty, canvas, chunk) = small_canvas();
    blit_pixel(&mut cpu, &mut dirty, canvas, chunk, UVec2::new(5, 2), 1);
    blit_pixel(&mut cpu, &mut dirty, canvas, chunk, UVec2::new(13, 6), 2);
    assert_eq!(pixel(&cpu, 5, 2), 2);
    assert_eq!(dirty.take(3), Some((UVec2::new(1, 0), UVec2::new(1, 0))));
}

#[test]
fn blit_rect_wraps_into_four_corners() {
    let (mut cpu, mut dirty, canvas, chunk) = small_canvas();
    blit_rect_torus_into_chunks(&mut cpu, &mut dirty, UVec2::new(7, 3), UVec2::new(2, 2), &[1, 2, 3, 4], canvas, chunk);
    assert_eq!(pixel(&cpu, 7, 3), 1);
    assert_eq!(pixel(&cpu, 0, 3), 2);
    assert_eq!(pixel(&cpu, 7, 0), 3);
    assert_eq!(pixel(&cpu, 0, 0), 4);
    assert_eq!(count_painted(&cpu), 4);
    assert_eq!(dirty.take(0), Some((UVec2::new(0, 0), UVec2::new(0, 0))));
    assert_eq!(dirty.take(1), Some((UVec2::new(3, 0), UVec2::new(3, 0))));
    assert_eq!(dirty.take(2), Some((UVec2::new(0, 1), UVec2::new(0, 1))));
    assert_eq!(dirty.take(3), Some((UVec2::new(3, 1), UVec2::new(3, 1))));
}

#[test]
fn blit_rect_inside_one_chunk_marks_its_bounding_box() {
    let (mut cpu, mut dirty, canvas, chunk) = small_canvas();
    blit_rect_torus_into_chunks(&mut cpu, &mut dirty, UVec2::new(1, 0), UVec2::new(3, 2), &[1, 2, 3, 4, 5, 6], canvas, chunk);
    assert_eq!(pixel(&cpu, 1, 0), 1);
    assert_eq!(pixel(&cpu, 3, 0), 3);
    assert_eq!(pixel(&cpu, 1, 1), 4);
    assert_eq!(pixel(&cpu, 3, 1), 6);
    assert_eq!(dirty.take(0), Some((UVec2::new(1, 0), UVec2::new(3, 1))));
    assert_eq!(dirty.take(1), None);
}

#[test]
fn blit_rect_empty_changes_nothing() {
    let (mut cpu, mut dirty, canvas, chunk) = small_canvas();
    blit_rect_torus_into_chunks(&mut cpu, &mut dirty, UVec2::new(1, 1), UVec2::new(0, 2), &[], canvas, chunk);
    assert_eq!(count_painted(&cpu), 0);
    for c in 0..4 {
        assert_eq!(dirty.take(c), None);
    }
}

#[test]
fn blit_subrect_spans_chunks() {
    let (mut cpu, mut dirty, _canvas, chunk) = small_canvas();
    let src: Vec<u32> = (1..=12).collect();
    let sub = SubRect { src_start: UVec2::new(1, 0), dst_start: UVec2::new(3, 1), size: UVec2::new(2, 2) };
    blit_subrect_into_chunks(&mut cpu, &mut dirty, UVec2::new(4, 3), &src, sub, chunk);
    // Source rows are 4 long: (1,0) -> 2, (2,0) -> 3, (1,1) -> 6, (2,1) -> 7.
    assert_eq!(pixel(&cpu, 3, 1), 2);
    assert_eq!(pixel(&cpu, 4, 1), 3);
    assert_eq!(pixel(&cpu, 3, 2), 6);
    assert_eq!(pixel(&cpu, 4, 2), 7);
    assert_eq!(count_painted(&cpu), 4);
    assert_eq!(dirty.take(0), Some((UVec2::new(3, 1), UVec2::new(3, 1))));
    assert_eq!(dirty.take(1), Some((UVec2::new(0, 1), UVec2::new(0, 1))));
    assert_eq!(dirty.take(2), Some((UVec2::new(3, 0), UVec2::new(3, 0))));
    assert_eq!(dirty.take(3), Some((UVec2::new(0, 0), UVec2::new(0, 0))));
}

#[test]
fn blit_span_runs_on_to_next_row() {
    let (mut cpu, mut dirty, canvas, chunk) = small_canvas();
    blit_span_row_major(&mut cpu, &mut dirty, canvas, chunk, UVec2::new(6, 1), &[1, 2, 3, 4]);
    assert_eq!(pixel(&cpu, 6, 1), 1);
    assert_eq!(pixel(&cpu, 7, 1), 2);
    assert_eq!(pixel(&cpu, 0, 2), 3);
    assert_eq!(pixel(&cpu, 1, 2), 4);
    assert_eq!(count_painted(&cpu), 4);
    assert_eq!(dirty.take(0), None);
    assert_eq!(dirty.take(1), Some((UVec2::new(2, 1), UVec2::new(3, 1))));
    assert_eq!(dirty.take(2), Some((UVec2::new(0, 0), UVec2::new(1, 0))));
    assert_eq!(dirty.take(3), None);
}

#[test]
fn blit_span_wraps_from_last_pixel_to_first() {
    let (mut cpu, mut dirty, canvas, chunk) = small_canvas();
    blit_span_row_major(&mut cpu, &mut dirty, canvas, chunk, UVec2::new(15, 7), &[5, 6]);
    assert_eq!(pixel(&cpu, 7, 3), 5);
    assert_eq!(pixel(&cpu, 0, 0), 6);
    assert_eq!(dirty.take(3), Some((UVec2::new(3, 1), UVec2::new(3, 1))));
    assert_eq!(dirty.take(0), Some((UVec2::new(0, 0), UVec2::new(0, 0))));
}

#[test]
fn blit_span_longer_than_canvas_keeps_last_pixels() {
    let (mut cpu, mut dirty, canvas, chunk) = small_canvas();
    let src: Vec<u32> = (1..=33).collect();
    blit_span_row_major(&mut cpu, &mut dirty, canvas, chunk, UVec2::new(0, 0), &src);
    // Pixel 33 lands back on (0, 0); the rest hold 2..=32.
    assert_eq!(pixel(&cpu, 0, 0), 33);
    assert_eq!(pixel(&cpu, 1, 0), 2);
    assert_eq!(pixel(&cpu, 7, 3), 32);
    assert_eq!(dirty.take(0), Some((UVec2::new(0, 0), UVec2::new(3, 1))));
}

#[test]
fn blit_span_empty_changes_nothing() {
    let (mut cpu, mut dirty, canvas, chunk) = small_canvas();
    blit_span_row_major(&mut cpu, &mut dirty, canvas, chunk, UVec2::new(3, 3), &[]);
    assert_eq!(count_painted(&cpu), 0);
    assert_eq!(dirty.take(0), None);
}

#[test]
fn upload_ops_pad_to_64_pixels() {
    let mut cpu = CanvasCpuChunks::new((1, 1), (128, 4), 0);
    let mut dirty = CanvasDirtyRects::new((1, 1));
    let handles = CanvasImageHandles::new((1, 1), vec![7u8]);
    let mut ops = CanvasUploadOps::new();
    let canvas = UVec2::new(128, 4);
    let chunk = UVec2::new(128, 4);
    blit_rect_torus_into_chunks(&mut cpu, &mut dirty, UVec2::new(70, 1), UVec2::new(3, 2), &[1, 2, 3, 4, 5, 6], canvas, chunk);
    build_upload_ops(&handles, &cpu, &mut dirty, &mut ops, chunk);
    assert_eq!(ops.ops.len(), 1);
    let op = &ops.ops[0];
    assert_eq!(op.handle, 7);
    assert_eq!(op.start, UVec2::new(64, 1));
    assert_eq!(op.size, UVec2::new(64, 2));
    assert_eq!(op.bytes_per_row, 256);
    assert_eq!(op.bytes.len(), 512);
    // Pixel (70, 1) is the 7th of the first row of the region.
    assert_eq!(&op.bytes[24..28], &1u32.to_ne_bytes());
    assert_eq!(&op.bytes[256 + 32..256 + 36], &6u32.to_ne_bytes());
    assert_eq!(dirty.take(0), None);
}

#[test]
fn upload_ops_skip_clean_chunks() {
    // A 128 x 4 canvas cut into 2 x 2 chunks of 64 x 2 pixels.
    let mut cpu = CanvasCpuChunks::new((2, 2), (64, 2), 0);
    let mut dirty = CanvasDirtyRects::new((2, 2));
    let handles = CanvasImageHandles::new((2, 2), vec![0u8, 1, 2, 3]);
    let mut ops = CanvasUploadOps::new();
    let canvas = UVec2::new(128, 4);
    let chunk = UVec2::new(64, 2);
    blit_pixel(&mut cpu, &mut dirty, canvas, chunk, UVec2::new(66, 3), 9);
    build_upload_ops(&handles, &cpu, &mut dirty, &mut ops, chunk);
    assert_eq!(ops.ops.len(), 1);
    assert_eq!(ops.ops[0].handle, 3);
    assert_eq!(ops.ops[0].start, UVec2::new(0, 1));
    assert_eq!(ops.ops[0].size, UVec2::new(64, 1));
    assert_eq!(ops.ops[0].bytes_per_row, 256);
    assert_eq!(&ops.ops[0].bytes[8..12], &9u32.to_ne_bytes());
    for c in 0..4 {
        assert_eq!(dirty.take(c), None);
    }
}

#[test]
fn chunks_set_pixel_and_write_run() {
    let mut cpu = CanvasCpuChunks::new((2, 1), (3, 2), 5);
    assert_eq!(cpu.chunk(1), &[5, 5, 5, 5, 5, 5]);
    cpu.set_pixel(&ChunkKey(1, 0), 4, 8);
    assert_eq!(cpu.chunk(1), &[5, 5, 5, 5, 8, 5]);
    cpu.write_run(&ChunkKey(0, 0), 1, &[1, 2, 3, 4], 1, 3);
    assert_eq!(cpu.chunk(0), &[5, 2, 3, 4, 5, 5]);
}

#[test]
fn image_handles_by_chunk() {
    let handles = CanvasImageHandles::new((2, 1), vec![String::from("a"), String::from("b")]);
    assert_eq!(handles.len(), 2);
    assert_eq!(handles.handle(1), "b");
}
