use arc::chunks::CanvasCpuChunks;
use arc::config::CanvasConfig;
use arc::dirty::CanvasDirtyRects;
use arc::messages::{DrawPixel, DrawRect, DrawSpan};
use arc::systems::{canvas_storage, collect_ops, initial_chunk_rgba};
use arc::torus::split_torus_rect;
use arc::types::{ChunkKey, DirtyRect, UVec2};
use arc::upload::{CanvasImageHandles, CanvasUploadOps};

fn pixel(cpu: &CanvasCpuChunks, x: u32, y: u32) -> u32 {
    let (nx, _) = cpu.num_chunks();
    let (cw, ch) = cpu.chunk_size();
    let chunk = (y / ch) as usize * nx as usize + (x / cw) as usize;
    cpu.chunk(chunk)[((y % ch) * cw + x % cw) as usize]
}

#[test]
fn default_config_values() {
    let config = CanvasConfig::default();
    assert_eq!(config.clear_colour, [255, 255, 255, 255]);
    assert_eq!(config.canvas_size, (800, 600));
    assert_eq!(config.num_chunks, (8, 6));
    assert_eq!(config.chunk_size(), (100, 100));
    assert_eq!(config.pixels_per_chunk(), 10000);
    assert_eq!(config.total_chunks(), 48);
}

#[test]
fn new_config_keeps_fields() {
    let config = CanvasConfig::new([1, 2, 3, 4], 0, (128, 64), (2, 1));
    assert_eq!(config.clear_colour(), &[1, 2, 3, 4]);
    assert_eq!(config.canvas_size(), (128, 64));
    assert_eq!(config.num_chunks(), (2, 1));
    assert_eq!(config.chunk_size(), (64, 64));
}

#[test]
fn split_torus_rect_wraps_both_axes() {
    let (pieces, n) = split_torus_rect(UVec2::new(6, 7), UVec2::new(4, 3), UVec2::new(8, 8));
    assert_eq!(n, 4);
    assert_eq!(pieces[0].dst_start, UVec2::new(6, 7));
    assert_eq!(pieces[0].size, UVec2::new(2, 1));
    assert_eq!(pieces[1].dst_start, UVec2::new(0, 7));
    assert_eq!(pieces[1].src_start, UVec2::new(2, 0));
    assert_eq!(pieces[2].dst_start, UVec2::new(6, 0));
    assert_eq!(pieces[2].src_start, UVec2::new(0, 1));
    assert_eq!(pieces[3].dst_start, UVec2::new(0, 0));
    assert_eq!(pieces[3].size, UVec2::new(2, 2));
}

#[test]
fn split_torus_rect_empty() {
    let (_, n) = split_torus_rect(UVec2::new(1, 1), UVec2::new(0, 3), UVec2::new(8, 8));
    assert_eq!(n, 0);
}

#[test]
fn dirty_rects_mark_and_take() {
    let mut dirty = CanvasDirtyRects::new((2, 2));
    assert_eq!(dirty.len(), 4);
    dirty.mark_rect(&ChunkKey(1, 0), UVec2::new(3, 4), UVec2::new(2, 2));
    dirty.mark_rect(&ChunkKey(1, 0), UVec2::new(1, 6), UVec2::new(1, 1));
    assert_eq!(dirty.take(1), Some((UVec2::new(1, 4), UVec2::new(4, 6))));
    assert_eq!(dirty.take(1), None);
    assert_eq!(dirty.take(0), None);
}

#[test]
fn collect_ops_draws_and_uploads() {
    let config = CanvasConfig::new([0, 0, 0, 255], 0, (128, 64), (2, 1));
    let (mut cpu, mut dirty) = canvas_storage(&config);
    let handles = CanvasImageHandles::new((2, 1), vec![10u32, 20u32]);
    let mut ops = CanvasUploadOps::new();
    let pixels = vec![DrawPixel { pos: UVec2::new(130, 3), rgba_u32: 7 }];
    let rects = vec![DrawRect { start: UVec2::new(127, 63), size: UVec2::new(2, 2), rgba_u32: vec![1, 2, 3, 4] }];
    let spans = vec![DrawSpan { start: UVec2::new(126, 10), rgba_u32: vec![8, 9, 10] }];
    collect_ops(&config, &pixels, &rects, &spans, &handles, &mut cpu, &mut dirty, &mut ops);
    assert_eq!(pixel(&cpu, 2, 3), 7);
    assert_eq!(pixel(&cpu, 127, 63), 1);
    assert_eq!(pixel(&cpu, 0, 63), 2);
    assert_eq!(pixel(&cpu, 127, 0), 3);
    assert_eq!(pixel(&cpu, 0, 0), 4);
    assert_eq!(pixel(&cpu, 126, 10), 8);
    assert_eq!(pixel(&cpu, 127, 10), 9);
    assert_eq!(pixel(&cpu, 0, 11), 10);
    assert_eq!(ops.ops.len(), 2);
    assert_eq!(ops.ops[0].handle, 10);
    assert_eq!(ops.ops[1].handle, 20);
    for op in &ops.ops {
        assert_eq!(op.bytes_per_row % 256, 0);
        assert_eq!(op.bytes.len(), (op.bytes_per_row * op.size.y) as usize);
    }
    for i in 0..dirty.len() {
        assert_eq!(dirty.take(i), None);
    }
}

#[test]
fn initial_chunk_is_clear_colour() {
    let config = CanvasConfig::new([1, 2, 3, 4], 0, (4, 2), (2, 1));
    let data = initial_chunk_rgba(&config);
    assert_eq!(data, vec![1, 2, 3, 4, 1, 2, 3, 4, 1, 2, 3, 4, 1, 2, 3, 4]);
}

#[test]
fn dirty_rect_default_is_clean() {
    let r = DirtyRect::default();
    assert!(!r.dirty);
}

#[test]
fn drawn_pixel_bytes_reach_upload() {
    let config = CanvasConfig::new([0, 0, 0, 0], 0, (128, 64), (2, 1));
    let (mut cpu, mut dirty) = canvas_storage(&config);
    let handles = CanvasImageHandles::new((2, 1), vec![1u8, 2u8]);
    let mut ops = CanvasUploadOps::new();
    let pixels = vec![DrawPixel { pos: UVec2::new(70, 5), rgba_u32: 0x11223344 }];
    collect_ops(&config, &pixels, &[], &[], &handles, &mut cpu, &mut dirty, &mut ops);
    assert_eq!(ops.ops.len(), 1);
    let op = &ops.ops[0];
    assert_eq!(op.handle, 2);
    assert_eq!(op.start, UVec2::new(0, 5));
    assert_eq!(op.size, UVec2::new(64, 1));
    let j = ((5 - op.start.y) * op.size.x + (6 - op.start.x)) as usize;
    assert_eq!(&op.bytes[4 * j..4 * j + 4], &0x11223344u32.to_ne_bytes());
}

#[test]
fn rect_with_wrong_pixel_count_is_skipped() {
    let config = CanvasConfig::new([0, 0, 0, 0], 0, (128, 64), (2, 1));
    let (mut cpu, mut dirty) = canvas_storage(&config);
    let handles = CanvasImageHandles::new((2, 1), vec![1u8, 2u8]);
    let mut ops = CanvasUploadOps::new();
    let rects = vec![
        DrawRect { start: UVec2::new(1, 1), size: UVec2::new(2, 2), rgba_u32: vec![5, 5, 5] },
        DrawRect { start: UVec2::new(1, 1), size: UVec2::new(0, 2), rgba_u32: vec![] },
    ];
    collect_ops(&config, &[], &rects, &[], &handles, &mut cpu, &mut dirty, &mut ops);
    assert_eq!(ops.ops.len(), 0);
    assert_eq!(pixel(&cpu, 1, 1), 0);
}

#[test]
fn later_messages_draw_over_earlier_ones() {
    let config = CanvasConfig::new([0, 0, 0, 0], 0, (128, 64), (2, 1));
    let (mut cpu, mut dirty) = canvas_storage(&config);
    let handles = CanvasImageHandles::new((2, 1), vec![1u8, 2u8]);
    let mut ops = CanvasUploadOps::new();
    // Pixels first, then rects, then spans.
    let pixels = vec![DrawPixel { pos: UVec2::new(3, 3), rgba_u32: 1 }, DrawPixel { pos: UVec2::new(4, 3), rgba_u32: 1 }];
    let rects = vec![DrawRect { start: UVec2::new(3, 3), size: UVec2::new(1, 1), rgba_u32: vec![2] }];
    let spans = vec![DrawSpan { start: UVec2::new(4, 3), rgba_u32: vec![3] }];
    collect_ops(&config, &pixels, &rects, &spans, &handles, &mut cpu, &mut dirty, &mut ops);
    assert_eq!(pixel(&cpu, 3, 3), 2);
    assert_eq!(pixel(&cpu, 4, 3), 3);
    assert_eq!(ops.ops.len(), 1);
    assert_eq!(ops.ops[0].start, UVec2::new(0, 3));
    assert_eq!(ops.ops[0].size, UVec2::new(64, 1));
}
