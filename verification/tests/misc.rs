use arc::camera::{pan_direction, zoom_direction};
use arc::config::CanvasConfig;
use arc::fps::toggle_fps_display;
use arc::random::SeededRng;
use arc::systems::{canvas_storage, pack_rgba8};
use rand::RngCore;

#[test]
fn toggle_flips_per_message() {
    let mut on = false;
    let mut graph = false;
    toggle_fps_display(&mut on, &mut graph, 3);
    assert!(on && graph);
    toggle_fps_display(&mut on, &mut graph, 4);
    assert!(on && graph);
    toggle_fps_display(&mut on, &mut graph, 1);
    assert!(!on && !graph);
    toggle_fps_display(&mut on, &mut graph, 0);
    assert!(!on && !graph);
}

#[test]
fn zoom_keys() {
    assert_eq!(zoom_direction(true, false), 1);
    assert_eq!(zoom_direction(false, true), -1);
    assert_eq!(zoom_direction(true, true), 0);
    assert_eq!(zoom_direction(false, false), 0);
}

#[test]
fn pan_keys() {
    assert_eq!(pan_direction(true, false, false, true), (1, 1));
    assert_eq!(pan_direction(false, true, true, false), (-1, -1));
    assert_eq!(pan_direction(true, true, true, true), (0, 0));
}

#[test]
fn seeded_rng_keeps_its_seed_and_repeats() {
    let mut a = SeededRng::new(42);
    let mut b = SeededRng::new(42);
    assert_eq!(a.seed(), 42);
    let xs: Vec<u64> = (0..4).map(|_| a.rng().next_u64()).collect();
    let ys: Vec<u64> = (0..4).map(|_| b.rng().next_u64()).collect();
    assert_eq!(xs, ys);
    assert_eq!(a.seed(), 42);
    let mut c = SeededRng::new(43);
    assert_ne!(c.rng().next_u64(), xs[0]);
}

#[test]
fn default_rng_can_be_replayed_from_its_seed() {
    let mut a = SeededRng::default();
    let mut b = SeededRng::new(a.seed());
    assert_eq!(a.rng().next_u64(), b.rng().next_u64());
}

#[test]
fn pack_rgba8_keeps_bytes_in_memory_order() {
    let p = pack_rgba8([1, 2, 3, 4]);
    assert_eq!(p.to_ne_bytes(), [1, 2, 3, 4]);
    assert!(p == 0x04030201 || p == 0x01020304);
}

#[test]
fn new_canvas_is_clear_and_clean() {
    let config = CanvasConfig::new([9, 8, 7, 6], 3, (6, 4), (3, 2));
    let (cpu, mut dirty) = canvas_storage(&config);
    assert_eq!(cpu.num_chunks(), (3, 2));
    assert_eq!(cpu.chunk_size(), (2, 2));
    let clear = pack_rgba8([9, 8, 7, 6]);
    for c in 0..6 {
        assert!(cpu.chunk(c).iter().all(|&p| p == clear));
        assert_eq!(dirty.take(c), None);
    }
    assert_eq!(config.canvas_z_index_bits(), 3);
}
