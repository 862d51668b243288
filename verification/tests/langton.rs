use arc::langton::{move_turmite, state_to_colour, step_turmite, transition, Memory, Turmite, BOARD_WIDTH};
use arc::types::{IVec2, UVec2};

#[test]
fn transition_table() {
    assert_eq!(transition(0, 0), (IVec2 { x: 1, y: 0 }, 1, 1));
    assert_eq!(transition(1, 0), (IVec2 { x: 0, y: -1 }, 2, 1));
    assert_eq!(transition(2, 0), (IVec2 { x: -1, y: 0 }, 3, 1));
    assert_eq!(transition(3, 0), (IVec2 { x: 0, y: 1 }, 0, 1));
    assert_eq!(transition(0, 1), (IVec2 { x: -1, y: 0 }, 3, 0));
    assert_eq!(transition(1, 1), (IVec2 { x: 0, y: 1 }, 0, 0));
    assert_eq!(transition(2, 1), (IVec2 { x: 1, y: 0 }, 1, 0));
    assert_eq!(transition(3, 1), (IVec2 { x: 0, y: -1 }, 2, 0));
}

#[test]
fn turning_right_then_left_restores_state() {
    for s in 0..4u8 {
        let (_, r, _) = transition(s, 0);
        let (_, back, _) = transition(r, 1);
        assert_eq!(back, s);
    }
}

#[test]
fn colours_of_cells() {
    assert_eq!(state_to_colour(0), Some(0xffffffff));
    assert_eq!(state_to_colour(1), Some(0xff000000));
    assert_eq!(state_to_colour(2), None);
}

#[test]
fn memory_read_after_write() {
    let mut memory = Memory::default();
    assert_eq!(memory.data.len(), (BOARD_WIDTH * BOARD_WIDTH) as usize);
    memory.write(UVec2::new(3, 9), 1);
    assert_eq!(memory.read(UVec2::new(3, 9)), 1);
    assert_eq!(memory.read(UVec2::new(9, 3)), 0);
}

#[test]
fn step_flips_cell_and_moves() {
    let mut memory = Memory::default();
    let mut ant = Turmite { pos: UVec2::new(10, 10), state: 0 };
    let px = step_turmite(&mut ant, &mut memory);
    assert_eq!(px.pos, UVec2::new(10, 10));
    assert_eq!(px.rgba_u32, 0xff000000);
    assert_eq!(memory.read(UVec2::new(10, 10)), 1);
    assert_eq!(ant, Turmite { pos: UVec2::new(11, 10), state: 1 });
}

#[test]
fn step_wraps_at_right_edge() {
    let mut memory = Memory::default();
    let mut ant = Turmite { pos: UVec2::new(4095, 5), state: 0 };
    step_turmite(&mut ant, &mut memory);
    assert_eq!(ant.pos, UVec2::new(0, 5));
}

#[test]
fn step_wraps_at_left_and_bottom_edge() {
    let mut memory = Memory::default();
    let mut ant = Turmite { pos: UVec2::new(0, 5), state: 2 };
    step_turmite(&mut ant, &mut memory);
    assert_eq!(ant, Turmite { pos: UVec2::new(4095, 5), state: 3 });
    let mut ant = Turmite { pos: UVec2::new(7, 0), state: 1 };
    step_turmite(&mut ant, &mut memory);
    assert_eq!(ant, Turmite { pos: UVec2::new(7, 4095), state: 2 });
}

#[test]
fn four_steps_walk_a_square() {
    let mut memory = Memory::default();
    let mut ant = Turmite { pos: UVec2::new(100, 100), state: 0 };
    let pixels = move_turmite(&mut ant, &mut memory, 4);
    let cells: Vec<UVec2> = pixels.iter().map(|p| p.pos).collect();
    assert_eq!(
        cells,
        vec![UVec2::new(100, 100), UVec2::new(101, 100), UVec2::new(101, 99), UVec2::new(100, 99)]
    );
    assert!(pixels.iter().all(|p| p.rgba_u32 == 0xff000000));
    assert_eq!(ant, Turmite { pos: UVec2::new(100, 100), state: 0 });
    // The fifth step finds a black cell: it turns left and whitens it.
    let more = move_turmite(&mut ant, &mut memory, 1);
    assert_eq!(more[0].rgba_u32, 0xffffffff);
    assert_eq!(ant, Turmite { pos: UVec2::new(99, 100), state: 3 });
    assert_eq!(memory.read(UVec2::new(100, 100)), 0);
}

#[test]
fn zero_steps_change_nothing() {
    let mut memory = Memory::default();
    let mut ant = Turmite { pos: UVec2::new(1, 2), state: 3 };
    let pixels = move_turmite(&mut ant, &mut memory, 0);
    assert!(pixels.is_empty());
    assert_eq!(ant, Turmite { pos: UVec2::new(1, 2), state: 3 });
}

#[test]
fn a_step_can_be_undone() {
    let mut memory = Memory::default();
    memory.write(UVec2::new(4095, 0), 1);
    let start = Turmite { pos: UVec2::new(4095, 0), state: 1 };
    let mut ant = start;
    step_turmite(&mut ant, &mut memory);
    // Undo: step back against the new heading, flip the cell back, and turn back.
    let (d, _, _) = transition((ant.state + 1) % 4, 1);
    let (d2, _, _) = transition((ant.state + 3) % 4, 0);
    assert_eq!(d, d2);
    let back_x = ((ant.pos.x as i64 - d.x as i64).rem_euclid(4096)) as u32;
    let back_y = ((ant.pos.y as i64 - d.y as i64).rem_euclid(4096)) as u32;
    let cell = UVec2::new(back_x, back_y);
    let before = 1 - memory.read(cell);
    let state = if before == 0 { (ant.state + 3) % 4 } else { (ant.state + 1) % 4 };
    assert_eq!(Turmite { pos: cell, state }, start);
    assert_eq!(before, 1);
}
