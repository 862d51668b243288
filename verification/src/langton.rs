use vstd::prelude::*;

use crate::messages::DrawPixel;
use crate::types::{IVec2, UVec2};

verus! {

/// Width of the turmite's board, in cells.
pub const BOARD_WIDTH: u32 = 4096;

/// Height of the turmite's board, in cells.
pub const BOARD_HEIGHT: u32 = 4096;

/// Index of cell `coord` in the row-major board memory.
pub open spec fn board_index(coord: UVec2) -> int {
    (coord.y as int) * (BOARD_WIDTH as int) + (coord.x as int)
}

/// The board's cells, row by row, one byte per cell.
pub struct Memory {
    pub data: Vec<u8>,
}

impl Default for Memory {
    fn default() -> (r: Self)
        ensures
            r.data@.len() == BOARD_WIDTH * BOARD_HEIGHT,
            forall|i: int| 0 <= i < r.data@.len() ==> #[trigger] r.data@[i] == 0,
    {
        Self { data: vec![0u8; 16777216] }
    }
}

impl Memory {
    pub fn read(&self, coord: UVec2) -> (r: u8)
        requires
            board_index(coord) < self.data.len(),
        ensures
            r == self.data@[board_index(coord)],
    {
        let index = coord.y as usize * BOARD_WIDTH as usize + coord.x as usize;
        self.data[index]
    }

    pub fn write(&mut self, coord: UVec2, value: u8)
        requires
            board_index(coord) < old(self).data.len(),
        ensures
            final(self).data@ == old(self).data@.update(board_index(coord), value),
    {
        let index = coord.y as usize * BOARD_WIDTH as usize + coord.x as usize;
        self.data.set(index, value);
    }
}

/// A turmite walking the board: where it is and which way it faces
/// (0 north, 1 east, 2 south, 3 west).
#[derive(Clone, Copy, Debug, PartialEq, Eq, Structural)]
pub struct Turmite {
    pub pos: UVec2,
    pub state: u8,
}

/// The heading a turmite in `state` moves along: north is up.
pub open spec fn heading(state: u8) -> IVec2 {
    if state == 0 {
        IVec2 { x: 0, y: 1 }
    } else if state == 1 {
        IVec2 { x: 1, y: 0 }
    } else if state == 2 {
        IVec2 { x: 0, y: -1i32 }
    } else {
        IVec2 { x: -1i32, y: 0 }
    }
}

/// The state after reading `input`: turn right on 0, left on 1.
pub open spec fn turn(state: u8, input: u8) -> u8 {
    if input == 0 {
        ((state + 1) % 4) as u8
    } else {
        ((state + 3) % 4) as u8
    }
}

/// The 2-state turmite's rule (Langton's ant): on a 0 cell turn right, on a 1
/// cell turn left; flip the cell; step one cell along the new heading.
/// Returns the step, the new state and the value to write.
pub fn transition(state: u8, input: u8) -> (r: (IVec2, u8, u8))
    requires
        state < 4,
        input < 2,
    ensures
        r.1 == turn(state, input),
        r.1 < 4,
        r.0 == heading(r.1),
        r.2 == 1 - input,
{
    match (state, input) {
        (0, 0) => (IVec2 { x: 1, y: 0 }, 1, 1),
        (1, 0) => (IVec2 { x: 0, y: -1 }, 2, 1),
        (2, 0) => (IVec2 { x: -1, y: 0 }, 3, 1),
        (3, 0) => (IVec2 { x: 0, y: 1 }, 0, 1),
        (0, _) => (IVec2 { x: -1, y: 0 }, 3, 0),
        (3, _) => (IVec2 { x: 0, y: -1 }, 2, 0),
        (2, _) => (IVec2 { x: 1, y: 0 }, 1, 0),
        (_, _) => (IVec2 { x: 0, y: 1 }, 0, 0),
    }
}

/// The colour a cell value is drawn in: white for 0, black for 1. Other values
/// take a hue computed in floating point, which is not done here: `None`.
pub fn state_to_colour(state: u8) -> (r: Option<u32>)
    ensures
        r == cell_colour(state),
{
    match state {
        0 => Some(0xffffffffu32),
        1 => Some(0xff000000u32),
        _ => None,
    }
}

pub open spec fn cell_colour(state: u8) -> Option<u32> {
    if state == 0 {
        Some(0xffffffffu32)
    } else if state == 1 {
        Some(0xff000000u32)
    } else {
        None
    }
}

/// `c + d` wrapped onto `0 .. n` (Euclidean remainder).
pub open spec fn wrap_add(c: u32, d: i32, n: u32) -> u32 {
    ((c as int + d as int) % (n as int)) as u32
}

/// Moves `c` by `d` in -1..=1 on a ring of `n` cells.
fn wrap_step(c: u32, d: i32, n: u32) -> (r: u32)
    requires
        0 < n <= BOARD_WIDTH,
        -1 <= d <= 1,
    ensures
        r == wrap_add(c, d, n),
        r < n,
{
    let base = c % n + n;
    let moved = if d < 0 {
        base - 1
    } else if d > 0 {
        base + 1
    } else {
        base
    };
    proof {
        let ci = c as int;
        let ni = n as int;
        vstd::arithmetic::div_mod::lemma_fundamental_div_mod(ci, ni);
        vstd::arithmetic::div_mod::lemma_mod_pos_bound(ci, ni);
        let m = moved as int;
        assert(m == ci % ni + ni + d);
        let q = ci / ni;
        vstd::arithmetic::div_mod::lemma_mod_multiples_vanish(q - 1, m, ni);
        assert(ni * (q - 1) + m == ci + d) by (nonlinear_arith)
            requires ci == ni * q + ci % ni, m == ci % ni + ni + d;
        vstd::arithmetic::div_mod::lemma_mod_pos_bound(m, ni);
    }
    moved % n
}

/// Where a turmite at `pos` ends up after stepping along `heading(state)`,
/// wrapped around the board.
pub open spec fn next_pos(pos: UVec2, state: u8) -> UVec2 {
    UVec2 {
        x: wrap_add(pos.x, heading(state).x, BOARD_WIDTH),
        y: wrap_add(pos.y, heading(state).y, BOARD_HEIGHT),
    }
}

/// One step of turmite `t` on board memory `mem`: the turmite after it, the
/// memory after it, and the pixel drawn for the cell it left.
pub open spec fn step_spec(t: Turmite, mem: Seq<u8>) -> (Turmite, Seq<u8>, DrawPixel) {
    let input = mem[board_index(t.pos)];
    let state = turn(t.state, input);
    let output = (1 - input) as u8;
    (
        Turmite { pos: next_pos(t.pos, state), state },
        mem.update(board_index(t.pos), output),
        DrawPixel { pos: t.pos, rgba_u32: cell_colour(output).unwrap() },
    )
}

/// Every cell of `mem` holds 0 or 1.
pub open spec fn binary(mem: Seq<u8>) -> bool {
    forall|i: int| 0 <= i < mem.len() ==> #[trigger] mem[i] < 2
}

/// Turmite `t` can step on a full board `mem` of binary cells.
pub open spec fn ready(t: Turmite, mem: Seq<u8>) -> bool {
    &&& t.state < 4
    &&& mem.len() == BOARD_WIDTH * BOARD_HEIGHT
    &&& board_index(t.pos) < mem.len()
    &&& binary(mem)
}

/// `n` steps of turmite `t` on `mem`: the turmite and memory after them, and
/// the pixels drawn, in order.
pub open spec fn run_spec(t: Turmite, mem: Seq<u8>, n: nat) -> (Turmite, Seq<u8>, Seq<DrawPixel>)
    decreases n,
{
    if n == 0 {
        (t, mem, Seq::empty())
    } else {
        let (t1, m1, px) = step_spec(t, mem);
        let (t2, m2, pxs) = run_spec(t1, m1, (n - 1) as nat);
        (t2, m2, seq![px] + pxs)
    }
}

/// Moves the turmite one step: reads the cell under it, turns, flips the cell
/// and steps. Returns the pixel to draw for the flipped cell.
pub fn step_turmite(turmite: &mut Turmite, memory: &mut Memory) -> (px: DrawPixel)
    requires
        old(turmite).state < 4,
        board_index(old(turmite).pos) < old(memory).data.len(),
        old(memory).data@[board_index(old(turmite).pos)] < 2,
    ensures
        (*final(turmite), final(memory).data@, px) == step_spec(*old(turmite), old(memory).data@),
        // The cell the turmite left is flipped and drawn in its new colour.
        px.pos == old(turmite).pos,
        final(memory).data@[board_index(old(turmite).pos)] == 1 - old(memory).data@[board_index(old(turmite).pos)],
        px.rgba_u32 == (if final(memory).data@[board_index(old(turmite).pos)] == 0 {
            0xffffffffu32
        } else {
            0xff000000u32
        }),
{
    let coord = turmite.pos;

    let input = memory.read(coord);
    let (delta, new_state, output) = transition(turmite.state, input);

    // Move turmite
    turmite.pos = UVec2 {
        x: wrap_step(coord.x, delta.x, BOARD_WIDTH),
        y: wrap_step(coord.y, delta.y, BOARD_HEIGHT),
    };

    // Update state
    turmite.state = new_state;

    // Update memory
    memory.write(coord, output);
    let colour = state_to_colour(output);
    DrawPixel { pos: coord, rgba_u32: colour.unwrap() }
}

/// Runs the turmite for `steps` steps, returning the pixels drawn, in order.
pub fn move_turmite(turmite: &mut Turmite, memory: &mut Memory, steps: usize) -> (pixels: Vec<DrawPixel>)
    requires
        ready(*old(turmite), old(memory).data@),
    ensures
        (*final(turmite), final(memory).data@, pixels@) == run_spec(*old(turmite), old(memory).data@, steps as nat),
        ready(*final(turmite), final(memory).data@),
        pixels@.len() == steps,
        forall|i: int|
            0 <= i < steps ==> #[trigger] pixels@[i] == step_spec(
                run_spec(*old(turmite), old(memory).data@, i as nat).0,
                run_spec(*old(turmite), old(memory).data@, i as nat).1,
            ).2,
{
    let mut pixels: Vec<DrawPixel> = Vec::new();
    let mut i: usize = 0;
    while i < steps
        invariant
            i <= steps,
            ready(*turmite, memory.data@),
            run_spec(*old(turmite), old(memory).data@, steps as nat) == ({
                let (t, m, pxs) = run_spec(*turmite, memory.data@, (steps - i) as nat);
                (t, m, pixels@ + pxs)
            }),
        decreases steps - i,
    {
        let ghost t0 = *turmite;
        let ghost m0 = memory.data@;
        let ghost rest = run_spec(step_spec(t0, m0).0, step_spec(t0, m0).1, (steps - i - 1) as nat);
        let px = step_turmite(turmite, memory);
        proof {
            lemma_step_keeps_ready(t0, m0);
            assert(run_spec(t0, m0, (steps - i) as nat) == (rest.0, rest.1, seq![px] + rest.2));
            assert(pixels@.push(px) + rest.2 =~= pixels@ + (seq![px] + rest.2));
        }
        pixels.push(px);
        i = i + 1;
    }
    proof {
        assert(pixels@ + Seq::<DrawPixel>::empty() =~= pixels@);
        lemma_run_len(*old(turmite), old(memory).data@, steps as nat);
        assert forall|i: int| 0 <= i < steps implies #[trigger] pixels@[i] == step_spec(
            run_spec(*old(turmite), old(memory).data@, i as nat).0,
            run_spec(*old(turmite), old(memory).data@, i as nat).1,
        ).2 by {
            lemma_run_pixel(*old(turmite), old(memory).data@, steps as nat, i as nat);
        }
    }
    pixels
}

/// Running `n` steps draws exactly `n` pixels.
pub proof fn lemma_run_len(t: Turmite, mem: Seq<u8>, n: nat)
    ensures
        run_spec(t, mem, n).2.len() == n,
    decreases n,
{
    if n > 0 {
        let (t1, m1, _) = step_spec(t, mem);
        lemma_run_len(t1, m1, (n - 1) as nat);
    }
}

/// Running `a + b` steps is running `a` steps and then `b` more from where
/// they left the turmite and the board; the pixels of both runs follow each
/// other.
pub proof fn lemma_run_compose(t: Turmite, mem: Seq<u8>, a: nat, b: nat)
    ensures
        ({
            let r1 = run_spec(t, mem, a);
            let r2 = run_spec(r1.0, r1.1, b);
            run_spec(t, mem, a + b) == (r2.0, r2.1, r1.2 + r2.2)
        }),
    decreases a,
{
    if a == 0 {
        let r2 = run_spec(t, mem, b);
        assert(Seq::<DrawPixel>::empty() + r2.2 =~= r2.2);
    } else {
        let (t1, m1, px) = step_spec(t, mem);
        lemma_run_compose(t1, m1, (a - 1) as nat, b);
        let r1 = run_spec(t1, m1, (a - 1) as nat);
        let r2 = run_spec(r1.0, r1.1, b);
        assert((a + b - 1) as nat == ((a - 1) as nat + b) as nat);
        assert(seq![px] + (r1.2 + r2.2) =~= (seq![px] + r1.2) + r2.2);
    }
}

/// One run step is one step: the turmite and board after it and the single
/// pixel it draws.
pub proof fn lemma_run_one(t: Turmite, mem: Seq<u8>)
    ensures
        run_spec(t, mem, 1) == (step_spec(t, mem).0, step_spec(t, mem).1, seq![step_spec(t, mem).2]),
{
    let (t1, m1, px) = step_spec(t, mem);
    assert(run_spec(t1, m1, 0) == (t1, m1, Seq::<DrawPixel>::empty()));
    assert(seq![px] + Seq::<DrawPixel>::empty() =~= seq![px]);
}

/// Pixel `i` of a run is the pixel that the step taken after `i` steps draws.
pub proof fn lemma_run_pixel(t: Turmite, mem: Seq<u8>, n: nat, i: nat)
    requires
        i < n,
    ensures
        run_spec(t, mem, n).2[i as int] == step_spec(run_spec(t, mem, i).0, run_spec(t, mem, i).1).2,
{
    let ri = run_spec(t, mem, i);
    lemma_run_compose(t, mem, i, (n - i) as nat);
    lemma_run_len(t, mem, i);
    let (t1, m1, px) = step_spec(ri.0, ri.1);
    lemma_run_compose(ri.0, ri.1, 1, (n - i - 1) as nat);
    lemma_run_one(ri.0, ri.1);
    assert((i + (n - i) as nat) as nat == n);
    assert((1 + (n - i - 1) as nat) as nat == (n - i) as nat);
}

/// A step keeps the turmite ready: its state stays a heading, it stays on the
/// board and every cell stays 0 or 1.
pub proof fn lemma_step_keeps_ready(t: Turmite, mem: Seq<u8>)
    requires
        ready(t, mem),
    ensures
        ready(step_spec(t, mem).0, step_spec(t, mem).1),
        step_spec(t, mem).0.pos.x < BOARD_WIDTH,
        step_spec(t, mem).0.pos.y < BOARD_HEIGHT,
{
    let (t1, m1, _) = step_spec(t, mem);
    assert(mem[board_index(t.pos)] < 2);
    lemma_wrap_add_bound(t.pos.x, heading(t1.state).x, BOARD_WIDTH);
    lemma_wrap_add_bound(t.pos.y, heading(t1.state).y, BOARD_HEIGHT);
    assert(board_index(t1.pos) < mem.len()) by (nonlinear_arith)
        requires
            t1.pos.x < 4096,
            t1.pos.y < 4096,
            board_index(t1.pos) == t1.pos.y * 4096 + t1.pos.x,
            mem.len() == 4096 * 4096,
    ;
}

proof fn lemma_wrap_add_bound(c: u32, d: i32, n: u32)
    requires
        0 < n,
    ensures
        0 <= (c as int + d as int) % (n as int) < n,
        wrap_add(c, d, n) < n,
{
    vstd::arithmetic::div_mod::lemma_mod_bound(c as int + d as int, n as int);
}

/// A step flips the cell under the turmite and draws that cell in the colour
/// of the value it now holds: white for a cleared cell, black for a set one.
/// No other cell changes, and the turmite ends one cell away along its new
/// heading.
pub proof fn lemma_step_draws_flipped_cell(t: Turmite, mem: Seq<u8>)
    requires
        ready(t, mem),
    ensures
        ({
            let (t1, m1, px) = step_spec(t, mem);
            let i = board_index(t.pos);
            &&& m1.len() == mem.len()
            &&& m1[i] == 1 - mem[i]
            &&& forall|j: int| 0 <= j < mem.len() && j != i ==> #[trigger] m1[j] == mem[j]
            &&& px.pos == t.pos
            &&& px.rgba_u32 == (if m1[i] == 0 { 0xffffffffu32 } else { 0xff000000u32 })
            &&& (if mem[i] == 0 { t1.state == (t.state + 1) % 4 } else { t1.state == (t.state + 3) % 4 })
        }),
{
    assert(mem[board_index(t.pos)] < 2);
}

/// A left turn undoes a right turn and the other way round.
pub proof fn lemma_turns_undo(state: u8)
    requires
        state < 4,
    ensures
        turn(turn(state, 0), 1) == state,
        turn(turn(state, 1), 0) == state,
{
}

/// Every step moves the turmite one cell up, down, left or right, wrapping
/// around the board, along the heading it turned to.
pub proof fn lemma_step_moves_one_cell(t: Turmite, mem: Seq<u8>)
    requires
        ready(t, mem),
    ensures
        ({
            let t1 = step_spec(t, mem).0;
            let d = heading(t1.state);
            &&& (d.x == 0 && (d.y == 1 || d.y == -1)) || (d.y == 0 && (d.x == 1 || d.x == -1))
            &&& t1.pos.x as int == (t.pos.x as int + d.x as int) % 4096
            &&& t1.pos.y as int == (t.pos.y as int + d.y as int) % 4096
        }),
{
    let (t1, _, _) = step_spec(t, mem);
    lemma_wrap_add_bound(t.pos.x, heading(t1.state).x, BOARD_WIDTH);
    lemma_wrap_add_bound(t.pos.y, heading(t1.state).y, BOARD_HEIGHT);
}

/// The turmite's walk can be run backwards: a step's result determines the
/// turmite and the board it started from.
pub proof fn lemma_step_reversible(a: Turmite, ma: Seq<u8>, b: Turmite, mb: Seq<u8>)
    requires
        ready(a, ma),
        ready(b, mb),
        a.pos.x < BOARD_WIDTH,
        a.pos.y < BOARD_HEIGHT,
        b.pos.x < BOARD_WIDTH,
        b.pos.y < BOARD_HEIGHT,
        step_spec(a, ma).0 == step_spec(b, mb).0,
        step_spec(a, ma).1 == step_spec(b, mb).1,
    ensures
        a == b,
        ma == mb,
{
    let (a1, ma1, _) = step_spec(a, ma);
    let (b1, mb1, _) = step_spec(b, mb);
    let d = heading(a1.state);
    lemma_wrap_add_bound(a.pos.x, d.x, BOARD_WIDTH);
    lemma_wrap_add_bound(a.pos.y, d.y, BOARD_HEIGHT);
    lemma_wrap_add_bound(b.pos.x, d.x, BOARD_WIDTH);
    lemma_wrap_add_bound(b.pos.y, d.y, BOARD_HEIGHT);
    // The same step from two cells on the board lands on the same cell only
    // when the cells are the same.
    lemma_wrap_step_injective(a.pos.x, b.pos.x, d.x, 4096);
    lemma_wrap_step_injective(a.pos.y, b.pos.y, d.y, 4096);
    assert(a.pos == b.pos);
    let i = board_index(a.pos);
    assert(ma1[i] == mb1[i]);
    assert(ma[i] == mb[i]);
    assert(a.state == b.state);
    assert(ma =~= mb) by {
        assert forall|j: int| 0 <= j < ma.len() implies ma[j] == mb[j] by {
            if j != i {
                assert(ma1[j] == mb1[j]);
            }
        }
    }
}

proof fn lemma_wrap_step_injective(a: u32, b: u32, d: i32, n: int)
    requires
        0 < n,
        a < n,
        b < n,
        -1 <= d <= 1,
        (a as int + d as int) % n == (b as int + d as int) % n,
    ensures
        a == b,
{
    let ai = a as int + d as int;
    let bi = b as int + d as int;
    vstd::arithmetic::div_mod::lemma_fundamental_div_mod(ai, n);
    vstd::arithmetic::div_mod::lemma_fundamental_div_mod(bi, n);
    vstd::arithmetic::div_mod::lemma_mod_bound(ai, n);
    vstd::arithmetic::div_mod::lemma_mod_bound(bi, n);
    let qa = ai / n;
    let qb = bi / n;
    assert(-1 <= qa <= 1) by (nonlinear_arith)
        requires ai == n * qa + ai % n, 0 <= ai % n < n, -1 <= ai <= n, n > 0;
    assert(-1 <= qb <= 1) by (nonlinear_arith)
        requires bi == n * qb + bi % n, 0 <= bi % n < n, -1 <= bi <= n, n > 0;
    assert(a == b) by (nonlinear_arith)
        requires
            ai == n * qa + ai % n,
            bi == n * qb + bi % n,
            ai % n == bi % n,
            -1 <= qa <= 1,
            -1 <= qb <= 1,
            ai == a + d,
            bi == b + d,
            0 <= a < n,
            0 <= b < n,
            n > 0,
    ;
}

} // verus!
