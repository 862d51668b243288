use vstd::prelude::*;

verus! {

// The canvas is `nx * cw` pixels wide and `ny * ch` pixels high and is cut into
// `nx * ny` chunks of `cw * ch` pixels. Chunks are numbered row by row and each
// chunk stores its pixels row by row.

/// Index of the chunk that holds canvas pixel `(x, y)`.
pub open spec fn chunk_of(x: int, y: int, nx: int, cw: int, ch: int) -> int {
    (y / ch) * nx + x / cw
}

/// Offset, inside its chunk, of canvas pixel `(x, y)`.
pub open spec fn offset_of(x: int, y: int, cw: int, ch: int) -> int {
    (y % ch) * cw + x % cw
}

/// Canvas x coordinate of the pixel at offset `o` of chunk `c`.
pub open spec fn canvas_x_of(c: int, o: int, nx: int, cw: int) -> int {
    (c % nx) * cw + o % cw
}

/// Canvas y coordinate of the pixel at offset `o` of chunk `c`.
pub open spec fn canvas_y_of(c: int, o: int, nx: int, cw: int, ch: int) -> int {
    (c / nx) * ch + o / cw
}

/// Every canvas pixel lands in a chunk and offset that lead back to it.
pub proof fn lemma_pixel_to_chunk(x: int, y: int, nx: int, ny: int, cw: int, ch: int)
    requires
        nx > 0, ny > 0, cw > 0, ch > 0,
        0 <= x < nx * cw,
        0 <= y < ny * ch,
    ensures
        0 <= x / cw < nx,
        0 <= y / ch < ny,
        0 <= chunk_of(x, y, nx, cw, ch) < nx * ny,
        0 <= offset_of(x, y, cw, ch) < cw * ch,
        canvas_x_of(chunk_of(x, y, nx, cw, ch), offset_of(x, y, cw, ch), nx, cw) == x,
        canvas_y_of(chunk_of(x, y, nx, cw, ch), offset_of(x, y, cw, ch), nx, cw, ch) == y,
{
    let qx = x / cw;
    let rx = x % cw;
    let qy = y / ch;
    let ry = y % ch;
    vstd::arithmetic::div_mod::lemma_fundamental_div_mod(x, cw);
    vstd::arithmetic::div_mod::lemma_fundamental_div_mod(y, ch);
    vstd::arithmetic::div_mod::lemma_mod_pos_bound(x, cw);
    vstd::arithmetic::div_mod::lemma_mod_pos_bound(y, ch);
    assert(0 <= qx < nx) by (nonlinear_arith)
        requires x == cw * qx + rx, 0 <= rx < cw, 0 <= x < nx * cw, cw > 0;
    assert(0 <= qy < ny) by (nonlinear_arith)
        requires y == ch * qy + ry, 0 <= ry < ch, 0 <= y < ny * ch, ch > 0;
    let c = qy * nx + qx;
    let o = ry * cw + rx;
    assert(0 <= c < nx * ny) by (nonlinear_arith)
        requires c == qy * nx + qx, 0 <= qx < nx, 0 <= qy < ny;
    assert(0 <= o < cw * ch) by (nonlinear_arith)
        requires o == ry * cw + rx, 0 <= rx < cw, 0 <= ry < ch;
    vstd::arithmetic::div_mod::lemma_fundamental_div_mod_converse(c, nx, qy, qx);
    vstd::arithmetic::div_mod::lemma_fundamental_div_mod_converse(o, cw, ry, rx);
    assert(qx * cw + rx == x) by (nonlinear_arith) requires x == cw * qx + rx;
    assert(qy * ch + ry == y) by (nonlinear_arith) requires y == ch * qy + ry;
}

/// Every chunk offset names a canvas pixel that leads back to it.
pub proof fn lemma_chunk_to_pixel(c: int, o: int, nx: int, ny: int, cw: int, ch: int)
    requires
        nx > 0, ny > 0, cw > 0, ch > 0,
        0 <= c < nx * ny,
        0 <= o < cw * ch,
    ensures
        0 <= canvas_x_of(c, o, nx, cw) < nx * cw,
        0 <= canvas_y_of(c, o, nx, cw, ch) < ny * ch,
        chunk_of(canvas_x_of(c, o, nx, cw), canvas_y_of(c, o, nx, cw, ch), nx, cw, ch) == c,
        offset_of(canvas_x_of(c, o, nx, cw), canvas_y_of(c, o, nx, cw, ch), cw, ch) == o,
{
    let qc = c / nx;
    let rc = c % nx;
    let qo = o / cw;
    let ro = o % cw;
    vstd::arithmetic::div_mod::lemma_fundamental_div_mod(c, nx);
    vstd::arithmetic::div_mod::lemma_fundamental_div_mod(o, cw);
    vstd::arithmetic::div_mod::lemma_mod_pos_bound(c, nx);
    vstd::arithmetic::div_mod::lemma_mod_pos_bound(o, cw);
    assert(0 <= qc < ny) by (nonlinear_arith)
        requires c == nx * qc + rc, 0 <= rc < nx, 0 <= c < nx * ny, nx > 0;
    assert(0 <= qo < ch) by (nonlinear_arith)
        requires o == cw * qo + ro, 0 <= ro < cw, 0 <= o < cw * ch, cw > 0;
    let x = rc * cw + ro;
    let y = qc * ch + qo;
    assert(0 <= x < nx * cw) by (nonlinear_arith)
        requires x == rc * cw + ro, 0 <= rc < nx, 0 <= ro < cw;
    assert(0 <= y < ny * ch) by (nonlinear_arith)
        requires y == qc * ch + qo, 0 <= qc < ny, 0 <= qo < ch;
    vstd::arithmetic::div_mod::lemma_fundamental_div_mod_converse(x, cw, rc, ro);
    vstd::arithmetic::div_mod::lemma_fundamental_div_mod_converse(y, ch, qc, qo);
    assert(qc * nx + rc == c) by (nonlinear_arith) requires c == nx * qc + rc;
    assert(qo * cw + ro == o) by (nonlinear_arith) requires o == cw * qo + ro;
}

/// A pixel inside chunk `(kx, ky)` has that chunk's index and sits at its
/// offset from the chunk's corner.
pub proof fn lemma_in_chunk(x: int, y: int, kx: int, ky: int, nx: int, ny: int, cw: int, ch: int)
    requires
        cw > 0,
        ch > 0,
        0 <= kx < nx,
        0 <= ky < ny,
        kx * cw <= x < kx * cw + cw,
        ky * ch <= y < ky * ch + ch,
    ensures
        x / cw == kx,
        x % cw == x - kx * cw,
        y / ch == ky,
        y % ch == y - ky * ch,
        0 <= x < nx * cw,
        0 <= y < ny * ch,
        chunk_of(x, y, nx, cw, ch) == ky * nx + kx,
        offset_of(x, y, cw, ch) == (y - ky * ch) * cw + (x - kx * cw),
{
    vstd::arithmetic::div_mod::lemma_fundamental_div_mod_converse(x, cw, kx, x - kx * cw);
    vstd::arithmetic::div_mod::lemma_fundamental_div_mod_converse(y, ch, ky, y - ky * ch);
    assert(x < nx * cw) by (nonlinear_arith) requires x < kx * cw + cw, kx < nx, cw > 0;
    assert(y < ny * ch) by (nonlinear_arith) requires y < ky * ch + ch, ky < ny, ch > 0;
    assert(0 <= kx * cw) by (nonlinear_arith) requires kx >= 0, cw > 0;
    assert(0 <= ky * ch) by (nonlinear_arith) requires ky >= 0, ch > 0;
}

} // verus!
