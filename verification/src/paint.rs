use vstd::prelude::*;

use crate::chunks::write_span;
use crate::layout::{
    canvas_x_of, canvas_y_of, chunk_of, lemma_chunk_to_pixel, lemma_pixel_to_chunk, offset_of,
};

verus! {

/// The chunks `s` of a canvas cut into `nx` columns of `cw * ch`-pixel chunks,
/// after every canvas pixel `(x, y)` for which `f` gives `Some(v)` is set to `v`.
pub open spec fn painted(
    s: Seq<Seq<u32>>,
    nx: int,
    cw: int,
    ch: int,
    f: spec_fn(int, int) -> Option<u32>,
) -> Seq<Seq<u32>> {
    Seq::new(
        s.len(),
        |c: int|
            Seq::new(
                s[c].len(),
                |o: int|
                    match f(canvas_x_of(c, o, nx, cw), canvas_y_of(c, o, nx, cw, ch)) {
                        Some(v) => v,
                        None => s[c][o],
                    },
            ),
    )
}

/// Paint `g` over `f`: where `g` paints, it wins.
pub open spec fn overlay(
    f: spec_fn(int, int) -> Option<u32>,
    g: spec_fn(int, int) -> Option<u32>,
) -> spec_fn(int, int) -> Option<u32> {
    |x: int, y: int|
        match g(x, y) {
            Some(v) => Some(v),
            None => f(x, y),
        }
}

/// Paints nothing.
pub open spec fn no_paint() -> spec_fn(int, int) -> Option<u32> {
    |x: int, y: int| None::<u32>
}

/// Paints `len` pixels of row `y0` from `x0` on with `src[si..]`.
pub open spec fn run_paint(x0: int, y0: int, src: Seq<u32>, si: int, len: int) -> spec_fn(
    int,
    int,
) -> Option<u32> {
    |x: int, y: int|
        if y == y0 && x0 <= x < x0 + len {
            Some(src[si + (x - x0)])
        } else {
            None
        }
}

/// Chunks shaped for a canvas of `nx * ny` chunks of `cw * ch` pixels.
pub open spec fn shaped(s: Seq<Seq<u32>>, nx: int, ny: int, cw: int, ch: int) -> bool {
    &&& nx > 0
    &&& ny > 0
    &&& cw > 0
    &&& ch > 0
    &&& s.len() == nx * ny
    &&& forall|c: int| 0 <= c < s.len() ==> #[trigger] s[c].len() == cw * ch
}

/// Painting keeps the shape of the chunks.
pub proof fn lemma_painted_shaped(
    s: Seq<Seq<u32>>,
    nx: int,
    ny: int,
    cw: int,
    ch: int,
    f: spec_fn(int, int) -> Option<u32>,
)
    requires
        shaped(s, nx, ny, cw, ch),
    ensures
        shaped(painted(s, nx, cw, ch, f), nx, ny, cw, ch),
{
}

/// Painting `f` and then `g` is painting `g` over `f`.
pub proof fn lemma_painted_compose(
    s: Seq<Seq<u32>>,
    nx: int,
    cw: int,
    ch: int,
    f: spec_fn(int, int) -> Option<u32>,
    g: spec_fn(int, int) -> Option<u32>,
)
    ensures
        painted(painted(s, nx, cw, ch, f), nx, cw, ch, g) == painted(s, nx, cw, ch, overlay(f, g)),
{
    let a = painted(painted(s, nx, cw, ch, f), nx, cw, ch, g);
    let b = painted(s, nx, cw, ch, overlay(f, g));
    assert forall|c: int| 0 <= c < a.len() implies #[trigger] a[c] =~= b[c] by {}
    assert(a =~= b);
}

/// Painting depends only on what is painted inside the canvas.
pub proof fn lemma_painted_ext(
    s: Seq<Seq<u32>>,
    nx: int,
    ny: int,
    cw: int,
    ch: int,
    f: spec_fn(int, int) -> Option<u32>,
    g: spec_fn(int, int) -> Option<u32>,
)
    requires
        shaped(s, nx, ny, cw, ch),
        forall|x: int, y: int| 0 <= x < nx * cw && 0 <= y < ny * ch ==> #[trigger] f(x, y) == g(x, y),
    ensures
        painted(s, nx, cw, ch, f) == painted(s, nx, cw, ch, g),
{
    let a = painted(s, nx, cw, ch, f);
    let b = painted(s, nx, cw, ch, g);
    assert forall|c: int| 0 <= c < a.len() implies #[trigger] a[c] =~= b[c] by {
        assert forall|o: int| 0 <= o < a[c].len() implies #[trigger] a[c][o] == b[c][o] by {
            lemma_chunk_to_pixel(c, o, nx, ny, cw, ch);
        }
    }
    assert(a =~= b);
}

/// Painting nothing changes nothing.
pub proof fn lemma_painted_nothing(s: Seq<Seq<u32>>, nx: int, cw: int, ch: int)
    ensures
        painted(s, nx, cw, ch, no_paint()) == s,
{
    let a = painted(s, nx, cw, ch, no_paint());
    assert forall|c: int| 0 <= c < a.len() implies #[trigger] a[c] =~= s[c] by {}
    assert(a =~= s);
}

/// Writing a run of pixels that stays inside one chunk row paints that run.
pub proof fn lemma_run_painted(
    s: Seq<Seq<u32>>,
    nx: int,
    ny: int,
    cw: int,
    ch: int,
    x0: int,
    y0: int,
    src: Seq<u32>,
    si: int,
    len: int,
)
    requires
        shaped(s, nx, ny, cw, ch),
        0 <= x0 < nx * cw,
        0 <= y0 < ny * ch,
        0 <= len,
        x0 % cw + len <= cw,
        0 <= si,
        si + len <= src.len(),
    ensures
        s.update(
            chunk_of(x0, y0, nx, cw, ch),
            write_span(
                s[chunk_of(x0, y0, nx, cw, ch)],
                offset_of(x0, y0, cw, ch),
                src,
                si,
                len,
            ),
        ) == painted(s, nx, cw, ch, run_paint(x0, y0, src, si, len)),
{
    let c0 = chunk_of(x0, y0, nx, cw, ch);
    let d = offset_of(x0, y0, cw, ch);
    lemma_pixel_to_chunk(x0, y0, nx, ny, cw, ch);
    let a = s.update(c0, write_span(s[c0], d, src, si, len));
    let b = painted(s, nx, cw, ch, run_paint(x0, y0, src, si, len));
    vstd::arithmetic::div_mod::lemma_fundamental_div_mod(x0, cw);
    vstd::arithmetic::div_mod::lemma_mod_pos_bound(x0, cw);
    vstd::arithmetic::div_mod::lemma_mod_pos_bound(y0, ch);
    assert forall|c: int| 0 <= c < a.len() implies #[trigger] a[c] =~= b[c] by {
        assert forall|o: int| 0 <= o < a[c].len() implies #[trigger] a[c][o] == b[c][o] by {
            lemma_chunk_to_pixel(c, o, nx, ny, cw, ch);
            let x = canvas_x_of(c, o, nx, cw);
            let y = canvas_y_of(c, o, nx, cw, ch);
            if y == y0 && x0 <= x < x0 + len {
                // The pixel lies in the run: it is in chunk c0 at offset d + (x - x0).
                let k = x - x0;
                vstd::arithmetic::div_mod::lemma_fundamental_div_mod_converse(
                    x,
                    cw,
                    x0 / cw,
                    x0 % cw + k,
                );
                assert(c == c0);
                assert(o == d + k);
            } else if c == c0 && d <= o < d + len {
                // A run offset always names a run pixel.
                let k = o - d;
                assert(o == (y0 % ch) * cw + (x0 % cw + k));
                vstd::arithmetic::div_mod::lemma_fundamental_div_mod_converse(
                    o,
                    cw,
                    y0 % ch,
                    x0 % cw + k,
                );
                assert(c0 % nx == x0 / cw && c0 / nx == y0 / ch) by {
                    vstd::arithmetic::div_mod::lemma_fundamental_div_mod_converse(
                        c0,
                        nx,
                        y0 / ch,
                        x0 / cw,
                    );
                }
                assert(x == x0 + k) by (nonlinear_arith)
                    requires
                        x == (x0 / cw) * cw + (x0 % cw + k),
                        x0 == cw * (x0 / cw) + x0 % cw,
                ;
                vstd::arithmetic::div_mod::lemma_fundamental_div_mod(y0, ch);
                assert(y == y0) by (nonlinear_arith)
                    requires
                        y == (y0 / ch) * ch + y0 % ch,
                        y0 == ch * (y0 / ch) + y0 % ch,
                ;
                assert(false);
            }
        }
    }
    assert(a =~= b);
}

/// Paints the `w * h` block with corner `(dx, dy)` from a row-major source of
/// row length `stride`, reading it from `(sx, sy)` on.
pub open spec fn block_paint(
    dx: int,
    dy: int,
    w: int,
    h: int,
    src: Seq<u32>,
    sx: int,
    sy: int,
    stride: int,
) -> spec_fn(int, int) -> Option<u32> {
    |x: int, y: int|
        if dx <= x < dx + w && dy <= y < dy + h {
            Some(src[(sy + (y - dy)) * stride + sx + (x - dx)])
        } else {
            None
        }
}

/// `f` where `keep` holds, nothing elsewhere.
pub open spec fn restrict(
    f: spec_fn(int, int) -> Option<u32>,
    keep: spec_fn(int, int) -> bool,
) -> spec_fn(int, int) -> Option<u32> {
    |x: int, y: int|
        if keep(x, y) {
            f(x, y)
        } else {
            None
        }
}

/// Reading canvas pixel `(x, y)` after painting gives what was painted there,
/// or what was there before when nothing was.
pub proof fn lemma_painted_pixel(
    s: Seq<Seq<u32>>,
    nx: int,
    ny: int,
    cw: int,
    ch: int,
    f: spec_fn(int, int) -> Option<u32>,
    x: int,
    y: int,
)
    requires
        shaped(s, nx, ny, cw, ch),
        0 <= x < nx * cw,
        0 <= y < ny * ch,
    ensures
        painted(s, nx, cw, ch, f)[chunk_of(x, y, nx, cw, ch)][offset_of(x, y, cw, ch)] == match f(x, y) {
            Some(v) => v,
            None => s[chunk_of(x, y, nx, cw, ch)][offset_of(x, y, cw, ch)],
        },
{
    lemma_pixel_to_chunk(x, y, nx, ny, cw, ch);
}

} // verus!
