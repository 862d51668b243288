use vstd::prelude::*;

use crate::chunks::lemma_u8_product;

verus! {

/// Settings of a canvas: its clear colour, its depth, its size in pixels and
/// how many chunks it is cut into along each axis.
#[derive(Clone, Copy)]
pub struct CanvasConfig {
    pub clear_colour: [u8; 4],
    /// The z index of the canvas sprites, as the bit pattern of an `f32`.
    pub canvas_z_index_bits: u32,
    pub canvas_size: (u32, u32),
    pub num_chunks: (u8, u8),
}

impl CanvasConfig {
    /// A non-empty canvas cut into a non-empty grid of equal chunks.
    pub open spec fn is_valid(self) -> bool {
        &&& self.canvas_size.0 > 0
        &&& self.canvas_size.1 > 0
        &&& self.num_chunks.0 > 0
        &&& self.num_chunks.1 > 0
        &&& self.canvas_size.0 % (self.num_chunks.0 as u32) == 0
        &&& self.canvas_size.1 % (self.num_chunks.1 as u32) == 0
    }

    pub open spec fn spec_chunk_size(self) -> (u32, u32) {
        (
            (self.canvas_size.0 / (self.num_chunks.0 as u32)) as u32,
            (self.canvas_size.1 / (self.num_chunks.1 as u32)) as u32,
        )
    }

    pub fn new(
        clear_colour: [u8; 4],
        canvas_z_index_bits: u32,
        canvas_size: (u32, u32),
        chunks: (u8, u8),
    ) -> (r: Self)
        requires
            canvas_size.0 > 0,
            canvas_size.1 > 0,
            chunks.0 > 0,
            chunks.1 > 0,
            canvas_size.0 % (chunks.0 as u32) == 0,
            canvas_size.1 % (chunks.1 as u32) == 0,
        ensures
            r.is_valid(),
            r.clear_colour == clear_colour,
            r.canvas_z_index_bits == canvas_z_index_bits,
            r.canvas_size == canvas_size,
            r.num_chunks == chunks,
    {
        Self { clear_colour, canvas_z_index_bits, canvas_size, num_chunks: chunks }
    }

    #[inline]
    pub fn clear_colour(&self) -> (r: &[u8; 4])
        ensures
            *r == self.clear_colour,
    {
        &self.clear_colour
    }

    #[inline]
    pub fn canvas_z_index_bits(&self) -> (r: u32)
        ensures
            r == self.canvas_z_index_bits,
    {
        self.canvas_z_index_bits
    }

    #[inline]
    pub fn canvas_size(&self) -> (r: (u32, u32))
        ensures
            r == self.canvas_size,
    {
        self.canvas_size
    }

    #[inline]
    pub fn chunk_size(&self) -> (r: (u32, u32))
        requires
            self.num_chunks.0 > 0,
            self.num_chunks.1 > 0,
        ensures
            r == self.spec_chunk_size(),
    {
        (self.canvas_size.0 / self.num_chunks.0 as u32, self.canvas_size.1 / self.num_chunks.1 as u32)
    }

    #[inline]
    pub fn pixels_per_chunk(&self) -> (r: usize)
        requires
            self.num_chunks.0 > 0,
            self.num_chunks.1 > 0,
            self.spec_chunk_size().0 * self.spec_chunk_size().1 <= usize::MAX,
        ensures
            r == self.spec_chunk_size().0 * self.spec_chunk_size().1,
    {
        let (chunk_width, chunk_height) = self.chunk_size();
        (chunk_width as usize) * (chunk_height as usize)
    }

    #[inline]
    pub fn num_chunks(&self) -> (r: (u8, u8))
        ensures
            r == self.num_chunks,
    {
        self.num_chunks
    }

    #[inline]
    pub fn total_chunks(&self) -> (r: usize)
        ensures
            r == self.num_chunks.0 * self.num_chunks.1,
    {
        proof {
            lemma_u8_product(self.num_chunks.0, self.num_chunks.1);
        }
        (self.num_chunks.0 as usize) * (self.num_chunks.1 as usize)
    }
}

impl Default for CanvasConfig {
    fn default() -> (r: Self)
        ensures
            r.clear_colour == [255u8, 255u8, 255u8, 255u8],
            r.canvas_z_index_bits == 0,
            r.canvas_size == (800u32, 600u32),
            r.num_chunks == (8u8, 6u8),
    {
        Self {
            clear_colour: [255, 255, 255, 255],
            canvas_z_index_bits: 0,
            canvas_size: (800, 600),
            num_chunks: (8, 6),
        }
    }
}

/// In a valid config the chunks tile the canvas exactly: the chunk size times
/// the number of chunks is the canvas size, and no chunk is empty.
pub proof fn lemma_chunks_tile_canvas(config: CanvasConfig)
    requires
        config.is_valid(),
    ensures
        config.spec_chunk_size().0 > 0,
        config.spec_chunk_size().1 > 0,
        config.spec_chunk_size().0 * config.num_chunks.0 == config.canvas_size.0,
        config.spec_chunk_size().1 * config.num_chunks.1 == config.canvas_size.1,
{
    let w = config.canvas_size.0 as int;
    let h = config.canvas_size.1 as int;
    let nx = config.num_chunks.0 as int;
    let ny = config.num_chunks.1 as int;
    vstd::arithmetic::div_mod::lemma_fundamental_div_mod(w, nx);
    vstd::arithmetic::div_mod::lemma_fundamental_div_mod(h, ny);
    let cw = w / nx;
    let ch = h / ny;
    assert(cw * nx == w) by (nonlinear_arith) requires w == nx * cw + 0;
    assert(ch * ny == h) by (nonlinear_arith) requires h == ny * ch + 0;
    assert(cw > 0) by (nonlinear_arith) requires cw * nx == w, w > 0, nx > 0;
    assert(ch > 0) by (nonlinear_arith) requires ch * ny == h, h > 0, ny > 0;
}

} // verus!
