use vstd::prelude::*;

use crate::layout::{chunk_of, offset_of};
use crate::types::ChunkKey;

verus! {

/// Index of the chunk named by `key` in a grid `nx` chunks wide.
pub open spec fn key_index(key: ChunkKey, nx: int) -> int {
    (key.1 as int) * nx + (key.0 as int)
}

/// CPU backing store: row-major u32 pixels per chunk.
pub struct CanvasCpuChunks {
    num_chunks: (u8, u8),
    chunk_size: (u32, u32),
    chunk_data: Vec<Vec<u32>>,
}

impl CanvasCpuChunks {
    /// Number of chunks along x and y.
    pub closed spec fn spec_num_chunks(self) -> (u8, u8) {
        self.num_chunks
    }

    /// Width and height of one chunk, in pixels.
    pub closed spec fn spec_chunk_size(self) -> (u32, u32) {
        self.chunk_size
    }

    /// The pixels of every chunk, chunk by chunk, each chunk row by row.
    pub closed spec fn chunks(self) -> Seq<Seq<u32>> {
        self.chunk_data@.map_values(|v: Vec<u32>| v@)
    }

    pub open spec fn nx(self) -> int {
        self.spec_num_chunks().0 as int
    }

    pub open spec fn ny(self) -> int {
        self.spec_num_chunks().1 as int
    }

    pub open spec fn cw(self) -> int {
        self.spec_chunk_size().0 as int
    }

    pub open spec fn ch(self) -> int {
        self.spec_chunk_size().1 as int
    }

    /// The grid is non-empty and every chunk holds exactly `cw * ch` pixels.
    pub open spec fn wf(self) -> bool {
        &&& self.nx() > 0
        &&& self.ny() > 0
        &&& self.cw() > 0
        &&& self.ch() > 0
        &&& self.cw() * self.ch() <= usize::MAX
        &&& self.chunks().len() == self.nx() * self.ny()
        &&& forall|c: int|
            0 <= c < self.chunks().len() ==> #[trigger] self.chunks()[c].len() == self.cw()
                * self.ch()
    }

    /// Canvas width in pixels.
    pub open spec fn width(self) -> int {
        self.nx() * self.cw()
    }

    /// Canvas height in pixels.
    pub open spec fn height(self) -> int {
        self.ny() * self.ch()
    }

    /// The pixel at canvas position `(x, y)`.
    pub open spec fn pixel(self, x: int, y: int) -> u32 {
        self.chunks()[chunk_of(x, y, self.nx(), self.cw(), self.ch())][offset_of(
            x,
            y,
            self.cw(),
            self.ch(),
        )]
    }

    /// Allocates `num_chunks.0 * num_chunks.1` chunks of `chunk_size` pixels,
    /// every pixel set to `default_px`.
    pub fn new(num_chunks: (u8, u8), chunk_size: (u32, u32), default_px: u32) -> (r: Self)
        requires
            chunk_size.0 > 0,
            chunk_size.1 > 0,
            num_chunks.0 > 0,
            num_chunks.1 > 0,
            chunk_size.0 * chunk_size.1 <= usize::MAX,
        ensures
            r.wf(),
            r.spec_num_chunks() == num_chunks,
            r.spec_chunk_size() == chunk_size,
            forall|c: int, o: int|
                0 <= c < r.chunks().len() && 0 <= o < r.chunks()[c].len() ==> #[trigger] r.chunks()[c][o]
                    == default_px,
    {
        proof {
            lemma_u8_product(num_chunks.0, num_chunks.1);
        }
        let total_chunks = (num_chunks.0 as usize) * (num_chunks.1 as usize);
        let pixels_per_chunk = (chunk_size.0 as usize) * (chunk_size.1 as usize);

        let mut chunk_data: Vec<Vec<u32>> = Vec::with_capacity(total_chunks);
        for i in 0..total_chunks
            invariant
                pixels_per_chunk == chunk_size.0 * chunk_size.1,
                chunk_data@.len() == i,
                forall|c: int|
                    0 <= c < i ==> (#[trigger] chunk_data@[c])@.len() == pixels_per_chunk,
                forall|c: int, o: int|
                    0 <= c < i && 0 <= o < pixels_per_chunk ==> #[trigger] chunk_data@[c]@[o]
                        == default_px,
        {
            let chunk = vec![default_px; pixels_per_chunk];
            chunk_data.push(chunk);
        }
        let r = Self { num_chunks, chunk_size, chunk_data };
        assert(r.chunks().len() == total_chunks);
        r
    }

    pub fn num_chunks(&self) -> (r: (u8, u8))
        ensures
            r == self.spec_num_chunks(),
    {
        self.num_chunks
    }

    pub fn chunk_size(&self) -> (r: (u32, u32))
        ensures
            r == self.spec_chunk_size(),
    {
        self.chunk_size
    }

    /// The pixels of chunk `index`.
    pub fn chunk(&self, index: usize) -> (r: &[u32])
        requires
            index < self.chunks().len(),
        ensures
            r@ == self.chunks()[index as int],
    {
        self.chunk_data[index].as_slice()
    }

    /// Sets the pixel at offset `index` of the chunk named by `key`.
    pub fn set_pixel(&mut self, key: &ChunkKey, index: usize, value: u32)
        requires
            old(self).wf(),
            key_index(*key, old(self).nx()) < old(self).chunks().len(),
            index < old(self).cw() * old(self).ch(),
        ensures
            final(self).wf(),
            final(self).spec_num_chunks() == old(self).spec_num_chunks(),
            final(self).spec_chunk_size() == old(self).spec_chunk_size(),
            final(self).chunks() == old(self).chunks().update(
                key_index(*key, old(self).nx()),
                old(self).chunks()[key_index(*key, old(self).nx())].update(index as int, value),
            ),
    {
        proof {
            lemma_u8_product(key.1, self.num_chunks.0);
        }
        let c = (key.1 as usize) * (self.num_chunks.0 as usize) + (key.0 as usize);
        assert(self.chunks()[c as int].len() == self.cw() * self.ch());
        self.chunk_data[c][index] = value;
        assert(self.chunks() =~= old(self).chunks().update(
            c as int,
            old(self).chunks()[c as int].update(index as int, value),
        ));
    }

    /// Copies `src[src_index .. src_index + len]` into the chunk named by `key`,
    /// starting at offset `dst_index`.
    pub fn write_run(
        &mut self,
        key: &ChunkKey,
        dst_index: usize,
        src: &[u32],
        src_index: usize,
        len: usize,
    )
        requires
            old(self).wf(),
            key_index(*key, old(self).nx()) < old(self).chunks().len(),
            dst_index + len <= old(self).cw() * old(self).ch(),
            src_index + len <= src@.len(),
        ensures
            final(self).wf(),
            final(self).spec_num_chunks() == old(self).spec_num_chunks(),
            final(self).spec_chunk_size() == old(self).spec_chunk_size(),
            final(self).chunks() == old(self).chunks().update(
                key_index(*key, old(self).nx()),
                write_span(
                    old(self).chunks()[key_index(*key, old(self).nx())],
                    dst_index as int,
                    src@,
                    src_index as int,
                    len as int,
                ),
            ),
    {
        proof {
            lemma_u8_product(key.1, self.num_chunks.0);
        }
        let c = (key.1 as usize) * (self.num_chunks.0 as usize) + (key.0 as usize);
        let ghost start = self.chunks();
        let mut k: usize = 0;
        while k < len
            invariant
                self.num_chunks == old(self).num_chunks,
                self.chunk_size == old(self).chunk_size,
                c == key_index(*key, old(self).nx()),
                start == old(self).chunks(),
                old(self).wf(),
                c < start.len(),
                k <= len,
                dst_index + len <= old(self).cw() * old(self).ch(),
                src_index + len <= src@.len(),
                src@.len() == src.len(),
                self.chunk_data@.len() == start.len(),
                forall|d: int|
                    0 <= d < start.len() && d != c ==> (#[trigger] self.chunk_data@[d])@
                        == start[d],
                self.chunk_data@[c as int]@ == write_span(
                    start[c as int],
                    dst_index as int,
                    src@,
                    src_index as int,
                    k as int,
                ),
            decreases len - k,
        {
            let v = src[src_index + k];
            self.chunk_data[c][dst_index + k] = v;
            k = k + 1;
            assert(self.chunk_data@[c as int]@ =~= write_span(
                start[c as int],
                dst_index as int,
                src@,
                src_index as int,
                k as int,
            ));
        }
        assert(self.chunks() =~= start.update(
            c as int,
            write_span(start[c as int], dst_index as int, src@, src_index as int, len as int),
        ));
    }
}

/// The product of two bytes fits comfortably in a `usize`, even after adding a byte.
pub proof fn lemma_u8_product(a: u8, b: u8)
    ensures
        (a as int) * (b as int) + 255 <= 255 * 255 + 255,
{
    assert((a as int) * (b as int) <= 255 * 255) by (nonlinear_arith)
        requires a <= 255, b <= 255, a >= 0, b >= 0;
}

/// `s` with `len` entries from `src[src_index..]` written at `dst_index`.
pub open spec fn write_span(s: Seq<u32>, dst_index: int, src: Seq<u32>, src_index: int, len: int) -> Seq<u32> {
    Seq::new(
        s.len(),
        |o: int|
            if dst_index <= o < dst_index + len {
                src[src_index + (o - dst_index)]
            } else {
                s[o]
            },
    )
}

} // verus!
