//! Image tiles and the tiled compositing scheme.
//!
//! An [`ImageChunk`] is a rectangle of RGB pixels backed by a flat byte
//! buffer of interleaved triples, row-major. The renderer plans a grid of
//! such tiles over the output image; the caller shades each tile and hands
//! the finished tiles back to be composited, vertically flipped, into one
//! full-image chunk.

use vstd::prelude::*;

verus! {

/// Edge length of the square tiles the image is partitioned into.
pub const CHUNK_SIZE: u32 = 32;

/// A rectangular region of an image: its placement `(x, y)` inside the full
/// image, its size, and a flat buffer of `width * height` interleaved RGB
/// byte triples, row-major.
#[derive(Clone)]
pub struct ImageChunk {
    pub x: u32,
    pub y: u32,
    pub width: u32,
    pub height: u32,
    pub data: Vec<u8>,
}

impl ImageChunk {
    /// The buffer holds exactly one RGB triple per pixel.
    pub open spec fn wf(self) -> bool {
        self.data.len() == self.width as int * self.height as int * 3
    }

    /// Channel `k` (0 red, 1 green, 2 blue) of the pixel in column `px`,
    /// row `py` of this chunk's own coordinate system.
    pub open spec fn pix(self, px: int, py: int, k: int) -> u8 {
        self.data[(px + py * self.width as int) * 3 + k]
    }
}

/// The byte index of every channel of an in-range pixel lies inside a
/// well-formed buffer.
pub(crate) proof fn lemma_pix_index_in_bounds(px: int, py: int, w: int, h: int)
    by (nonlinear_arith)
    requires
        0 <= px < w,
        0 <= py < h,
    ensures
        0 <= (px + py * w) * 3,
        (px + py * w) * 3 + 2 < w * h * 3,
{
}

/// Distinct (pixel, channel) pairs of one buffer have distinct byte indices.
proof fn lemma_pix_index_injective(
    px1: int, py1: int, k1: int, px2: int, py2: int, k2: int, w: int,
)
    by (nonlinear_arith)
    requires
        0 <= px1 < w,
        0 <= px2 < w,
        0 <= py1,
        0 <= py2,
        0 <= k1 < 3,
        0 <= k2 < 3,
        (px1 + py1 * w) * 3 + k1 == (px2 + py2 * w) * 3 + k2,
    ensures
        px1 == px2,
        py1 == py2,
        k1 == k2,
{
}

impl ImageChunk {
    /// A fresh chunk of the given placement and size, every channel of every
    /// pixel set to `fill`.
    pub fn new(x: u32, y: u32, width: u32, height: u32, fill: u8) -> (c: ImageChunk)
        requires
            width as int * height as int * 3 <= usize::MAX as int,
        ensures
            c.x == x,
            c.y == y,
            c.width == width,
            c.height == height,
            c.wf(),
            forall|px: int, py: int, k: int|
                0 <= px < width && 0 <= py < height && 0 <= k < 3 ==> #[trigger] c.pix(px, py, k) == fill,
    {
        let total: usize = (width as usize) * (height as usize) * 3;
        let mut data: Vec<u8> = Vec::new();
        let mut n: usize = 0;
        while n < total
            invariant
                n == data.len(),
                n <= total,
                total == width as int * height as int * 3,
                forall|m: int| 0 <= m < n ==> data[m] == fill,
            decreases total - n,
        {
            data.push(fill);
            n = n + 1;
        }
        let c = ImageChunk { x, y, width, height, data };
        proof {
            assert forall|px: int, py: int, k: int|
                0 <= px < width && 0 <= py < height && 0 <= k < 3 implies #[trigger] c.pix(px, py, k) == fill by {
                lemma_pix_index_in_bounds(px, py, width as int, height as int);
            }
        }
        c
    }

    /// Overwrite the three channels of pixel `(px, py)` with `rgb`; every
    /// other pixel keeps its value.
    pub fn set_pixel(&mut self, px: u32, py: u32, rgb: (u8, u8, u8))
        requires
            old(self).wf(),
            px < old(self).width,
            py < old(self).height,
        ensures
            final(self).x == old(self).x,
            final(self).y == old(self).y,
            final(self).width == old(self).width,
            final(self).height == old(self).height,
            final(self).wf(),
            final(self).pix(px as int, py as int, 0) == rgb.0,
            final(self).pix(px as int, py as int, 1) == rgb.1,
            final(self).pix(px as int, py as int, 2) == rgb.2,
            forall|qx: int, qy: int, k: int|
                0 <= qx < old(self).width && 0 <= qy < old(self).height && 0 <= k < 3
                    && !(qx == px && qy == py)
                    ==> #[trigger] final(self).pix(qx, qy, k) == old(self).pix(qx, qy, k),
    {
        proof {
            lemma_pix_index_in_bounds(px as int, py as int, self.width as int, self.height as int);
        }
        let base: usize = ((px as usize) + (py as usize) * (self.width as usize)) * 3;
        self.data.set(base, rgb.0);
        self.data.set(base + 1, rgb.1);
        self.data.set(base + 2, rgb.2);
        proof {
            assert forall|qx: int, qy: int, k: int|
                0 <= qx < old(self).width && 0 <= qy < old(self).height && 0 <= k < 3
                    && !(qx == px && qy == py)
                    implies #[trigger] self.pix(qx, qy, k) == old(self).pix(qx, qy, k) by {
                lemma_pix_index_in_bounds(qx, qy, self.width as int, self.height as int);
                let idx: int = (qx + qy * self.width as int) * 3 + k;
                if idx == base as int || idx == base as int + 1 || idx == base as int + 2 {
                    lemma_pix_index_injective(
                        qx, qy, k,
                        px as int, py as int, idx - base as int,
                        self.width as int,
                    );
                }
            }
        }
    }

    /// Read the three channels of pixel `(px, py)`.
    pub fn get_pixel(&self, px: u32, py: u32) -> (rgb: (u8, u8, u8))
        requires
            self.wf(),
            px < self.width,
            py < self.height,
        ensures
            rgb.0 == self.pix(px as int, py as int, 0),
            rgb.1 == self.pix(px as int, py as int, 1),
            rgb.2 == self.pix(px as int, py as int, 2),
    {
        proof {
            lemma_pix_index_in_bounds(px as int, py as int, self.width as int, self.height as int);
        }
        let base: usize = ((px as usize) + (py as usize) * (self.width as usize)) * 3;
        (self.data[base], self.data[base + 1], self.data[base + 2])
    }
}

/// The tiled rendering scheme: plan a grid of tiles over the image and
/// composite shaded tiles back into one full-image chunk.
pub struct Renderer;

/// Number of tiles a span of `len` pixels is cut into: `len / CHUNK_SIZE`,
/// rounded up.
pub open spec fn chunk_count(len: u32) -> int {
    if len % CHUNK_SIZE == 0 {
        len as int / CHUNK_SIZE as int
    } else {
        len as int / CHUNK_SIZE as int + 1
    }
}

/// `c = (x, y, w, h)` is a tile of a `width * height` image: its origin on
/// the tile grid, its sides non-empty and at most `CHUNK_SIZE`, and the whole
/// rectangle inside the image.
pub open spec fn valid_chunk(c: (u32, u32, u32, u32), width: u32, height: u32) -> bool {
    &&& c.0 % CHUNK_SIZE == 0
    &&& c.1 % CHUNK_SIZE == 0
    &&& 1 <= c.2 <= CHUNK_SIZE
    &&& 1 <= c.3 <= CHUNK_SIZE
    &&& c.0 + c.2 <= width
    &&& c.1 + c.3 <= height
}

/// Pixel `(px, py)` of the image lies inside tile `c`.
pub open spec fn chunk_covers(c: (u32, u32, u32, u32), px: int, py: int) -> bool {
    &&& c.0 <= px < c.0 + c.2
    &&& c.1 <= py < c.1 + c.3
}

/// Some tile of `coords` contains pixel `(px, py)`.
pub open spec fn covered(coords: Seq<(u32, u32, u32, u32)>, px: int, py: int) -> bool {
    exists|n: int| 0 <= n < coords.len() && chunk_covers(#[trigger] coords[n], px, py)
}

/// Tile origins in the order the planner emits them: left to right, and top
/// to bottom within a column.
spec fn origin_lt(a: (u32, u32, u32, u32), b: (u32, u32, u32, u32)) -> bool {
    a.0 < b.0 || (a.0 == b.0 && a.1 < b.1)
}

/// Grid index `i` of a span of `len` pixels starts strictly inside the span.
proof fn lemma_grid_start(len: u32, i: int)
    requires
        0 <= i < chunk_count(len),
    ensures
        i * CHUNK_SIZE < len,
{
    assert(len as int / 32 * 32 + len as int % 32 == len);
    assert(i * 32 <= (len as int / 32) * 32) by (nonlinear_arith)
        requires
            i <= len as int / 32,
        ;
    if len % CHUNK_SIZE == 0 {
        assert(i * 32 <= (len as int / 32 - 1) * 32) by (nonlinear_arith)
            requires
                i <= len as int / 32 - 1,
            ;
    }
}

/// The planned grid spans the whole image: `chunk_count(len)` tiles of edge
/// `CHUNK_SIZE` reach past `len`.
proof fn lemma_grid_covers(len: u32)
    ensures
        chunk_count(len) * CHUNK_SIZE >= len,
{
    assert(len as int / 32 * 32 + len as int % 32 == len);
    if len % CHUNK_SIZE != 0 {
        assert((len as int / 32 + 1) * 32 == (len as int / 32) * 32 + 32) by (nonlinear_arith);
    }
}

/// A tile origin component is determined by any pixel the tile contains:
/// it is the pixel's coordinate rounded down to the grid.
proof fn lemma_origin_from_pixel(a: int, p: int)
    requires
        a % 32 == 0,
        a <= p < a + 32,
    ensures
        a == p - p % 32,
{
    assert(a == p - p % 32) by (nonlinear_arith)
        requires
            a % 32 == 0,
            a <= p < a + 32,
        ;
}

impl Renderer {
    /// Cut a `width * height` image into a grid of tiles. Every tile is a
    /// well-placed rectangle of the grid; every pixel of the image lies in a
    /// tile; and no pixel lies in two.
    #[verifier::loop_isolation(false)]
    pub fn plan_chunks(width: u32, height: u32) -> (coords: Vec<(u32, u32, u32, u32)>)
        ensures
            forall|n: int|
                0 <= n < coords@.len() ==> valid_chunk(#[trigger] coords@[n], width, height),
            forall|px: int, py: int|
                0 <= px < width && 0 <= py < height ==> #[trigger] covered(coords@, px, py),
            forall|m: int, n: int, px: int, py: int|
                0 <= m < coords@.len() && 0 <= n < coords@.len()
                    && #[trigger] chunk_covers(coords@[m], px, py)
                    && #[trigger] chunk_covers(coords@[n], px, py) ==> m == n,
    {
        let chunks_x: u32 = if width % CHUNK_SIZE == 0 {
            width / CHUNK_SIZE
        } else {
            width / CHUNK_SIZE + 1
        };
        let chunks_y: u32 = if height % CHUNK_SIZE == 0 {
            height / CHUNK_SIZE
        } else {
            height / CHUNK_SIZE + 1
        };
        assert(chunks_x == chunk_count(width));
        assert(chunks_y == chunk_count(height));

        let mut coords: Vec<(u32, u32, u32, u32)> = Vec::new();
        let mut x: u32 = 0;
        while x < chunks_x
            invariant
                x <= chunks_x,
                forall|n: int|
                    0 <= n < coords@.len() ==> valid_chunk(#[trigger] coords@[n], width, height),
                forall|n: int| 0 <= n < coords@.len() ==> (#[trigger] coords@[n]).0 < x * CHUNK_SIZE,
                forall|m: int, n: int|
                    0 <= m < n < coords@.len() ==> origin_lt(coords@[m], coords@[n]),
                forall|px: int, py: int|
                    0 <= px < x * CHUNK_SIZE && px < width && 0 <= py < height
                        ==> #[trigger] covered(coords@, px, py),
            decreases chunks_x - x,
        {
            proof {
                lemma_grid_start(width, x as int);
            }
            let g_x: u32 = x * CHUNK_SIZE;
            let w: u32 = if width - g_x < CHUNK_SIZE {
                width - g_x
            } else {
                CHUNK_SIZE
            };

            let mut y: u32 = 0;
            while y < chunks_y
                invariant
                    y <= chunks_y,
                    forall|n: int|
                        0 <= n < coords@.len() ==> valid_chunk(#[trigger] coords@[n], width, height),
                    forall|n: int|
                        0 <= n < coords@.len()
                            ==> (#[trigger] coords@[n]).0 < g_x
                            || (coords@[n].0 == g_x && coords@[n].1 < y * CHUNK_SIZE),
                    forall|m: int, n: int|
                        0 <= m < n < coords@.len() ==> origin_lt(coords@[m], coords@[n]),
                    forall|px: int, py: int|
                        0 <= px < g_x && px < width && 0 <= py < height
                            ==> #[trigger] covered(coords@, px, py),
                    forall|px: int, py: int|
                        g_x <= px < g_x + w && 0 <= py < y * CHUNK_SIZE && py < height
                            ==> #[trigger] covered(coords@, px, py),
                decreases chunks_y - y,
            {
                proof {
                    lemma_grid_start(height, y as int);
                }
                let g_y: u32 = y * CHUNK_SIZE;
                let h: u32 = if height - g_y < CHUNK_SIZE {
                    height - g_y
                } else {
                    CHUNK_SIZE
                };

                let c = (g_x, g_y, w, h);
                let ghost before = coords@;
                coords.push(c);
                proof {
                    assert forall|px: int, py: int|
                        0 <= px < g_x && px < width && 0 <= py < height
                        implies #[trigger] covered(coords@, px, py) by {
                        assert(covered(before, px, py));
                        let n = choose|n: int|
                            0 <= n < before.len() && chunk_covers(#[trigger] before[n], px, py);
                        assert(coords@[n] == before[n]);
                        assert(chunk_covers(coords@[n], px, py));
                    }
                    assert forall|px: int, py: int|
                        g_x <= px < g_x + w && 0 <= py < (y + 1) * CHUNK_SIZE && py < height
                        implies #[trigger] covered(coords@, px, py) by {
                        if py < y * CHUNK_SIZE {
                            assert(covered(before, px, py));
                            let n = choose|n: int|
                                0 <= n < before.len() && chunk_covers(#[trigger] before[n], px, py);
                            assert(coords@[n] == before[n]);
                            assert(chunk_covers(coords@[n], px, py));
                        } else {
                            let n = before.len() as int;
                            assert(coords@[n] == c);
                            assert(chunk_covers(coords@[n], px, py));
                        }
                    }
                }
                y = y + 1;
            }
            x = x + 1;
            proof {
                lemma_grid_covers(height);
            }
        }
        proof {
            lemma_grid_covers(width);
            assert forall|m: int, n: int, px: int, py: int|
                0 <= m < coords@.len() && 0 <= n < coords@.len()
                    && #[trigger] chunk_covers(coords@[m], px, py)
                    && #[trigger] chunk_covers(coords@[n], px, py)
                implies m == n by {
                let a = coords@[m];
                let b = coords@[n];
                lemma_origin_from_pixel(a.0 as int, px);
                lemma_origin_from_pixel(b.0 as int, px);
                lemma_origin_from_pixel(a.1 as int, py);
                lemma_origin_from_pixel(b.1 as int, py);
                if m < n {
                    assert(origin_lt(coords@[m], coords@[n]));
                } else if n < m {
                    assert(origin_lt(coords@[n], coords@[m]));
                }
            }
        }
        coords
    }

    /// Copy a finished tile into the full-image chunk `global`. Tile row `j`
    /// lands on global row `global.height - (chunk.y + j) - 1`: tiles are
    /// rendered with the image's bottom-left origin, while the output buffer
    /// stores its top row first. Pixels outside the tile's target rectangle
    /// keep their value.
    #[verifier::loop_isolation(false)]
    pub fn sub_image(global: &mut ImageChunk, chunk: &ImageChunk)
        requires
            old(global).wf(),
            chunk.wf(),
            chunk.x + chunk.width <= old(global).width,
            chunk.y + chunk.height <= old(global).height,
        ensures
            final(global).x == old(global).x,
            final(global).y == old(global).y,
            final(global).width == old(global).width,
            final(global).height == old(global).height,
            final(global).wf(),
            forall|i: int, j: int, k: int|
                0 <= i < chunk.width && 0 <= j < chunk.height && 0 <= k < 3
                    ==> final(global).pix(
                        chunk.x + i,
                        old(global).height - (chunk.y + j) - 1,
                        k,
                    ) == #[trigger] chunk.pix(i, j, k),
            forall|qx: int, qy: int, k: int|
                0 <= qx < old(global).width && 0 <= qy < old(global).height && 0 <= k < 3
                    && !(chunk.x <= qx < chunk.x + chunk.width
                        && old(global).height - chunk.y - chunk.height <= qy
                            < old(global).height - chunk.y)
                    ==> #[trigger] final(global).pix(qx, qy, k) == old(global).pix(qx, qy, k),
    {
        let mut i: u32 = 0;
        while i < chunk.width
            invariant
                i <= chunk.width,
                global.x == old(global).x,
                global.y == old(global).y,
                global.width == old(global).width,
                global.height == old(global).height,
                global.wf(),
                forall|a: int, b: int, k: int|
                    0 <= a < i && 0 <= b < chunk.height && 0 <= k < 3
                        ==> global.pix(
                            chunk.x + a,
                            old(global).height - (chunk.y + b) - 1,
                            k,
                        ) == #[trigger] chunk.pix(a, b, k),
                forall|qx: int, qy: int, k: int|
                    0 <= qx < old(global).width && 0 <= qy < old(global).height && 0 <= k < 3
                        && !(chunk.x <= qx < chunk.x + i
                            && old(global).height - chunk.y - chunk.height <= qy
                                < old(global).height - chunk.y)
                        ==> #[trigger] global.pix(qx, qy, k) == old(global).pix(qx, qy, k),
            decreases chunk.width - i,
        {
            let mut j: u32 = 0;
            while j < chunk.height
                invariant
                    i < chunk.width,
                    j <= chunk.height,
                    global.x == old(global).x,
                    global.y == old(global).y,
                    global.width == old(global).width,
                    global.height == old(global).height,
                    global.wf(),
                    forall|a: int, b: int, k: int|
                        0 <= a < i && 0 <= b < chunk.height && 0 <= k < 3
                            ==> global.pix(
                                chunk.x + a,
                                old(global).height - (chunk.y + b) - 1,
                                k,
                            ) == #[trigger] chunk.pix(a, b, k),
                    forall|b: int, k: int|
                        0 <= b < j && 0 <= k < 3
                            ==> global.pix(
                                chunk.x + i,
                                old(global).height - (chunk.y + b) - 1,
                                k,
                            ) == #[trigger] chunk.pix(i as int, b, k),
                    forall|qx: int, qy: int, k: int|
                        0 <= qx < old(global).width && 0 <= qy < old(global).height && 0 <= k < 3
                            && !(chunk.x <= qx < chunk.x + i
                                && old(global).height - chunk.y - chunk.height <= qy
                                    < old(global).height - chunk.y)
                            && !(qx == chunk.x + i
                                && old(global).height - chunk.y - j <= qy
                                    < old(global).height - chunk.y)
                            ==> #[trigger] global.pix(qx, qy, k) == old(global).pix(qx, qy, k),
                decreases chunk.height - j,
            {
                let rgb = chunk.get_pixel(i, j);
                let tx: u32 = i + chunk.x;
                let ty: u32 = global.height - (j + chunk.y) - 1;
                global.set_pixel(tx, ty, rgb);
                j = j + 1;
            }
            i = i + 1;
        }
    }
}

/// Pixel `(px, py)` of the full image lies inside the source rectangle of
/// chunk `c`.
pub open spec fn rect_covers(c: ImageChunk, px: int, py: int) -> bool {
    &&& c.x <= px < c.x + c.width
    &&& c.y <= py < c.y + c.height
}

/// Some chunk among the first `m` of `chunks` has `(px, py)` in its source
/// rectangle.
pub open spec fn rect_covered_upto(chunks: Seq<ImageChunk>, m: int, px: int, py: int) -> bool {
    exists|n: int| 0 <= n < m && rect_covers(#[trigger] chunks[n], px, py)
}

impl Renderer {
    /// Paste every shaded tile into one `width * height` image chunk with
    /// `sub_image`'s vertical flip. The tiles' source rectangles must lie
    /// inside the image and be pairwise disjoint; a pixel no tile claims
    /// keeps the fill value 255.
    #[verifier::loop_isolation(false)]
    pub fn composite(width: u32, height: u32, chunks: &Vec<ImageChunk>) -> (r: ImageChunk)
        requires
            width as int * height as int * 3 <= usize::MAX as int,
            forall|n: int| 0 <= n < chunks@.len() ==> (#[trigger] chunks@[n]).wf(),
            forall|n: int|
                0 <= n < chunks@.len() ==> (#[trigger] chunks@[n]).x + chunks@[n].width <= width,
            forall|n: int|
                0 <= n < chunks@.len() ==> (#[trigger] chunks@[n]).y + chunks@[n].height <= height,
            forall|m: int, n: int, px: int, py: int|
                0 <= m < chunks@.len() && 0 <= n < chunks@.len()
                    && #[trigger] rect_covers(chunks@[m], px, py)
                    && #[trigger] rect_covers(chunks@[n], px, py) ==> m == n,
        ensures
            r.x == 0,
            r.y == 0,
            r.width == width,
            r.height == height,
            r.wf(),
            forall|n: int, i: int, j: int, k: int|
                0 <= n < chunks@.len() && 0 <= i < chunks@[n].width && 0 <= j < chunks@[n].height
                    && 0 <= k < 3
                    ==> r.pix(
                        chunks@[n].x + i,
                        height - (chunks@[n].y + j) - 1,
                        k,
                    ) == #[trigger] chunks@[n].pix(i, j, k),
            forall|qx: int, qy: int, k: int|
                0 <= qx < width && 0 <= qy < height && 0 <= k < 3
                    && !rect_covered_upto(chunks@, chunks@.len() as int, qx, height - 1 - qy)
                    ==> #[trigger] r.pix(qx, qy, k) == 255,
    {
        let mut global = ImageChunk::new(0, 0, width, height, 255);
        let mut m: usize = 0;
        while m < chunks.len()
            invariant
                m <= chunks@.len(),
                global.x == 0,
                global.y == 0,
                global.width == width,
                global.height == height,
                global.wf(),
                forall|n: int, i: int, j: int, k: int|
                    0 <= n < m && 0 <= i < chunks@[n].width && 0 <= j < chunks@[n].height
                        && 0 <= k < 3
                        ==> global.pix(
                            chunks@[n].x + i,
                            height - (chunks@[n].y + j) - 1,
                            k,
                        ) == #[trigger] chunks@[n].pix(i, j, k),
                forall|qx: int, qy: int, k: int|
                    0 <= qx < width && 0 <= qy < height && 0 <= k < 3
                        && !rect_covered_upto(chunks@, m as int, qx, height - 1 - qy)
                        ==> #[trigger] global.pix(qx, qy, k) == 255,
            decreases chunks@.len() - m,
        {
            let ghost prev = global;
            let ghost c = chunks@[m as int];
            Renderer::sub_image(&mut global, &chunks[m]);
            proof {
                assert forall|n: int, i: int, j: int, k: int|
                    0 <= n < m as int + 1 && 0 <= i < chunks@[n].width && 0 <= j
                        < chunks@[n].height && 0 <= k < 3
                    implies global.pix(
                        chunks@[n].x + i,
                        height - (chunks@[n].y + j) - 1,
                        k,
                    ) == #[trigger] chunks@[n].pix(i, j, k) by {
                    let tx = chunks@[n].x + i;
                    let ty = height - (chunks@[n].y + j) - 1;
                    if n == m as int {
                        assert(global.pix(tx, ty, k) == chunks@[n].pix(i, j, k));
                    } else {
                        assert(prev.pix(tx, ty, k) == chunks@[n].pix(i, j, k));
                        if c.x <= tx < c.x + c.width && height - c.y - c.height <= ty
                            < height - c.y {
                            let sy = height - 1 - ty;
                            assert(rect_covers(chunks@[n], tx, sy));
                            assert(rect_covers(c, tx, sy));
                            assert(false);
                        }
                        assert(global.pix(tx, ty, k) == prev.pix(tx, ty, k));
                    }
                }
                assert forall|qx: int, qy: int, k: int|
                    0 <= qx < width && 0 <= qy < height && 0 <= k < 3
                        && !rect_covered_upto(chunks@, m as int + 1, qx, height - 1 - qy)
                    implies #[trigger] global.pix(qx, qy, k) == 255 by {
                    let sy = height - 1 - qy;
                    if rect_covered_upto(chunks@, m as int, qx, sy) {
                        let n = choose|n: int|
                            0 <= n < m as int && rect_covers(#[trigger] chunks@[n], qx, sy);
                        assert(rect_covers(chunks@[n], qx, sy));
                        assert(rect_covered_upto(chunks@, m as int + 1, qx, sy));
                        assert(false);
                    }
                    assert(prev.pix(qx, qy, k) == 255);
                    if rect_covers(c, qx, sy) {
                        assert(rect_covered_upto(chunks@, m as int + 1, qx, sy));
                        assert(false);
                    }
                    assert(!(c.x <= qx < c.x + c.width && height - c.y - c.height <= qy
                        < height - c.y));
                    assert(global.pix(qx, qy, k) == prev.pix(qx, qy, k));
                }
            }
            m = m + 1;
        }
        global
    }
}

/// Tiles shaded along a plan of `plan_chunks` composite into a full image
/// exactly once: when the chunks' placements and sizes are the planned
/// tiles', their source rectangles are pairwise disjoint, as `composite`
/// requires, and together they claim every pixel of the image, so no pixel
/// of the composited image is left at the background fill.
pub proof fn lemma_planned_chunks_composite_exactly_once(
    coords: Seq<(u32, u32, u32, u32)>,
    chunks: Seq<ImageChunk>,
    width: u32,
    height: u32,
)
    requires
        coords.len() == chunks.len(),
        forall|n: int|
            0 <= n < coords.len() ==> (#[trigger] chunks[n]).x == coords[n].0
                && chunks[n].y == coords[n].1 && chunks[n].width == coords[n].2
                && chunks[n].height == coords[n].3,
        forall|px: int, py: int|
            0 <= px < width && 0 <= py < height ==> #[trigger] covered(coords, px, py),
        forall|m: int, n: int, px: int, py: int|
            0 <= m < coords.len() && 0 <= n < coords.len()
                && #[trigger] chunk_covers(coords[m], px, py)
                && #[trigger] chunk_covers(coords[n], px, py) ==> m == n,
    ensures
        forall|m: int, n: int, px: int, py: int|
            0 <= m < chunks.len() && 0 <= n < chunks.len()
                && #[trigger] rect_covers(chunks[m], px, py)
                && #[trigger] rect_covers(chunks[n], px, py) ==> m == n,
        forall|px: int, py: int|
            0 <= px < width && 0 <= py < height
                ==> #[trigger] rect_covered_upto(chunks, chunks.len() as int, px, py),
{
    assert forall|m: int, n: int, px: int, py: int|
        0 <= m < chunks.len() && 0 <= n < chunks.len()
            && #[trigger] rect_covers(chunks[m], px, py)
            && #[trigger] rect_covers(chunks[n], px, py) implies m == n by {
        assert(chunk_covers(coords[m], px, py));
        assert(chunk_covers(coords[n], px, py));
    }
    assert forall|px: int, py: int| 0 <= px < width && 0 <= py < height
        implies #[trigger] rect_covered_upto(chunks, chunks.len() as int, px, py) by {
        assert(covered(coords, px, py));
        let n = choose|n: int| 0 <= n < coords.len() && chunk_covers(#[trigger] coords[n], px, py);
        assert(rect_covers(chunks[n], px, py));
    }
}

} // verus!
