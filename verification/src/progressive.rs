//! Progressive refinement rendering: state of the renderer and the pixel
//! buffer that a compute worker fills pass by pass.
//!
//! Pass `k` uses block size `64 >> k`.  In a pass of block size `bs`, each
//! sample point `(px, py)` on the `bs`-grid is computed once and its colour
//! fills the `bs x bs` block whose top-left corner it is.  After the first
//! pass, samples that also lie on the `2 bs`-grid are skipped: they were
//! computed by the previous, coarser pass.
use vstd::prelude::*;
use vstd::arithmetic::div_mod::{
    lemma_fundamental_div_mod,
    lemma_fundamental_div_mod_converse,
};

verus! {

/// Starting block size for progressive refinement (powers of 2).
/// First pass samples every 64th pixel, then 32, 16, 8, 4, 2, 1.
pub const INITIAL_BLOCK_SIZE: u32 = 64;

// ---------------------------------------------------------------------------
// Renderer state
// ---------------------------------------------------------------------------

/// Handles progressive refinement rendering for any fractal: the size of the
/// drawing area, whether it must be recomputed, and whether a computation
/// is in flight.
pub struct ProgressiveRenderer {
    pub width: u32,
    pub height: u32,
    pub dirty: bool,
    computing: bool,
}

impl ProgressiveRenderer {
    pub closed spec fn spec_width(&self) -> u32 {
        self.width
    }

    pub closed spec fn spec_height(&self) -> u32 {
        self.height
    }

    /// Whether the content must be recomputed.
    pub closed spec fn spec_dirty(&self) -> bool {
        self.dirty
    }

    /// Whether a computation is in flight.
    pub closed spec fn spec_computing(&self) -> bool {
        self.computing
    }

    pub fn new() -> (r: Self)
        ensures
            r.spec_width() == 0,
            r.spec_height() == 0,
            r.spec_dirty(),
            !r.spec_computing(),
    {
        ProgressiveRenderer { width: 0, height: 0, dirty: true, computing: false }
    }

    /// Mark as dirty so the next render() triggers a recompute.
    pub fn mark_dirty(&mut self)
        ensures
            final(self).spec_dirty(),
            final(self).spec_width() == old(self).spec_width(),
            final(self).spec_height() == old(self).spec_height(),
            final(self).spec_computing() == old(self).spec_computing(),
    {
        self.dirty = true;
    }

    /// Update dimensions. Returns true if they changed.
    pub fn set_size(&mut self, width: u32, height: u32) -> (changed: bool)
        ensures
            changed == (width != old(self).spec_width() || height != old(self).spec_height()),
            final(self).spec_width() == width,
            final(self).spec_height() == height,
            final(self).spec_dirty() == (old(self).spec_dirty() || changed),
            final(self).spec_computing() == old(self).spec_computing(),
    {
        if width != self.width || height != self.height {
            self.width = width;
            self.height = height;
            self.dirty = true;
            true
        } else {
            false
        }
    }

    /// Whether a computation is in flight.
    pub fn is_computing(&self) -> (b: bool)
        ensures
            b == self.spec_computing(),
    {
        self.computing
    }

    /// Whether render() starts a new computation: the content is dirty and
    /// the area is not empty.
    pub open spec fn will_compute(&self) -> bool {
        self.spec_dirty() && self.spec_width() > 0 && self.spec_height() > 0
    }

    /// Whether render() must start a new computation.
    pub fn needs_compute(&self) -> (b: bool)
        ensures
            b == self.will_compute(),
    {
        self.dirty && self.width > 0 && self.height > 0
    }

    /// Record that a new computation has been started.
    pub fn begin_compute(&mut self)
        ensures
            final(self).spec_computing(),
            !final(self).spec_dirty(),
            final(self).spec_width() == old(self).spec_width(),
            final(self).spec_height() == old(self).spec_height(),
    {
        self.computing = true;
        self.dirty = false;
    }

    /// The decision of each frame: take the size of the drawing area, and
    /// start a computation when the content is dirty (or the size changed)
    /// and the area is not empty.  Returns whether a computation starts.
    pub fn begin_frame(&mut self, width: u32, height: u32) -> (start: bool)
        ensures
            final(self).spec_width() == width,
            final(self).spec_height() == height,
            start == ((old(self).spec_dirty() || width != old(self).spec_width() || height != old(self).spec_height())
                && width > 0 && height > 0),
            start ==> final(self).spec_computing() && !final(self).spec_dirty(),
            !start ==> final(self).spec_computing() == old(self).spec_computing() && final(self).spec_dirty() == (
            old(self).spec_dirty() || width != old(self).spec_width() || height != old(self).spec_height()),
    {
        self.set_size(width, height);
        if self.needs_compute() {
            self.begin_compute();
            true
        } else {
            false
        }
    }

    /// Record what render() saw of the buffer: once the buffer reports that
    /// the computation is done, the renderer is no longer computing.
    pub fn observe_done(&mut self, buffer_done: bool)
        ensures
            final(self).spec_computing() == (old(self).spec_computing() && !buffer_done),
            final(self).spec_dirty() == old(self).spec_dirty(),
            final(self).spec_width() == old(self).spec_width(),
            final(self).spec_height() == old(self).spec_height(),
    {
        if buffer_done && self.computing {
            self.computing = false;
        }
    }
}

// ---------------------------------------------------------------------------
// Pixel buffer
// ---------------------------------------------------------------------------

/// Row-major pixels written by the compute worker and read by the renderer.
pub struct PixelBuffer {
    pixels: Vec<u32>,
    width: u32,
    height: u32,
    current_block_size: u32,
    done: bool,
}

/// Width of the block at column `px` of a `wu`-wide image: `min(bs, wu - px)`.
pub open spec fn block_width(wu: int, px: int, bs: int) -> int {
    if bs <= wu - px {
        bs
    } else {
        wu - px
    }
}

/// Whether flat index `k` of a `wu`-wide image lies in the rectangle of
/// `bw` columns from `px` and `bh` rows from `py`.
pub open spec fn in_rect(k: int, wu: int, px: int, py: int, bw: int, bh: int) -> bool {
    &&& py <= k / wu < py + bh
    &&& px <= k % wu < px + bw
}

/// The pixels after filling the `bs`-block at `(px, py)` (clipped to the
/// `wu x hu` image) with `color`.
pub open spec fn fill_block_spec(
    p: Seq<u32>,
    wu: int,
    hu: int,
    px: int,
    py: int,
    bs: int,
    color: u32,
) -> Seq<u32> {
    Seq::new(
        p.len(),
        |k: int|
            if in_rect(k, wu, px, py, block_width(wu, px, bs), block_width(hu, py, bs)) {
                color
            } else {
                p[k]
            },
    )
}

/// One past the last index that filling the block at `(px, py)` writes.
pub open spec fn block_end(wu: int, hu: int, px: int, py: int, bs: int) -> int {
    (py + block_width(hu, py, bs) - 1) * wu + px + block_width(wu, px, bs)
}

impl PixelBuffer {
    pub closed spec fn spec_pixels(&self) -> Seq<u32> {
        self.pixels@
    }

    pub closed spec fn spec_width(&self) -> nat {
        self.width as nat
    }

    pub closed spec fn spec_height(&self) -> nat {
        self.height as nat
    }

    pub closed spec fn spec_block_size(&self) -> nat {
        self.current_block_size as nat
    }

    pub closed spec fn spec_done(&self) -> bool {
        self.done
    }

    /// Invariant: the pixels are exactly one row-major image of the recorded size.
    pub open spec fn wf(&self) -> bool {
        self.spec_pixels().len() == self.spec_width() * self.spec_height()
    }

    /// An empty buffer: no pixels, coarsest block size, nothing in flight.
    pub fn new() -> (b: Self)
        ensures
            b.wf(),
            b.spec_pixels() == Seq::<u32>::empty(),
            b.spec_width() == 0,
            b.spec_height() == 0,
            b.spec_block_size() == INITIAL_BLOCK_SIZE,
            b.spec_done(),
    {
        PixelBuffer {
            pixels: Vec::new(),
            width: 0,
            height: 0,
            current_block_size: INITIAL_BLOCK_SIZE,
            done: true,
        }
    }

    /// Initialize the buffer for a new `width x height` computation.  The
    /// pixel vector is resized: existing pixels are kept, new ones are 0.
    pub fn begin(&mut self, width: u32, height: u32)
        requires
            width * height <= u32::MAX,
        ensures
            final(self).wf(),
            final(self).spec_width() == width,
            final(self).spec_height() == height,
            final(self).spec_block_size() == INITIAL_BLOCK_SIZE,
            !final(self).spec_done(),
            (width * height <= old(self).spec_pixels().len()) ==> final(self).spec_pixels()
                == old(self).spec_pixels().subrange(0, width * height),
            (width * height > old(self).spec_pixels().len()) ==> final(self).spec_pixels()
                == old(self).spec_pixels() + Seq::new(
                (width * height - old(self).spec_pixels().len()) as nat,
                |i: int| 0u32,
            ),
    {
        let n = (width * height) as usize;
        let ghost old_pixels = self.pixels@;
        self.pixels.resize(n, 0);
        proof {
            if n > old_pixels.len() {
                assert(self.pixels@ =~= old_pixels + Seq::new(
                    (n - old_pixels.len()) as nat,
                    |i: int| 0u32,
                )) by {
                    assert forall|i: int| 0 <= i < n implies self.pixels@[i] == (old_pixels
                        + Seq::new((n - old_pixels.len()) as nat, |i: int| 0u32))[i] by {
                        if i < old_pixels.len() {
                            assert(self.pixels@.subrange(0, old_pixels.len() as int)[i]
                                == self.pixels@[i]);
                        }
                    }
                }
            }
        }
        self.width = width;
        self.height = height;
        self.current_block_size = INITIAL_BLOCK_SIZE;
        self.done = false;
    }

    pub fn width(&self) -> (w: u32)
        ensures
            w == self.spec_width(),
    {
        self.width
    }

    pub fn height(&self) -> (h: u32)
        ensures
            h == self.spec_height(),
    {
        self.height
    }

    /// The resolution of the latest completed pass.
    pub fn current_block_size(&self) -> (bs: u32)
        ensures
            bs == self.spec_block_size(),
    {
        self.current_block_size
    }

    pub fn is_done(&self) -> (d: bool)
        ensures
            d == self.spec_done(),
    {
        self.done
    }

    /// Whether there is an image to show.
    pub fn has_image(&self) -> (b: bool)
        ensures
            b == (self.spec_width() > 0 && self.spec_height() > 0),
    {
        self.width > 0 && self.height > 0
    }

    /// Bytes per row of the raster image: four per pixel.
    pub fn row_bytes(&self) -> (n: u64)
        ensures
            n == 4 * self.spec_width(),
    {
        self.width as u64 * 4
    }

    /// The pixel at flat index `k`.
    pub fn pixel(&self, k: usize) -> (c: u32)
        requires
            k < self.spec_pixels().len(),
        ensures
            c == self.spec_pixels()[k as int],
    {
        self.pixels[k]
    }

    /// The pixels as bytes, four per pixel in the machine's byte order.
    pub fn pixel_bytes(&self) -> (bytes: &[u8])
        ensures
            le_words(bytes@, self.spec_pixels()) || be_words(bytes@, self.spec_pixels()),
    {
        words_as_bytes(self.pixels.as_slice())
    }

    /// Update the current block size so the render thread knows the
    /// resolution of the latest completed pass.
    pub fn set_block_size(&mut self, block_size: u32)
        ensures
            final(self).spec_block_size() == block_size,
            final(self).spec_pixels() == old(self).spec_pixels(),
            final(self).spec_width() == old(self).spec_width(),
            final(self).spec_height() == old(self).spec_height(),
            final(self).spec_done() == old(self).spec_done(),
    {
        self.current_block_size = block_size;
    }

    /// Mark the computation as finished.
    pub fn finish(&mut self)
        ensures
            final(self).spec_done(),
            final(self).spec_pixels() == old(self).spec_pixels(),
            final(self).spec_width() == old(self).spec_width(),
            final(self).spec_height() == old(self).spec_height(),
            final(self).spec_block_size() == old(self).spec_block_size(),
    {
        self.done = true;
    }

    /// Whether the block at `(px, py)` of a `wu x hu` image lies within the
    /// pixel vector, so that `fill_block` may write it.
    pub fn block_fits(&self, wu: usize, hu: usize, px: usize, py: usize, bs: usize) -> (b: bool)
        requires
            px < wu,
            py < hu,
            bs >= 1,
        ensures
            b == (block_end(wu as int, hu as int, px as int, py as int, bs as int)
                <= self.spec_pixels().len()),
    {
        let bw = if bs <= wu - px { bs } else { wu - px };
        let bh = if bs <= hu - py { bs } else { hu - py };
        let len = self.pixels.len();
        // (py + bh - 1) * wu + px + bw <= len, without overflow
        let last_row = py + bh - 1;
        if wu == 0 {
            return false;
        }
        if last_row > len / wu {
            proof {
                lemma_row_past_end(last_row as int, wu as int, len as int, px as int + bw as int);
            }
            return false;
        }
        proof {
            assert(last_row as int * wu as int <= len) by {
                lemma_fundamental_div_mod(len as int, wu as int);
                assert(last_row as int * wu as int <= (len as int / wu as int) * wu as int)
                    by (nonlinear_arith)
                    requires
                        last_row as int <= len as int / wu as int,
                        wu > 0,
                ;
            }
        }
        let start = last_row * wu;
        start <= len && px + bw <= len - start
    }

    /// Fill the `bs x bs` block whose top-left corner is `(px, py)` with
    /// `color`, clipped to the `wu x hu` image, in rows of width `wu`.
    pub fn fill_block(&mut self, wu: usize, hu: usize, px: usize, py: usize, bs: usize, color: u32)
        requires
            px < wu,
            py < hu,
            bs >= 1,
            block_end(wu as int, hu as int, px as int, py as int, bs as int) <= old(
                self,
            ).spec_pixels().len(),
        ensures
            final(self).spec_pixels() == fill_block_spec(
                old(self).spec_pixels(),
                wu as int,
                hu as int,
                px as int,
                py as int,
                bs as int,
                color,
            ),
            final(self).spec_width() == old(self).spec_width(),
            final(self).spec_height() == old(self).spec_height(),
            final(self).spec_block_size() == old(self).spec_block_size(),
            final(self).spec_done() == old(self).spec_done(),
    {
        let bw = if bs <= wu - px { bs } else { wu - px };
        let bh = if bs <= hu - py { bs } else { hu - py };
        let total = self.pixels.len();
        let ghost p0 = self.pixels@;
        let ghost wi = wu as int;
        let ghost target = fill_block_spec(
            p0,
            wu as int,
            hu as int,
            px as int,
            py as int,
            bs as int,
            color,
        );
        let mut by: usize = 0;
        while by < bh
            invariant
                0 <= by <= bh,
                bw == block_width(wu as int, px as int, bs as int),
                bh == block_width(hu as int, py as int, bs as int),
                px < wu,
                py < hu,
                bw >= 1,
                wi == wu,
                (py + bh - 1) * wu + px + bw <= p0.len(),
                total == p0.len(),
                self.pixels@.len() == p0.len(),
                target == fill_block_spec(
                    p0,
                    wu as int,
                    hu as int,
                    px as int,
                    py as int,
                    bs as int,
                    color,
                ),
                forall|k: int|
                    0 <= k < p0.len() ==> #[trigger] self.pixels@[k] == if in_rect(
                        k,
                        wi,
                        px as int,
                        py as int,
                        bw as int,
                        by as int,
                    ) {
                        color
                    } else {
                        p0[k]
                    },
                self.width == old(self).width,
                self.height == old(self).height,
                self.current_block_size == old(self).current_block_size,
                self.done == old(self).done,
            decreases bh - by,
        {
            proof {
                assert((py + by) * wu + px + bw <= p0.len()) by (nonlinear_arith)
                    requires
                        (py + bh - 1) * wu + px + bw <= p0.len(),
                        by < bh,
                ;
                assert((py + by) * wu <= total);
            }
            let offset = (py + by) * wu + px;
            let mut bx: usize = 0;
            while bx < bw
                invariant
                    0 <= bx <= bw,
                    0 <= by < bh,
                    bw == block_width(wu as int, px as int, bs as int),
                    px < wu,
                    bw >= 1,
                    px + bw <= wu,
                    wi == wu,
                    offset == (py + by) * wu + px,
                    offset + bw <= p0.len(),
                    total == p0.len(),
                    self.pixels@.len() == p0.len(),
                    forall|k: int|
                        0 <= k < p0.len() ==> #[trigger] self.pixels@[k] == if in_rect(
                            k,
                            wi,
                            px as int,
                            py as int,
                            bw as int,
                            by as int,
                        ) || (offset <= k < offset + bx) {
                            color
                        } else {
                            p0[k]
                        },
                    self.width == old(self).width,
                    self.height == old(self).height,
                    self.current_block_size == old(self).current_block_size,
                    self.done == old(self).done,
                decreases bw - bx,
            {
                self.pixels.set(offset + bx, color);
                bx += 1;
            }
            proof {
                assert forall|k: int| 0 <= k < p0.len() implies (in_rect(
                    k,
                    wi,
                    px as int,
                    py as int,
                    bw as int,
                    by as int,
                ) || (offset <= k < offset + bw)) == in_rect(
                    k,
                    wi,
                    px as int,
                    py as int,
                    bw as int,
                    by + 1,
                ) by {
                    lemma_row_segment(k, wi, px as int, bw as int, py + by);
                }
                assert forall|k: int| 0 <= k < p0.len() implies #[trigger] self.pixels@[k]
                    == if in_rect(k, wi, px as int, py as int, bw as int, by + 1) {
                    color
                } else {
                    p0[k]
                } by {
                    lemma_row_segment(k, wi, px as int, bw as int, py + by);
                }
            }
            by += 1;
        }
        proof {
            assert(self.pixels@ =~= target);
        }
    }
}

/// `k` lies in row `row` between columns `px` and `px + bw` exactly when it is
/// in `[row * wu + px, row * wu + px + bw)`.
proof fn lemma_row_segment(k: int, wu: int, px: int, bw: int, row: int)
    requires
        wu > 0,
        0 <= k,
        0 <= px,
        px + bw <= wu,
        0 <= row,
    ensures
        (k / wu == row && px <= k % wu < px + bw) == (row * wu + px <= k < row * wu + px + bw),
{
    lemma_fundamental_div_mod(k, wu);
    if row * wu + px <= k < row * wu + px + bw {
        lemma_fundamental_div_mod_converse(k, wu, row, k - row * wu);
    }
    if k / wu == row && px <= k % wu < px + bw {
        assert(k == wu * row + k % wu);
        assert(wu * row == row * wu) by (nonlinear_arith);
    }
}

/// A last row past `len / wu` leaves no room for the block.
proof fn lemma_row_past_end(last_row: int, wu: int, len: int, tail: int)
    requires
        wu > 0,
        0 <= len,
        last_row > len / wu,
        tail >= 1,
    ensures
        last_row * wu + tail > len,
{
    lemma_fundamental_div_mod(len, wu);
    assert(last_row * wu >= (len / wu + 1) * wu) by (nonlinear_arith)
        requires
            last_row >= len / wu + 1,
            wu > 0,
    ;
    assert((len / wu + 1) * wu == wu * (len / wu) + wu) by (nonlinear_arith);
}

// ---------------------------------------------------------------------------
// Bytes of the pixel buffer
// ---------------------------------------------------------------------------

/// `bytes` holds each word of `words` in four bytes, least significant first.
pub open spec fn le_words(bytes: Seq<u8>, words: Seq<u32>) -> bool {
    &&& bytes.len() == 4 * words.len()
    &&& forall|i: int|
        0 <= i < words.len() ==> #[trigger] words[i] == bytes[4 * i] + 256 * bytes[4 * i + 1]
            + 65536 * bytes[4 * i + 2] + 16777216 * bytes[4 * i + 3]
}

/// `bytes` holds each word of `words` in four bytes, most significant first.
pub open spec fn be_words(bytes: Seq<u8>, words: Seq<u32>) -> bool {
    &&& bytes.len() == 4 * words.len()
    &&& forall|i: int|
        0 <= i < words.len() ==> #[trigger] words[i] == bytes[4 * i + 3] + 256 * bytes[4 * i
            + 2] + 65536 * bytes[4 * i + 1] + 16777216 * bytes[4 * i]
}

/// Calls `bytemuck::cast_slice` from `&[u32]` to `&[u8]`.  The cast never
/// fails for this pair of types (the target alignment is 1 and every byte
/// count is a multiple of 1); it reinterprets the words' memory, so each
/// word appears as its four bytes in the machine's byte order.  Which byte
/// order that is is left open.
#[verifier::external_body]
fn cast_words_to_bytes(words: &[u32]) -> (bytes: &[u8])
    ensures
        le_words(bytes@, words@) || be_words(bytes@, words@),
{
    bytemuck::cast_slice(words)
}

/// Pixels as bytes for a raster image: four bytes per pixel, in the
/// machine's byte order.
pub fn words_as_bytes(words: &[u32]) -> (bytes: &[u8])
    ensures
        bytes@.len() == 4 * words@.len(),
        le_words(bytes@, words@) || be_words(bytes@, words@),
{
    cast_words_to_bytes(words)
}

// ---------------------------------------------------------------------------
// Sampling passes
// ---------------------------------------------------------------------------

/// Whether `(px, py)` is computed in the pass of block size `bs`: it lies on
/// the `bs`-grid and, in refinement passes, not on the `2 bs`-grid.
pub open spec fn is_pass_sample(px: int, py: int, bs: int) -> bool {
    &&& px % bs == 0
    &&& py % bs == 0
    &&& !(bs < INITIAL_BLOCK_SIZE && px % (2 * bs) == 0 && py % (2 * bs) == 0)
}

/// The columns of row `py` that the pass of block size `block_size` computes,
/// in increasing order.
pub fn row_samples(width: u32, block_size: u32, py: u32) -> (cols: Vec<u32>)
    requires
        block_size >= 1,
        py % block_size == 0,
    ensures
        forall|i: int, j: int| 0 <= i < j < cols@.len() ==> cols@[i] < cols@[j],
        forall|i: int|
            0 <= i < cols@.len() ==> cols@[i] < width && is_pass_sample(
                cols@[i] as int,
                py as int,
                block_size as int,
            ),
        forall|x: int|
            0 <= x < width && is_pass_sample(x, py as int, block_size as int) ==> cols@.contains(
                x as u32,
            ),
{
    let mut cols: Vec<u32> = Vec::new();
    let bs = block_size as u64;
    let refining = block_size < INITIAL_BLOCK_SIZE;
    let double = 2 * bs;
    let row_on_coarse = (py as u64) % double == 0;
    let mut px: u64 = 0;
    while px < width as u64
        invariant
            bs == block_size,
            bs >= 1,
            double == 2 * bs,
            refining == (block_size < INITIAL_BLOCK_SIZE),
            row_on_coarse == ((py as int) % (2 * bs) == 0),
            py % block_size == 0,
            px % bs == 0,
            px <= width as u64 + bs,
            forall|i: int, j: int| 0 <= i < j < cols@.len() ==> cols@[i] < cols@[j],
            forall|i: int| 0 <= i < cols@.len() ==> cols@[i] < px,
            forall|i: int|
                0 <= i < cols@.len() ==> cols@[i] < width && is_pass_sample(
                    cols@[i] as int,
                    py as int,
                    block_size as int,
                ),
            forall|x: int|
                0 <= x < px && x < width && is_pass_sample(x, py as int, block_size as int)
                    ==> cols@.contains(x as u32),
        decreases width as u64 + bs - px,
    {
        let skip = refining && px % double == 0 && row_on_coarse;
        let ghost before = cols@;
        if !skip {
            cols.push(px as u32);
            proof {
                assert(cols@[cols@.len() - 1] == px as u32);
            }
        }
        proof {
            assert forall|x: int|
                0 <= x < px + bs && x < width && is_pass_sample(
                    x,
                    py as int,
                    block_size as int,
                ) implies cols@.contains(x as u32) by {
                if x < px {
                    let j = choose|j: int| 0 <= j < before.len() && before[j] == x as u32;
                    assert(cols@[j] == x as u32);
                } else {
                    lemma_next_multiple(x, px as int, bs as int);
                    assert(cols@[cols@.len() - 1] == x as u32);
                }
            }
        }
        proof {
            lemma_fundamental_div_mod(px as int, bs as int);
            assert((px as int / bs as int + 1) * bs as int == px as int + bs as int)
                by (nonlinear_arith)
                requires
                    px as int == bs as int * (px as int / bs as int) + px as int % bs as int,
                    px as int % bs as int == 0,
            ;
            lemma_fundamental_div_mod_converse(
                px as int + bs as int,
                bs as int,
                px as int / bs as int + 1,
                0,
            );
        }
        px = px + bs;
    }
    cols
}

/// The only multiple of `bs` in `[px, px + bs)`, for `px` a multiple of `bs`, is `px`.
proof fn lemma_next_multiple(x: int, px: int, bs: int)
    requires
        bs >= 1,
        px >= 0,
        px % bs == 0,
        px <= x < px + bs,
        x % bs == 0,
    ensures
        x == px,
{
    lemma_fundamental_div_mod(px, bs);
    assert((px / bs) * bs == px) by (nonlinear_arith)
        requires
            px == bs * (px / bs) + px % bs,
            px % bs == 0,
    ;
    lemma_fundamental_div_mod_converse(x, bs, px / bs, x - px);
}

// ---------------------------------------------------------------------------
// The refinement law
// ---------------------------------------------------------------------------

/// The corner of the `bs`-block that holds coordinate `x`.
pub open spec fn corner(x: int, bs: int) -> int {
    x - x % bs
}

/// The image in which every pixel of a `w x h` image holds the colour `c`
/// computed at the corner of its `bs`-block.
pub open spec fn block_image(w: int, h: int, bs: int, c: spec_fn(int, int) -> u32) -> Seq<u32> {
    Seq::new((w * h) as nat, |k: int| c(corner(k % w, bs), corner(k / w, bs)))
}

/// Fill, in order, the block of each sample with the colour computed there.
pub open spec fn fill_samples(
    p: Seq<u32>,
    w: int,
    h: int,
    bs: int,
    samples: Seq<(int, int)>,
    c: spec_fn(int, int) -> u32,
) -> Seq<u32>
    decreases samples.len(),
{
    if samples.len() == 0 {
        p
    } else {
        let s = samples.last();
        fill_block_spec(
            fill_samples(p, w, h, bs, samples.drop_last(), c),
            w,
            h,
            s.0,
            s.1,
            bs,
            c(s.0, s.1),
        )
    }
}

/// A pixel of a `w x h` image lies in the block of a sample on the `bs`-grid
/// exactly when the sample is the corner of the pixel's block.
proof fn lemma_in_block_iff_corner(k: int, w: int, h: int, bs: int, sx: int, sy: int)
    requires
        w > 0,
        h > 0,
        bs >= 1,
        0 <= k < w * h,
        0 <= sx < w,
        0 <= sy < h,
        sx % bs == 0,
        sy % bs == 0,
    ensures
        in_rect(k, w, sx, sy, block_width(w, sx, bs), block_width(h, sy, bs)) == (corner(k % w, bs)
            == sx && corner(k / w, bs) == sy),
{
    let x = k % w;
    let y = k / w;
    lemma_fundamental_div_mod(k, w);
    assert(0 <= x < w);
    assert(0 <= y < h) by {
        assert(y < h) by (nonlinear_arith)
            requires
                k == w * y + x,
                0 <= x,
                k < w * h,
                w > 0,
        ;
        assert(y >= 0) by (nonlinear_arith)
            requires
                k == w * y + x,
                x < w,
                k >= 0,
                w > 0,
        ;
    }
    lemma_corner_iff(x, sx, bs);
    lemma_corner_iff(y, sy, bs);
}

/// `sx <= x < sx + bs` exactly when `x`'s `bs`-corner is `sx`, for `sx` on the grid.
proof fn lemma_corner_iff(x: int, sx: int, bs: int)
    requires
        x >= 0,
        sx >= 0,
        bs >= 1,
        sx % bs == 0,
    ensures
        (sx <= x < sx + bs) == (corner(x, bs) == sx),
{
    lemma_fundamental_div_mod(x, bs);
    lemma_fundamental_div_mod(sx, bs);
    if sx <= x < sx + bs {
        assert((sx / bs) * bs == sx) by (nonlinear_arith)
            requires
                sx == bs * (sx / bs) + sx % bs,
                sx % bs == 0,
        ;
        lemma_fundamental_div_mod_converse(x, bs, sx / bs, x - sx);
    }
}

/// After filling the blocks of `samples`, a pixel holds the colour computed at
/// its `bs`-corner if that corner is among the samples, and is unchanged otherwise.
proof fn lemma_fill_samples_pointwise(
    p: Seq<u32>,
    w: int,
    h: int,
    bs: int,
    samples: Seq<(int, int)>,
    c: spec_fn(int, int) -> u32,
    k: int,
)
    requires
        w > 0,
        h > 0,
        bs >= 1,
        p.len() == w * h,
        0 <= k < w * h,
        forall|i: int|
            0 <= i < samples.len() ==> 0 <= #[trigger] samples[i].0 < w && 0 <= samples[i].1 < h
                && samples[i].0 % bs == 0 && samples[i].1 % bs == 0,
    ensures
        fill_samples(p, w, h, bs, samples, c).len() == p.len(),
        fill_samples(p, w, h, bs, samples, c)[k] == if samples.contains(
            (corner(k % w, bs), corner(k / w, bs)),
        ) {
            c(corner(k % w, bs), corner(k / w, bs))
        } else {
            p[k]
        },
    decreases samples.len(),
{
    if samples.len() > 0 {
        let rest = samples.drop_last();
        let s = samples.last();
        assert forall|i: int| 0 <= i < rest.len() implies 0 <= #[trigger] rest[i].0 < w && 0
            <= rest[i].1 < h && rest[i].0 % bs == 0 && rest[i].1 % bs == 0 by {
            assert(rest[i] == samples[i]);
        }
        lemma_fill_samples_pointwise(p, w, h, bs, rest, c, k);
        assert(s == samples[samples.len() - 1]);
        lemma_in_block_iff_corner(k, w, h, bs, s.0, s.1);
        let cr = (corner(k % w, bs), corner(k / w, bs));
        if samples.contains(cr) && !rest.contains(cr) {
            let j = choose|j: int| 0 <= j < samples.len() && samples[j] == cr;
            if j < rest.len() {
                assert(rest[j] == cr);
            }
        }
        if rest.contains(cr) {
            let j = choose|j: int| 0 <= j < rest.len() && rest[j] == cr;
            assert(samples[j] == cr);
        }
        if s == cr {
            assert(samples[samples.len() - 1] == cr);
        }
    }
}

/// The refinement law: one pass of block size `bs` that fills the block of
/// each of its samples with the colour computed there (in any order) turns
/// an image in which every pixel holds the colour of its `2 bs`-corner (or,
/// for the first, coarsest pass, any image of the right size) into the image
/// in which every pixel holds the colour of its `bs`-corner.
pub proof fn lemma_pass_refines(
    p: Seq<u32>,
    w: int,
    h: int,
    bs: int,
    samples: Seq<(int, int)>,
    c: spec_fn(int, int) -> u32,
)
    requires
        w > 0,
        h > 0,
        bs >= 1,
        p.len() == w * h,
        bs < INITIAL_BLOCK_SIZE ==> p == block_image(w, h, 2 * bs, c),
        forall|s: (int, int)|
            #[trigger] samples.contains(s) <==> (0 <= s.0 < w && 0 <= s.1 < h && is_pass_sample(
                s.0,
                s.1,
                bs,
            )),
    ensures
        fill_samples(p, w, h, bs, samples, c) == block_image(w, h, bs, c),
{
    assert forall|i: int| 0 <= i < samples.len() implies 0 <= #[trigger] samples[i].0 < w && 0
        <= samples[i].1 < h && samples[i].0 % bs == 0 && samples[i].1 % bs == 0 by {
        assert(samples.contains(samples[i]));
    }
    let q = fill_samples(p, w, h, bs, samples, c);
    let target = block_image(w, h, bs, c);
    assert(w * h > 0) by (nonlinear_arith)
        requires
            w > 0,
            h > 0,
    ;
    lemma_fill_samples_pointwise(p, w, h, bs, samples, c, 0);
    assert forall|k: int| 0 <= k < q.len() implies q[k] == target[k] by {
        lemma_fill_samples_pointwise(p, w, h, bs, samples, c, k);
        let x = k % w;
        let y = k / w;
        let cx = corner(x, bs);
        let cy = corner(y, bs);
        lemma_fundamental_div_mod(k, w);
        assert(0 <= y < h) by {
            assert(y < h) by (nonlinear_arith)
                requires
                    k == w * y + x,
                    0 <= x,
                    k < w * h,
                    w > 0,
            ;
            assert(y >= 0) by (nonlinear_arith)
                requires
                    k == w * y + x,
                    x < w,
                    k >= 0,
                    w > 0,
            ;
        }
        lemma_corner_props(x, bs);
        lemma_corner_props(y, bs);
        if !samples.contains((cx, cy)) {
            // skipped in a refinement pass: the corner is also the 2bs-corner
            assert(bs < INITIAL_BLOCK_SIZE && cx % (2 * bs) == 0 && cy % (2 * bs) == 0);
            lemma_coarse_corner(x, bs);
            lemma_coarse_corner(y, bs);
        }
    }
    assert(q =~= target);
}

/// The `bs`-corner of `x >= 0` is a multiple of `bs` in `[0, x]`.
proof fn lemma_corner_props(x: int, bs: int)
    requires
        x >= 0,
        bs >= 1,
    ensures
        0 <= corner(x, bs) <= x,
        corner(x, bs) % bs == 0,
{
    lemma_fundamental_div_mod(x, bs);
    assert(corner(x, bs) == (x / bs) * bs) by (nonlinear_arith)
        requires
            x == bs * (x / bs) + x % bs,
            corner(x, bs) == x - x % bs,
    ;
    assert(x / bs >= 0);
    lemma_fundamental_div_mod_converse(corner(x, bs), bs, x / bs, 0);
}

/// When the `bs`-corner of `x` lies on the `2 bs`-grid, it is also the `2 bs`-corner.
proof fn lemma_coarse_corner(x: int, bs: int)
    requires
        x >= 0,
        bs >= 1,
        corner(x, bs) % (2 * bs) == 0,
    ensures
        corner(x, 2 * bs) == corner(x, bs),
{
    let cx = corner(x, bs);
    lemma_fundamental_div_mod(x, bs);
    lemma_fundamental_div_mod(cx, 2 * bs);
    assert(x == (cx / (2 * bs)) * (2 * bs) + x % bs) by (nonlinear_arith)
        requires
            cx == (2 * bs) * (cx / (2 * bs)) + cx % (2 * bs),
            cx % (2 * bs) == 0,
            cx == x - x % bs,
    ;
    lemma_fundamental_div_mod_converse(x, 2 * bs, cx / (2 * bs), x % bs);
}

/// At block size 1 every pixel holds the colour computed at its own position.
pub proof fn lemma_full_resolution(w: int, h: int, c: spec_fn(int, int) -> u32, k: int)
    requires
        w > 0,
        h > 0,
        0 <= k < w * h,
    ensures
        block_image(w, h, 1, c)[k] == c(k % w, k / w),
{
    assert(w * h >= 0) by (nonlinear_arith)
        requires
            w > 0,
            h > 0,
    ;
    assert((k % w) % 1 == 0);
    assert((k / w) % 1 == 0);
}

// ---------------------------------------------------------------------------
// All passes
// ---------------------------------------------------------------------------

/// The block size of pass `j`: 64, 32, 16, 8, 4, 2, 1.
pub open spec fn pass_size(j: nat) -> int
    decreases j,
{
    if j == 0 {
        INITIAL_BLOCK_SIZE as int
    } else {
        pass_size((j - 1) as nat) / 2
    }
}

proof fn lemma_pass_sizes()
    ensures
        pass_size(0) == 64,
        pass_size(1) == 32,
        pass_size(2) == 16,
        pass_size(3) == 8,
        pass_size(4) == 4,
        pass_size(5) == 2,
        pass_size(6) == 1,
{
    reveal_with_fuel(pass_size, 7);
}

/// The image after the passes `0 .. passes.len()`, pass `j` filling the
/// blocks of the samples `passes[j]` at block size `pass_size(j)`.
pub open spec fn run_passes(
    p: Seq<u32>,
    w: int,
    h: int,
    passes: Seq<Seq<(int, int)>>,
    c: spec_fn(int, int) -> u32,
) -> Seq<u32>
    decreases passes.len(),
{
    if passes.len() == 0 {
        p
    } else {
        fill_samples(
            run_passes(p, w, h, passes.drop_last(), c),
            w,
            h,
            pass_size((passes.len() - 1) as nat),
            passes.last(),
            c,
        )
    }
}

/// The passes from 64 down: after the passes of block sizes 64, 32, ...,
/// `pass_size(k - 1)`, each filling, in any order, the blocks of exactly its
/// own samples (`pass_samples`, which are what the rows of a pass of
/// `RefinementSchedule` hand out), every pixel holds the colour computed at
/// the corner of its block of the last pass, whatever the image held before;
/// after all seven passes every pixel holds the colour computed at its own
/// position.
pub proof fn lemma_passes_refine(
    p: Seq<u32>,
    w: int,
    h: int,
    passes: Seq<Seq<(int, int)>>,
    c: spec_fn(int, int) -> u32,
)
    requires
        w > 0,
        h > 0,
        p.len() == w * h,
        1 <= passes.len() <= 7,
        forall|j: int|
            0 <= j < passes.len() ==> #[trigger] passes[j].to_set() == pass_samples(
                w,
                h,
                pass_size(j as nat),
            ),
    ensures
        run_passes(p, w, h, passes, c) == block_image(
            w,
            h,
            pass_size((passes.len() - 1) as nat),
            c,
        ),
        passes.len() == 7 ==> forall|k: int|
            0 <= k < w * h ==> #[trigger] run_passes(p, w, h, passes, c)[k] == c(k % w, k / w),
    decreases passes.len(),
{
    lemma_pass_sizes();
    let n = passes.len() - 1;
    let rest = passes.drop_last();
    let bs = pass_size(n as nat);
    assert(1 <= bs <= 64);
    if n > 0 {
        assert forall|j: int| 0 <= j < rest.len() implies #[trigger] rest[j].to_set()
            == pass_samples(w, h, pass_size(j as nat)) by {
            assert(rest[j] == passes[j]);
        }
        lemma_passes_refine(p, w, h, rest, c);
        assert(pass_size((rest.len() - 1) as nat) == 2 * bs);
        assert(run_passes(p, w, h, rest, c).len() == w * h);
    }
    assert forall|s: (int, int)| #[trigger] passes.last().contains(s) <==> (0 <= s.0 < w && 0
        <= s.1 < h && is_pass_sample(s.0, s.1, bs)) by {
        assert(passes.last() == passes[n]);
        assert(passes[n].to_set().contains(s) == passes[n].contains(s));
        assert(pass_samples(w, h, bs).contains(s) == (0 <= s.0 < w && 0 <= s.1 < h
            && is_pass_sample(s.0, s.1, bs)));
    }
    lemma_pass_refines(run_passes(p, w, h, rest, c), w, h, bs, passes.last(), c);
    if passes.len() == 7 {
        assert forall|k: int| 0 <= k < w * h implies #[trigger] run_passes(
            p,
            w,
            h,
            passes,
            c,
        )[k] == c(k % w, k / w) by {
            lemma_full_resolution(w, h, c, k);
        }
    }
}

/// On the `2 b`-grid implies on the `b`-grid.
proof fn lemma_grid_coarser(x: int, b: int)
    requires
        b >= 1,
        x % (2 * b) == 0,
    ensures
        x % b == 0,
{
    let q = x / (2 * b);
    lemma_fundamental_div_mod(x, 2 * b);
    assert(x == (2 * q) * b) by (nonlinear_arith)
        requires
            x == (2 * b) * q + x % (2 * b),
            x % (2 * b) == 0,
    ;
    lemma_fundamental_div_mod_converse(x, b, 2 * q, 0);
}

/// Whether `(x, y)` lies on the grid of pass `j`.
pub open spec fn on_pass_grid(x: int, y: int, j: nat) -> bool {
    x % pass_size(j) == 0 && y % pass_size(j) == 0
}

/// On the grid of pass `i`, then on the grid of every later pass `j`.
proof fn lemma_grid_later(x: int, y: int, i: nat, j: nat)
    requires
        i <= j < 7,
        on_pass_grid(x, y, i),
    ensures
        on_pass_grid(x, y, j),
    decreases j - i,
{
    lemma_pass_sizes();
    if i < j {
        lemma_grid_later(x, y, i, (j - 1) as nat);
        assert(pass_size((j - 1) as nat) == 2 * pass_size(j));
        lemma_grid_coarser(x, pass_size(j));
        lemma_grid_coarser(y, pass_size(j));
    }
}

/// Every pixel is computed in exactly one pass: the first whose grid it lies
/// on.  Later passes skip it, as it lies on their coarser neighbour's grid.
pub proof fn lemma_sampled_once(x: int, y: int)
    ensures
        exists|j: nat| j < 7 && is_pass_sample(x, y, pass_size(j)),
        forall|j1: nat, j2: nat|
            j1 < 7 && j2 < 7 && is_pass_sample(x, y, pass_size(j1)) && is_pass_sample(
                x,
                y,
                pass_size(j2),
            ) ==> j1 == j2,
{
    lemma_pass_sizes();
    // a sample of pass j lies on its grid, and for j > 0 not on the grid of pass j - 1
    assert forall|j: nat|
        j < 7 implies #[trigger] is_pass_sample(x, y, pass_size(j)) == (on_pass_grid(x, y, j) && (
    j == 0 || !on_pass_grid(x, y, (j - 1) as nat))) by {}
    // on the grid of pass i implies on that of every later pass
    assert forall|i: nat, j: nat|
        i <= j < 7 && #[trigger] on_pass_grid(x, y, i) implies #[trigger] on_pass_grid(x, y, j) by {
        lemma_grid_later(x, y, i, j);
    }
    assert(on_pass_grid(x, y, 6));
    if on_pass_grid(x, y, 0) {
        assert(is_pass_sample(x, y, pass_size(0)));
    } else if on_pass_grid(x, y, 1) {
        assert(is_pass_sample(x, y, pass_size(1)));
    } else if on_pass_grid(x, y, 2) {
        assert(is_pass_sample(x, y, pass_size(2)));
    } else if on_pass_grid(x, y, 3) {
        assert(is_pass_sample(x, y, pass_size(3)));
    } else if on_pass_grid(x, y, 4) {
        assert(is_pass_sample(x, y, pass_size(4)));
    } else if on_pass_grid(x, y, 5) {
        assert(is_pass_sample(x, y, pass_size(5)));
    } else {
        assert(is_pass_sample(x, y, pass_size(6)));
    }
    assert forall|j1: nat, j2: nat|
        j1 < 7 && j2 < 7 && is_pass_sample(x, y, pass_size(j1)) && is_pass_sample(
            x,
            y,
            pass_size(j2),
        ) implies j1 == j2 by {
        if j1 < j2 {
            assert(on_pass_grid(x, y, (j2 - 1) as nat));
        } else if j2 < j1 {
            assert(on_pass_grid(x, y, (j1 - 1) as nat));
        }
    }
}

// ---------------------------------------------------------------------------
// The schedule of passes
// ---------------------------------------------------------------------------

/// What the compute worker does next.
pub enum Work {
    /// Compute the samples of row `py` at columns `columns` and fill their
    /// `block_size` blocks.
    Row { py: u32, block_size: u32, columns: Vec<u32> },
    /// The pass of block size `block_size` is complete.
    PassDone { block_size: u32 },
    /// All passes are complete.
    Finished,
}

/// The order in which a `width x height` image is refined: the passes of
/// block sizes 64, 32, ..., 1, each row by row from the top.
pub struct RefinementSchedule {
    width: u32,
    height: u32,
    block_size: u32,
    row: u64,
    /// The samples of the current pass handed out so far.
    covered: Ghost<Set<(int, int)>>,
}

/// The samples of the pass of block size `bs` in a `w x h` image.
pub open spec fn pass_samples(w: int, h: int, bs: int) -> Set<(int, int)> {
    Set::new(|s: (int, int)| 0 <= s.0 < w && 0 <= s.1 < h && is_pass_sample(s.0, s.1, bs))
}

/// The samples of the pass of block size `bs` in the rows above `row`.
pub open spec fn pass_samples_above(w: int, h: int, bs: int, row: int) -> Set<(int, int)> {
    Set::new(
        |s: (int, int)| 0 <= s.0 < w && 0 <= s.1 < h && s.1 < row && is_pass_sample(s.0, s.1, bs),
    )
}

/// The points of row `py` at the columns `columns`.
pub open spec fn row_points(py: int, columns: Seq<u32>) -> Set<(int, int)> {
    Set::new(
        |s: (int, int)|
            s.1 == py && exists|i: int| 0 <= i < columns.len() && #[trigger] columns[i] == s.0,
    )
}

/// Whether `bs` is one of the block sizes 64, 32, 16, 8, 4, 2, 1, or 0 once finished.
pub open spec fn is_block_size(bs: int) -> bool {
    bs == 64 || bs == 32 || bs == 16 || bs == 8 || bs == 4 || bs == 2 || bs == 1 || bs == 0
}

impl RefinementSchedule {
    pub closed spec fn spec_width(&self) -> nat {
        self.width as nat
    }

    pub closed spec fn spec_height(&self) -> nat {
        self.height as nat
    }

    /// The block size of the current pass; 0 once all passes are complete.
    pub closed spec fn spec_block_size(&self) -> nat {
        self.block_size as nat
    }

    /// The next row of the current pass.
    pub closed spec fn spec_row(&self) -> nat {
        self.row as nat
    }

    /// The samples of the current pass that the rows handed out so far hold.
    pub closed spec fn spec_covered(&self) -> Set<(int, int)> {
        self.covered@
    }

    pub open spec fn wf(&self) -> bool {
        &&& is_block_size(self.spec_block_size() as int)
        &&& self.spec_block_size() > 0 ==> self.spec_row() % self.spec_block_size() == 0
        &&& self.spec_row() <= self.spec_height() + 64
        &&& self.spec_block_size() > 0 ==> self.spec_covered() == pass_samples_above(
            self.spec_width() as int,
            self.spec_height() as int,
            self.spec_block_size() as int,
            self.spec_row() as int,
        )
    }

    /// The schedule of a new computation: the first pass, from the top row.
    pub fn new(width: u32, height: u32) -> (s: Self)
        ensures
            s.wf(),
            s.spec_width() == width,
            s.spec_height() == height,
            s.spec_block_size() == INITIAL_BLOCK_SIZE,
            s.spec_row() == 0,
            s.spec_covered() == Set::<(int, int)>::empty(),
    {
        let s = RefinementSchedule {
            width,
            height,
            block_size: INITIAL_BLOCK_SIZE,
            row: 0,
            covered: Ghost(Set::empty()),
        };
        assert(s.covered@ =~= pass_samples_above(width as int, height as int, 64, 0));
        s
    }

    /// The next piece of work.  Within a pass the rows `0, bs, 2 bs, ...`
    /// below the height come in order, each with the columns that the pass
    /// computes in it; then the pass is done and the block size halves.
    /// When a pass is done, its rows have handed out exactly the samples of
    /// the pass, each once.
    pub fn next(&mut self) -> (w: Work)
        requires
            old(self).wf(),
        ensures
            final(self).wf(),
            final(self).spec_width() == old(self).spec_width(),
            final(self).spec_height() == old(self).spec_height(),
            old(self).spec_block_size() == 0 ==> w is Finished && *final(self) == *old(self),
            old(self).spec_block_size() > 0 && old(self).spec_row() < old(self).spec_height()
                ==> match w {
                Work::Row { py, block_size, columns } => {
                    &&& py == old(self).spec_row()
                    &&& block_size == old(self).spec_block_size()
                    &&& forall|i: int, j: int|
                        0 <= i < j < columns@.len() ==> columns@[i] < columns@[j]
                    &&& forall|x: u32|
                        x < old(self).spec_width() && is_pass_sample(
                            x as int,
                            py as int,
                            block_size as int,
                        ) <==> #[trigger] columns@.contains(x)
                    &&& final(self).spec_block_size() == old(self).spec_block_size()
                    &&& final(self).spec_row() == old(self).spec_row() + old(
                        self,
                    ).spec_block_size()
                    &&& old(self).spec_covered().disjoint(row_points(py as int, columns@))
                    &&& final(self).spec_covered() == old(self).spec_covered() + row_points(
                        py as int,
                        columns@,
                    )
                },
                _ => false,
            },
            old(self).spec_block_size() > 0 && old(self).spec_row() >= old(self).spec_height()
                ==> w == (Work::PassDone { block_size: old(self).spec_block_size() as u32 })
                && final(self).spec_block_size() == old(self).spec_block_size() / 2
                && final(self).spec_row() == 0
                && old(self).spec_covered() == pass_samples(
                old(self).spec_width() as int,
                old(self).spec_height() as int,
                old(self).spec_block_size() as int,
            ) && final(self).spec_covered() == Set::<(int, int)>::empty(),
    {
        if self.block_size == 0 {
            return Work::Finished;
        }
        if self.row < self.height as u64 {
            let py = self.row as u32;
            let bs = self.block_size;
            let columns = row_samples(self.width, bs, py);
            proof {
                assert forall|x: u32|
                    x < self.width && is_pass_sample(x as int, py as int, bs as int)
                        <==> #[trigger] columns@.contains(x) by {
                    if columns@.contains(x) {
                        let i = choose|i: int| 0 <= i < columns@.len() && columns@[i] == x;
                    }
                    if x < self.width && is_pass_sample(x as int, py as int, bs as int) {
                        assert(0 <= x as int && (x as int) < self.width);
                        assert(columns@.contains((x as int) as u32));
                    }
                }
            }
            proof {
                let r = self.row as int;
                let b = bs as int;
                lemma_fundamental_div_mod(r, b);
                assert((r / b + 1) * b == r + b) by (nonlinear_arith)
                    requires
                        r == b * (r / b) + r % b,
                        r % b == 0,
                ;
                lemma_fundamental_div_mod_converse(r + b, b, r / b + 1, 0);
            }
            let ghost w = self.width as int;
            let ghost h = self.height as int;
            let ghost b = bs as int;
            let ghost r = self.row as int;
            let ghost added = row_points(py as int, columns@);
            proof {
                assert forall|p: (int, int)| #[trigger] added.contains(p) implies p.1 == r && 0
                    <= p.0 < w && is_pass_sample(p.0, p.1, b) by {
                    let i = choose|i: int| 0 <= i < columns@.len() && #[trigger] columns@[i] == p.0;
                    assert(columns@.contains(columns@[i]));
                }
                assert(self.covered@.disjoint(added));
                assert forall|p: (int, int)|
                    #[trigger] pass_samples_above(w, h, b, r + b).contains(p) <==> (
                    self.covered@ + added).contains(p) by {
                    if pass_samples_above(w, h, b, r + b).contains(p) && p.1 >= r {
                        lemma_next_multiple(p.1, r, b);
                        let x = p.0 as u32;
                        assert(x as int == p.0);
                        assert(columns@.contains(x));
                        let i = choose|i: int| 0 <= i < columns@.len() && columns@[i] == x;
                        assert(columns@[i] == p.0);
                    }
                }
                assert(pass_samples_above(w, h, b, r + b) =~= self.covered@ + added);
            }
            self.row = self.row + bs as u64;
            self.covered = Ghost(self.covered@ + added);
            Work::Row { py, block_size: bs, columns }
        } else {
            let bs = self.block_size;
            proof {
                assert(self.covered@ =~= pass_samples(
                    self.width as int,
                    self.height as int,
                    bs as int,
                ));
            }
            self.block_size = bs / 2;
            self.row = 0;
            self.covered = Ghost(Set::empty());
            proof {
                assert(self.covered@ =~= pass_samples_above(
                    self.width as int,
                    self.height as int,
                    (bs / 2) as int,
                    0,
                ));
            }
            Work::PassDone { block_size: bs }
        }
    }
}

} // verus!
