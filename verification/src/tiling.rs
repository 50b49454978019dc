//! Tiling driver: partitions a source/target image pair into whole
//! `BLOCK_SIZE` x `BLOCK_SIZE` blocks, invokes an approximator once per block
//! pair, writes both result blocks into disjoint regions of two output
//! images, and accumulates the total error.  Trailing rows and columns
//! outside whole blocks are never processed: they keep the source's pixels,
//! a deliberate, silent limitation.

use vstd::prelude::*;
use vstd::arithmetic::div_mod::lemma_fundamental_div_mod_converse;
use crate::block::{Block, BLOCK_SIZE, BLOCK_CELLS};
use crate::search::BlockApproximator;

verus! {

/// A grayscale image: a `width` x `height` grid of 8-bit intensities stored
/// row-major, the pixel at column `x`, row `y` sitting at index
/// `y * width + x`.
pub struct Image {
    pub width: usize,
    pub height: usize,
    pub data: Vec<u8>,
}

/// A row-major pixel index stays within the grid.
proof fn lemma_pix_index(w: int, h: int, x: int, y: int)
    requires
        0 <= x < w,
        0 <= y < h,
    ensures
        0 <= y * w + x < w * h,
{
    assert(0 <= y * w + x && y * w + x < w * h) by (nonlinear_arith)
        requires
            0 <= x < w,
            0 <= y < h,
    ;
}

/// Distinct in-bounds pixel coordinates have distinct row-major indices.
proof fn lemma_pix_index_injective(w: int, x1: int, y1: int, x2: int, y2: int)
    requires
        0 <= x1 < w,
        0 <= x2 < w,
        y1 * w + x1 == y2 * w + x2,
    ensures
        x1 == x2,
        y1 == y2,
{
    assert(x1 == x2 && y1 == y2) by (nonlinear_arith)
        requires
            0 <= x1 < w,
            0 <= x2 < w,
            y1 * w + x1 == y2 * w + x2,
    ;
}

impl Image {
    /// Well formed: exactly one intensity per pixel.
    pub open spec fn wf(&self) -> bool {
        self.data@.len() == self.width * self.height
    }

    /// Intensity of the pixel at column `x`, row `y`.
    pub open spec fn pix(&self, x: int, y: int) -> u8 {
        self.data@[y * self.width + x]
    }

    /// Number of whole blocks across the width.
    pub open spec fn blocks_x(&self) -> int {
        self.width as int / (BLOCK_SIZE as int)
    }

    /// Number of whole blocks down the height.
    pub open spec fn blocks_y(&self) -> int {
        self.height as int / (BLOCK_SIZE as int)
    }

    /// Builds an image from a raw pixel buffer; rejects a buffer whose
    /// length is not exactly one byte per pixel.
    pub fn new(width: usize, height: usize, data: Vec<u8>) -> (r: Option<Image>)
        ensures
            data@.len() == width * height ==> r == Some(Image { width, height, data }),
            data@.len() != width * height ==> r is None,
    {
        let n = data.len();
        match width.checked_mul(height) {
            Some(m) => {
                if n == m {
                    Some(Image { width, height, data })
                } else {
                    None
                }
            },
            None => None,
        }
    }

    /// Reads the pixel at column `x`, row `y`.
    pub fn get_pixel(&self, x: usize, y: usize) -> (v: u8)
        requires
            self.wf(),
            x < self.width,
            y < self.height,
        ensures
            v == self.pix(x as int, y as int),
    {
        proof {
            assert(self.data.len() == self.data@.len());
            lemma_pix_index(self.width as int, self.height as int, x as int, y as int);
        }
        self.data[y * self.width + x]
    }

    /// Copies an image, pixel for pixel.
    pub fn duplicate(&self) -> (r: Image)
        ensures
            r.width == self.width,
            r.height == self.height,
            r.data@ == self.data@,
    {
        let data = self.data.clone();
        proof {
            assert(data@ =~= self.data@);
        }
        Image { width: self.width, height: self.height, data }
    }
}

/// Overwrites the pixel at column `x`, row `y`; every other pixel keeps its
/// value.
fn set_pixel(img: &mut Image, x: usize, y: usize, v: u8)
    requires
        old(img).wf(),
        x < old(img).width,
        y < old(img).height,
    ensures
        final(img).wf(),
        final(img).width == old(img).width,
        final(img).height == old(img).height,
        forall|a: int, b: int|
            0 <= a < final(img).width && 0 <= b < final(img).height
                ==> final(img).pix(a, b) == (if a == x && b == y {
                    v
                } else {
                    old(img).pix(a, b)
                }),
{
    proof {
        assert(img.data.len() == img.data@.len());
        lemma_pix_index(img.width as int, img.height as int, x as int, y as int);
    }
    let idx = y * img.width + x;
    img.data[idx] = v;
    proof {
        assert forall|a: int, b: int|
            0 <= a < img.width && 0 <= b < img.height implies img.pix(a, b) == (if a == x && b
            == y {
            v
        } else {
            old(img).pix(a, b)
        }) by {
            lemma_pix_index(img.width as int, img.height as int, a, b);
            if b * img.width + a == y * img.width + x {
                lemma_pix_index_injective(img.width as int, a, b, x as int, y as int);
            }
        }
    }
}

/// Does the pixel at column `x`, row `y` lie in the tile with block indices
/// (`bi`, `bj`)?
pub open spec fn in_tile(bi: int, bj: int, x: int, y: int) -> bool {
    &&& bi * (BLOCK_SIZE as int) <= x < (bi + 1) * (BLOCK_SIZE as int)
    &&& bj * (BLOCK_SIZE as int) <= y < (bj + 1) * (BLOCK_SIZE as int)
}

/// Is the pixel at column `x`, row `y` covered by some whole block?
pub open spec fn covered(img: Image, x: int, y: int) -> bool {
    x < img.blocks_x() * (BLOCK_SIZE as int) && y < img.blocks_y() * (BLOCK_SIZE as int)
}

/// Contents of the block at tile (`bi`, `bj`) of an image, row-major: cell
/// (`r`, `c`) is the image pixel at column `bi * BLOCK_SIZE + c`, row
/// `bj * BLOCK_SIZE + r`.
pub open spec fn block_at(img: Image, bi: int, bj: int) -> Seq<u8> {
    Seq::new(
        BLOCK_CELLS as nat,
        |t: int|
            img.pix(
                bi * (BLOCK_SIZE as int) + t % (BLOCK_SIZE as int),
                bj * (BLOCK_SIZE as int) + t / (BLOCK_SIZE as int),
            ),
    )
}

/// Extracts the block at tile (`bi`, `bj`).
pub fn extract_block(img: &Image, bi: usize, bj: usize) -> (b: Block)
    requires
        img.wf(),
        bi < img.blocks_x(),
        bj < img.blocks_y(),
    ensures
        b.wf(),
        b@ == block_at(*img, bi as int, bj as int),
{
    proof {
        lemma_tile_in_bounds(img.width as int, bi as int);
        lemma_tile_in_bounds(img.height as int, bj as int);
    }
    let mut cells: Vec<u8> = Vec::new();
    let mut r: usize = 0;
    while r < BLOCK_SIZE
        invariant
            img.wf(),
            bi < img.blocks_x(),
            bj < img.blocks_y(),
            (bi + 1) * BLOCK_SIZE <= img.width,
            (bj + 1) * BLOCK_SIZE <= img.height,
            r <= BLOCK_SIZE,
            cells@.len() == r * BLOCK_SIZE,
            forall|t: int|
                0 <= t < cells@.len() ==> cells@[t] == block_at(*img, bi as int, bj as int)[t],
        decreases BLOCK_SIZE - r,
    {
        let mut c: usize = 0;
        while c < BLOCK_SIZE
            invariant
                img.wf(),
                bi < img.blocks_x(),
                bj < img.blocks_y(),
                (bi + 1) * BLOCK_SIZE <= img.width,
                (bj + 1) * BLOCK_SIZE <= img.height,
                r < BLOCK_SIZE,
                c <= BLOCK_SIZE,
                cells@.len() == r * BLOCK_SIZE + c,
                forall|t: int|
                    0 <= t < cells@.len() ==> cells@[t] == block_at(*img, bi as int, bj as int)[t],
            decreases BLOCK_SIZE - c,
        {
            let v = img.get_pixel(bi * BLOCK_SIZE + c, bj * BLOCK_SIZE + r);
            cells.push(v);
            proof {
                let t = (r * BLOCK_SIZE + c) as int;
                assert(t % (BLOCK_SIZE as int) == c as int && t / (BLOCK_SIZE as int) == r as int);
            }
            c = c + 1;
        }
        r = r + 1;
    }
    proof {
        assert(cells@ =~= block_at(*img, bi as int, bj as int));
    }
    Block { cells }
}

/// A tile with a valid block index lies inside the image: `bi` below the
/// block count puts the tile's last column below the image's extent.
proof fn lemma_tile_in_bounds(w: int, bi: int)
    requires
        0 <= bi,
        bi < w / (BLOCK_SIZE as int),
    ensures
        (bi + 1) * (BLOCK_SIZE as int) <= w,
{
    assert((bi + 1) * (BLOCK_SIZE as int) <= (w / (BLOCK_SIZE as int)) * (BLOCK_SIZE as int));
    assert((w / (BLOCK_SIZE as int)) * (BLOCK_SIZE as int) <= w) by (nonlinear_arith)
        requires
            w >= 0,
    ;
}

/// Writes a block into the tile at (`bi`, `bj`): inside the tile the image
/// takes the block's cells, outside it every pixel keeps its value.
pub fn write_block(img: &mut Image, bi: usize, bj: usize, b: &Block)
    requires
        old(img).wf(),
        b.wf(),
        bi < old(img).blocks_x(),
        bj < old(img).blocks_y(),
    ensures
        final(img).wf(),
        final(img).width == old(img).width,
        final(img).height == old(img).height,
        block_at(*final(img), bi as int, bj as int) == b@,
        forall|x: int, y: int|
            0 <= x < final(img).width && 0 <= y < final(img).height && !in_tile(
                bi as int,
                bj as int,
                x,
                y,
            ) ==> final(img).pix(x, y) == old(img).pix(x, y),
{
    proof {
        lemma_tile_in_bounds(img.width as int, bi as int);
        lemma_tile_in_bounds(img.height as int, bj as int);
    }
    let ghost orig = *img;
    let mut r: usize = 0;
    while r < BLOCK_SIZE
        invariant
            img.wf(),
            b.wf(),
            img.width == orig.width,
            img.height == orig.height,
            bi < img.blocks_x(),
            bj < img.blocks_y(),
            (bi + 1) * BLOCK_SIZE <= img.width,
            (bj + 1) * BLOCK_SIZE <= img.height,
            r <= BLOCK_SIZE,
            forall|x: int, y: int|
                0 <= x < img.width && 0 <= y < img.height ==> img.pix(x, y) == (if in_tile(
                    bi as int,
                    bj as int,
                    x,
                    y,
                ) && y < bj * BLOCK_SIZE + r {
                    b@[(y - bj * BLOCK_SIZE) * (BLOCK_SIZE as int) + (x - bi * BLOCK_SIZE)]
                } else {
                    orig.pix(x, y)
                }),
        decreases BLOCK_SIZE - r,
    {
        let mut c: usize = 0;
        while c < BLOCK_SIZE
            invariant
                img.wf(),
                b.wf(),
                img.width == orig.width,
                img.height == orig.height,
                bi < img.blocks_x(),
                bj < img.blocks_y(),
                (bi + 1) * BLOCK_SIZE <= img.width,
                (bj + 1) * BLOCK_SIZE <= img.height,
                r < BLOCK_SIZE,
                c <= BLOCK_SIZE,
                forall|x: int, y: int|
                    0 <= x < img.width && 0 <= y < img.height ==> img.pix(x, y) == (if in_tile(
                        bi as int,
                        bj as int,
                        x,
                        y,
                    ) && (y < bj * BLOCK_SIZE + r || (y == bj * BLOCK_SIZE + r && x < bi
                        * BLOCK_SIZE + c)) {
                        b@[(y - bj * BLOCK_SIZE) * (BLOCK_SIZE as int) + (x - bi * BLOCK_SIZE)]
                    } else {
                        orig.pix(x, y)
                    }),
            decreases BLOCK_SIZE - c,
        {
            let v = b.get(r, c);
            set_pixel(img, bi * BLOCK_SIZE + c, bj * BLOCK_SIZE + r, v);
            c = c + 1;
        }
        r = r + 1;
    }
    proof {
        assert forall|t: int| 0 <= t < BLOCK_CELLS implies block_at(
            *img,
            bi as int,
            bj as int,
        )[t] == b@[t] by {
            let x = bi * (BLOCK_SIZE as int) + t % (BLOCK_SIZE as int);
            let y = bj * (BLOCK_SIZE as int) + t / (BLOCK_SIZE as int);
            assert(0 <= t % (BLOCK_SIZE as int) < (BLOCK_SIZE as int));
            assert(0 <= t / (BLOCK_SIZE as int) < (BLOCK_SIZE as int));
            assert(in_tile(bi as int, bj as int, x, y));
        }
        assert(block_at(*img, bi as int, bj as int) =~= b@);
    }
}

/// Saturating 64-bit addition, the rule by which per-block errors
/// accumulate into the total.
pub open spec fn sat_add_u64(a: int, b: int) -> int {
    if a + b > u64::MAX {
        u64::MAX as int
    } else {
        a + b
    }
}

/// Total error of a sequence of per-block results: the error components
/// added up in order, saturating at `u64::MAX`.
pub open spec fn total_error_of(results: Seq<(u64, Seq<u8>, Seq<u8>)>) -> int
    decreases results.len(),
{
    if results.len() == 0 {
        0
    } else {
        sat_add_u64(total_error_of(results.drop_last()), results.last().0 as int)
    }
}

/// Everything one finished driver run promises: `results` lists one
/// approximator result per whole block, indexed `bi * blocks_y + bj` in the
/// driver's visiting order; the total accumulates their errors; each tile of
/// the two output images holds the corresponding result's blocks; and every
/// pixel outside whole-block coverage keeps the source's value in both
/// outputs.
pub open spec fn driver_post(
    src: Image,
    results: Seq<(u64, Seq<u8>, Seq<u8>)>,
    total: u64,
    out_src: Image,
    out_tgt: Image,
) -> bool {
    let bx = src.blocks_x();
    let by = src.blocks_y();
    &&& results.len() == bx * by
    &&& total as int == total_error_of(results)
    &&& forall|bi: int, bj: int|
        #![trigger block_at(out_src, bi, bj)]
        #![trigger block_at(out_tgt, bi, bj)]
        0 <= bi < bx && 0 <= bj < by ==> block_at(out_src, bi, bj) == results[bi * by + bj].1
            && block_at(out_tgt, bi, bj) == results[bi * by + bj].2
    &&& forall|x: int, y: int|
        #![trigger out_src.pix(x, y)]
        #![trigger out_tgt.pix(x, y)]
        0 <= x < src.width && 0 <= y < src.height && !covered(src, x, y) ==> out_src.pix(x, y)
            == src.pix(x, y) && out_tgt.pix(x, y) == src.pix(x, y)
}

/// One record per approximator invocation, in driver order (block column
/// `bi` outermost, record index `bi * blocks_y + bj`): the source and target
/// blocks handed over, and the triple that came back.  Each record's blocks
/// are exactly the tiles extracted at its index, and each result is a
/// possible output of this very approximator on those blocks.
pub open spec fn call_records_ok<A: BlockApproximator>(
    approximator: &A,
    src: Image,
    tgt: Image,
    calls: Seq<(Block, Block, (u64, Block, Block))>,
) -> bool {
    forall|k: int|
        0 <= k < calls.len() ==> {
            let c = #[trigger] calls[k];
            &&& c.0@ == block_at(src, k / src.blocks_y(), k % src.blocks_y())
            &&& c.1@ == block_at(tgt, k / src.blocks_y(), k % src.blocks_y())
            &&& call_ensures(A::approximate, (approximator, &c.0, &c.1), c.2)
        }
}

/// The per-block result triples of a sequence of call records, with blocks
/// abstracted to their contents.
pub open spec fn results_of(calls: Seq<(Block, Block, (u64, Block, Block))>) -> Seq<
    (u64, Seq<u8>, Seq<u8>),
> {
    calls.map_values(|c: (Block, Block, (u64, Block, Block))| (c.2.0, c.2.1@, c.2.2@))
}

/// An earlier tile's result index lies below a later tile's.
proof fn lemma_block_index_lt(p: int, q: int, bi: int, bj: int, by: int)
    requires
        0 <= q < by,
        0 <= p,
        (p < bi && 0 <= bj) || (p == bi && q < bj),
        bj <= by,
    ensures
        0 <= p * by + q,
        p * by + q < bi * by + bj,
{
    assert(0 <= p * by + q && p * by + q < bi * by + bj) by (nonlinear_arith)
        requires
            0 <= q < by,
            0 <= p,
            (p < bi && 0 <= bj) || (p == bi && q < bj),
            bj <= by,
    ;
}

/// A write that left every pixel outside tile (`bi`, `bj`) unchanged left
/// every other whole tile's contents unchanged.
proof fn lemma_tile_preserved(before: Image, after: Image, bi: int, bj: int, p: int, q: int)
    requires
        after.width == before.width,
        after.height == before.height,
        0 <= p < before.blocks_x(),
        0 <= q < before.blocks_y(),
        !(p == bi && q == bj),
        forall|x: int, y: int|
            0 <= x < after.width && 0 <= y < after.height && !in_tile(bi, bj, x, y) ==> after.pix(
                x,
                y,
            ) == before.pix(x, y),
    ensures
        block_at(after, p, q) == block_at(before, p, q),
{
    assert forall|t: int| 0 <= t < BLOCK_CELLS implies block_at(after, p, q)[t] == block_at(
        before,
        p,
        q,
    )[t] by {
        let x = p * (BLOCK_SIZE as int) + t % (BLOCK_SIZE as int);
        let y = q * (BLOCK_SIZE as int) + t / (BLOCK_SIZE as int);
        lemma_tile_in_bounds(before.width as int, p);
        lemma_tile_in_bounds(before.height as int, q);
        assert(in_tile(p, q, x, y));
        assert(!in_tile(bi, bj, x, y));
    }
    assert(block_at(after, p, q) =~= block_at(before, p, q));
}

/// Tiling Driver: for every whole block of the equal-sized source and target
/// images, extracts the block pair, invokes the approximator, writes the
/// reconstructed source block and the digest block into the same tile of the
/// two output images, and accumulates the total error, saturating at
/// `u64::MAX`.  Returns the total error, the reconstructed-source image and
/// the approximated-target image.
pub fn approximate_image<A: BlockApproximator>(
    source: &Image,
    target: &Image,
    approximator: &A,
) -> (r: (u64, Image, Image))
    requires
        source.wf(),
        target.wf(),
        source.width == target.width,
        source.height == target.height,
    ensures
        r.1.wf(),
        r.2.wf(),
        r.1.width == source.width,
        r.1.height == source.height,
        r.2.width == source.width,
        r.2.height == source.height,
        exists|calls: Seq<(Block, Block, (u64, Block, Block))>|
            #[trigger] call_records_ok(approximator, *source, *target, calls) && driver_post(
                *source,
                results_of(calls),
                r.0,
                r.1,
                r.2,
            ),
{
    let bx = source.width / BLOCK_SIZE;
    let by = source.height / BLOCK_SIZE;
    let mut out_src = source.duplicate();
    let mut out_tgt = source.duplicate();
    let mut total: u64 = 0;
    let ghost mut results: Seq<(u64, Seq<u8>, Seq<u8>)> = Seq::empty();
    let ghost mut calls: Seq<(Block, Block, (u64, Block, Block))> = Seq::empty();
    let mut bi: usize = 0;
    while bi < bx
        invariant
            source.wf(),
            target.wf(),
            source.width == target.width,
            source.height == target.height,
            bx == source.blocks_x(),
            by == source.blocks_y(),
            out_src.wf(),
            out_tgt.wf(),
            out_src.width == source.width,
            out_src.height == source.height,
            out_tgt.width == source.width,
            out_tgt.height == source.height,
            bi <= bx,
            results.len() == bi * by,
            results == results_of(calls),
            call_records_ok(approximator, *source, *target, calls),
            total as int == total_error_of(results),
            forall|p: int, q: int|
                #![trigger block_at(out_src, p, q)]
                #![trigger block_at(out_tgt, p, q)]
                0 <= p < bi && 0 <= q < by ==> block_at(out_src, p, q) == results[p * by + q].1
                    && block_at(out_tgt, p, q) == results[p * by + q].2,
            forall|x: int, y: int|
                #![trigger out_src.pix(x, y)]
                #![trigger out_tgt.pix(x, y)]
                0 <= x < source.width && 0 <= y < source.height && !(x < bi * (BLOCK_SIZE as int)
                    && y < by * (BLOCK_SIZE as int)) ==> out_src.pix(x, y) == source.pix(x, y)
                    && out_tgt.pix(x, y) == source.pix(x, y),
        decreases bx - bi,
    {
        let mut bj: usize = 0;
        while bj < by
            invariant
                source.wf(),
                target.wf(),
                source.width == target.width,
                source.height == target.height,
                bx == source.blocks_x(),
                by == source.blocks_y(),
                out_src.wf(),
                out_tgt.wf(),
                out_src.width == source.width,
                out_src.height == source.height,
                out_tgt.width == source.width,
                out_tgt.height == source.height,
                bi < bx,
                bj <= by,
                results.len() == bi * by + bj,
                results == results_of(calls),
                call_records_ok(approximator, *source, *target, calls),
                total as int == total_error_of(results),
                forall|p: int, q: int|
                    #![trigger block_at(out_src, p, q)]
                    #![trigger block_at(out_tgt, p, q)]
                    (0 <= p < bi && 0 <= q < by) || (p == bi && 0 <= q < bj) ==> block_at(
                        out_src,
                        p,
                        q,
                    ) == results[p * by + q].1 && block_at(out_tgt, p, q) == results[p * by + q].2,
                forall|x: int, y: int|
                    #![trigger out_src.pix(x, y)]
                    #![trigger out_tgt.pix(x, y)]
                    0 <= x < source.width && 0 <= y < source.height && !(x < bi * (BLOCK_SIZE
                        as int) && y < by * (BLOCK_SIZE as int)) && !(bi * (BLOCK_SIZE as int) <= x
                        < (bi + 1) * (BLOCK_SIZE as int) && y < bj * (BLOCK_SIZE as int))
                        ==> out_src.pix(x, y) == source.pix(x, y) && out_tgt.pix(x, y)
                        == source.pix(x, y),
            decreases by - bj,
        {
            let in_block = extract_block(source, bi, bj);
            let tgt_block = extract_block(target, bi, bj);
            let (err, rec_block, dig_block) = approximator.approximate(&in_block, &tgt_block);
            let ghost pre_results = results;
            proof {
                let k = (bi * by + bj) as int;
                lemma_fundamental_div_mod_converse(k, by as int, bi as int, bj as int);
                assert(call_ensures(
                    A::approximate,
                    (approximator, &in_block, &tgt_block),
                    (err, rec_block, dig_block),
                ));
                calls = calls.push((in_block, tgt_block, (err, rec_block, dig_block)));
                results = results.push((err, rec_block@, dig_block@));
                assert(results.drop_last() =~= pre_results);
                assert(results =~= results_of(calls));
            }
            total = total.saturating_add(err);
            let ghost pre_src = out_src;
            write_block(&mut out_src, bi, bj, &rec_block);
            let ghost pre_tgt = out_tgt;
            write_block(&mut out_tgt, bi, bj, &dig_block);
            proof {
                assert forall|p: int, q: int|
                    (0 <= p < bi && 0 <= q < by) || (p == bi && 0 <= q < bj + 1) implies block_at(
                    out_src,
                    p,
                    q,
                ) == results[p * by + q].1 && block_at(out_tgt, p, q) == results[p * by + q].2 by {
                    if p == bi && q == bj {
                        assert(results[p * by + q] == (err, rec_block@, dig_block@));
                    } else {
                        lemma_block_index_lt(p, q, bi as int, bj as int, by as int);
                        assert(results[p * by + q] == pre_results[p * by + q]);
                        lemma_tile_preserved(pre_src, out_src, bi as int, bj as int, p, q);
                        lemma_tile_preserved(pre_tgt, out_tgt, bi as int, bj as int, p, q);
                    }
                }
            }
            bj = bj + 1;
        }
        proof {
            assert((bi + 1) * by == bi * by + by) by (nonlinear_arith);
        }
        bi = bi + 1;
    }
    let ghost g_total = total;
    let ghost g_src = out_src;
    let ghost g_tgt = out_tgt;
    proof {
        assert(driver_post(*source, results, g_total, g_src, g_tgt));
    }
    let r = (total, out_src, out_tgt);
    proof {
        assert(r.0 == g_total && r.1 == g_src && r.2 == g_tgt);
        assert(call_records_ok(approximator, *source, *target, calls) && driver_post(
            *source,
            results_of(calls),
            r.0,
            r.1,
            r.2,
        ));
    }
    r
}

/// Whole-block tiling is a partition of the covered region: every covered
/// pixel lies in the tile of its own block indices, and in no other tile.
pub proof fn lemma_tiling_partition(img: Image, x: int, y: int)
    requires
        0 <= x,
        0 <= y,
        covered(img, x, y),
    ensures
        exists|bi: int, bj: int|
            0 <= bi < img.blocks_x() && 0 <= bj < img.blocks_y() && #[trigger] in_tile(
                bi,
                bj,
                x,
                y,
            ),
        forall|bi1: int, bj1: int, bi2: int, bj2: int|
            #[trigger] in_tile(bi1, bj1, x, y) && #[trigger] in_tile(bi2, bj2, x, y) ==> bi1 == bi2
                && bj1 == bj2,
{
    let bi = x / (BLOCK_SIZE as int);
    let bj = y / (BLOCK_SIZE as int);
    assert(bi * (BLOCK_SIZE as int) <= x < (bi + 1) * (BLOCK_SIZE as int));
    assert(bj * (BLOCK_SIZE as int) <= y < (bj + 1) * (BLOCK_SIZE as int));
    assert(bi < img.blocks_x()) by (nonlinear_arith)
        requires
            0 <= x,
            x < img.blocks_x() * (BLOCK_SIZE as int),
            bi == x / (BLOCK_SIZE as int),
    ;
    assert(bj < img.blocks_y()) by (nonlinear_arith)
        requires
            0 <= y,
            y < img.blocks_y() * (BLOCK_SIZE as int),
            bj == y / (BLOCK_SIZE as int),
    ;
    assert(in_tile(bi, bj, x, y));
}

/// When both dimensions are multiples of `BLOCK_SIZE`, the whole blocks
/// cover every pixel of the image.
pub proof fn lemma_full_coverage(img: Image, x: int, y: int)
    requires
        img.width as int % (BLOCK_SIZE as int) == 0,
        img.height as int % (BLOCK_SIZE as int) == 0,
        0 <= x < img.width,
        0 <= y < img.height,
    ensures
        covered(img, x, y),
{
    assert(img.blocks_x() * (BLOCK_SIZE as int) == img.width);
    assert(img.blocks_y() * (BLOCK_SIZE as int) == img.height);
}

} // verus!
