//! Block-average hash: partitions raw pixel data directly into a grid of
//! equal-area blocks, averages the intensity of each block, and thresholds
//! every block value against the median of all block values.

use vstd::prelude::*;
use crate::luma::{
    lemma_sorted_is_sorted_of, lemma_sum_bounds, median_of, median_u8, sample_le, sum_of,
};
use vstd::relations::sorted_by;

verus! {

/// A raw grayscale image: a row-major pixel buffer with its dimensions.
///
/// Sample `(x, y)` lives at index `y * width + x`.
pub struct Image {
    pub width: u32,
    pub height: u32,
    pub pixels: Vec<u8>,
}

impl Image {
    /// The pixel buffer holds exactly one sample per coordinate.
    pub open spec fn wf(&self) -> bool {
        self.pixels@.len() == self.width * self.height
    }
}

/// Sum of the `len` samples of one row segment starting at `start`.
pub open spec fn row_seg_sum(s: Seq<u8>, start: int, len: int) -> int {
    sum_of(s.subrange(start, start + len))
}

/// Sum of the `bw * bh` samples of the block whose top-left corner is
/// `(x0, y0)`, row by row from the top.
pub open spec fn block_sum(s: Seq<u8>, iw: int, x0: int, y0: int, bw: int, bh: int) -> int
    decreases bh,
{
    if bh <= 0 {
        0
    } else {
        block_sum(s, iw, x0, y0, bw, bh - 1) + row_seg_sum(s, (y0 + bh - 1) * iw + x0, bw)
    }
}

/// The truncating average intensity of a block.
pub open spec fn block_avg(s: Seq<u8>, iw: int, x0: int, y0: int, bw: int, bh: int) -> int {
    block_sum(s, iw, x0, y0, bw, bh) / (bw * bh)
}

/// The per-block average intensities, in row-major block order, for a
/// `hw x hh` grid of `bw x bh` blocks.
pub open spec fn blocks_of(s: Seq<u8>, iw: int, bw: int, bh: int, hw: int, hh: int) -> Seq<u8> {
    Seq::new(
        (hw * hh) as nat,
        |k: int| block_avg(s, iw, (k % hw) * bw, (k / hw) * bh, bw, bh) as u8,
    )
}

/// The block hash: one boolean per block, set exactly when the block's
/// average intensity is at least the median of all block averages.
pub open spec fn blockhash_bits_of(s: Seq<u8>, iw: int, ih: int, hw: int, hh: int) -> Seq<bool> {
    let bw = iw / hw;
    let bh = ih / hh;
    let vals = blocks_of(s, iw, bw, bh, hw, hh);
    Seq::new((hw * hh) as nat, |k: int| vals[k] as int >= median_of(vals))
}

/// One sample extends a row-segment sum by its value.
proof fn lemma_row_seg_step(s: Seq<u8>, start: int, len: int)
    requires
        0 <= start,
        0 <= len,
        start + len < s.len(),
    ensures
        row_seg_sum(s, start, len + 1) == row_seg_sum(s, start, len) + s[start + len],
{
    assert(s.subrange(start, start + len + 1).drop_last() =~= s.subrange(start, start + len));
    assert(s.subrange(start, start + len + 1).last() == s[start + len]);
}

/// Block-average hash of a raw image over a `hash_width x hash_height`
/// grid of equal-area blocks, one boolean per block in row-major order.
/// The pixel dimensions must split evenly into the grid, and the buffer
/// must be small enough for a block sum to fit the 64-bit accumulator.
pub fn blockhash_bits(image: &Image, hash_width: u32, hash_height: u32) -> (r: Vec<bool>)
    requires
        image.wf(),
        1 <= hash_width <= image.width,
        1 <= hash_height <= image.height,
        image.width as int % hash_width as int == 0,
        image.height as int % hash_height as int == 0,
        255 * image.pixels@.len() <= u64::MAX,
    ensures
        r@ == blockhash_bits_of(
            image.pixels@,
            image.width as int,
            image.height as int,
            hash_width as int,
            hash_height as int,
        ),
        r@.len() == hash_width * hash_height,
{
    let iw = image.width as usize;
    let ih = image.height as usize;
    let hw = hash_width as usize;
    let hh = hash_height as usize;
    let ghost s = image.pixels@;
    let plen = image.pixels.len();
    proof {
        assert(plen <= usize::MAX);
        assert(s.len() <= usize::MAX);
    }
    proof {
        vstd::arithmetic::div_mod::lemma_fundamental_div_mod(iw as int, hw as int);
        vstd::arithmetic::div_mod::lemma_fundamental_div_mod(ih as int, hh as int);
    }
    let bw = iw / hw;
    let bh = ih / hh;
    proof {
        assert(iw as int == (bw as int) * (hw as int) && bw >= 1) by (nonlinear_arith)
            requires
                1 <= hw <= iw,
                iw as int == (hw as int) * (bw as int) + 0,
        ;
        assert(ih as int == (bh as int) * (hh as int) && bh >= 1) by (nonlinear_arith)
            requires
                1 <= hh <= ih,
                ih as int == (hh as int) * (bh as int) + 0,
        ;
        assert((bw as int) * (bh as int) <= (iw as int) * (ih as int) && (hw as int) * (hh as int)
            <= (iw as int) * (ih as int) && 1 <= (bw as int) * (bh as int)) by (nonlinear_arith)
            requires
                1 <= bw <= iw,
                1 <= bh <= ih,
                1 <= hw <= iw,
                1 <= hh <= ih,
                iw as int == (bw as int) * (hw as int),
                ih as int == (bh as int) * (hh as int),
        ;
    }
    let area = (bw as u64) * (bh as u64);
    let mut vals: Vec<u8> = Vec::new();
    let mut by: usize = 0;
    while by < hh
        invariant
            0 <= by <= hh,
            s == image.pixels@,
            s.len() == (iw as int) * (ih as int),
            iw == image.width,
            ih == image.height,
            hw >= 1,
            hh >= 1,
            iw as int == (bw as int) * (hw as int),
            ih as int == (bh as int) * (hh as int),
            bw >= 1,
            bh >= 1,
            area == (bw as int) * (bh as int),
            (hw as int) * (hh as int) <= s.len(),
            s.len() <= usize::MAX,
            255 * s.len() <= u64::MAX,
            vals@.len() == (by as int) * (hw as int),
            forall|k: int|
                0 <= k < vals@.len() ==> vals@[k] == blocks_of(
                    s,
                    iw as int,
                    bw as int,
                    bh as int,
                    hw as int,
                    hh as int,
                )[k],
        decreases hh - by,
    {
        let mut bx: usize = 0;
        while bx < hw
            invariant
                0 <= bx <= hw,
                0 <= by < hh,
                s == image.pixels@,
                s.len() == (iw as int) * (ih as int),
                iw == image.width,
                ih == image.height,
                hw >= 1,
                hh >= 1,
                iw as int == (bw as int) * (hw as int),
                ih as int == (bh as int) * (hh as int),
                bw >= 1,
                bh >= 1,
                area == (bw as int) * (bh as int),
                (hw as int) * (hh as int) <= s.len(),
                s.len() <= usize::MAX,
                255 * s.len() <= u64::MAX,
                vals@.len() == (by as int) * (hw as int) + bx as int,
                forall|k: int|
                    0 <= k < vals@.len() ==> vals@[k] == blocks_of(
                        s,
                        iw as int,
                        bw as int,
                        bh as int,
                        hw as int,
                        hh as int,
                    )[k],
            decreases hw - bx,
        {
            proof {
                assert((by as int) * (hw as int) + bx < (hh as int) * (hw as int))
                    by (nonlinear_arith)
                    requires
                        0 <= bx < hw,
                        0 <= by < hh,
                ;
                assert((bx as int) * (bw as int) + (bw as int) <= iw as int) by (nonlinear_arith)
                    requires
                        0 <= bx < hw,
                        bw >= 1,
                        iw as int == (bw as int) * (hw as int),
                ;
                assert((by as int) * (bh as int) + (bh as int) <= ih as int) by (nonlinear_arith)
                    requires
                        0 <= by < hh,
                        bh >= 1,
                        ih as int == (bh as int) * (hh as int),
                ;
            }
            let x0 = bx * bw;
            let y0 = by * bh;
            let mut total: u64 = 0;
            let mut dy: usize = 0;
            while dy < bh
                invariant
                    0 <= dy <= bh,
                    s == image.pixels@,
                    s.len() == (iw as int) * (ih as int),
                    bw >= 1,
                    bh >= 1,
                    iw >= 1,
                    ih >= 1,
                    s.len() <= usize::MAX,
                    x0 as int + bw as int <= iw as int,
                    y0 as int + bh as int <= ih as int,
                    255 * s.len() <= u64::MAX,
                    total == block_sum(s, iw as int, x0 as int, y0 as int, bw as int, dy as int),
                    total <= 255 * (dy as int) * (bw as int),
                decreases bh - dy,
            {
                proof {
                    assert((y0 as int + dy as int) * (iw as int) + (x0 as int) + (bw as int) <= (
                    iw as int) * (ih as int)) by (nonlinear_arith)
                        requires
                            0 <= dy < bh,
                            y0 as int + bh as int <= ih as int,
                            x0 as int + bw as int <= iw as int,
                            bw >= 1,
                            bh >= 1,
                            iw as int >= 1,
                    ;
                    assert((dy as int) * (bw as int) + bw as int <= s.len())
                        by (nonlinear_arith)
                        requires
                            0 <= dy < bh,
                            1 <= bw,
                            1 <= bh,
                            x0 as int + bw as int <= iw as int,
                            y0 as int + bh as int <= ih as int,
                            0 <= x0,
                            0 <= y0,
                            s.len() == (iw as int) * (ih as int),
                    ;
                    assert(255 * (dy as int) * (bw as int) == 255 * ((dy as int) * (bw as int)))
                        by (nonlinear_arith);
                }
                let rowstart = (y0 + dy) * iw + x0;
                let mut dx: usize = 0;
                while dx < bw
                    invariant
                        0 <= dx <= bw,
                        s == image.pixels@,
                        s.len() == (iw as int) * (ih as int),
                        rowstart as int + bw as int <= s.len(),
                        s.len() <= usize::MAX,
                        255 * s.len() <= u64::MAX,
                        (dy as int) * (bw as int) + bw as int <= s.len(),
                        total == block_sum(s, iw as int, x0 as int, y0 as int, bw as int, dy as int)
                            + row_seg_sum(s, rowstart as int, dx as int),
                        total <= 255 * ((dy as int) * (bw as int) + dx as int),
                    decreases bw - dx,
                {
                    proof {
                        lemma_row_seg_step(s, rowstart as int, dx as int);
                        assert(block_sum(s, iw as int, x0 as int, y0 as int, bw as int, dy as int)
                            >= 0 && row_seg_sum(s, rowstart as int, dx as int) >= 0) by {
                            lemma_block_sum_nonneg(
                                s,
                                iw as int,
                                x0 as int,
                                y0 as int,
                                bw as int,
                                dy as int,
                            );
                            lemma_sum_bounds(s.subrange(rowstart as int, rowstart as int + dx));
                        }
                    }
                    total = total + (image.pixels[rowstart + dx] as u64);
                    dx = dx + 1;
                }
                proof {
                    assert(row_seg_sum(s, (y0 as int + dy as int) * (iw as int) + x0 as int,
                        bw as int) == row_seg_sum(s, rowstart as int, bw as int));
                    assert((dy as int + 1) * (bw as int) == (dy as int) * (bw as int) + bw as int)
                        by (nonlinear_arith);
                    assert(255 * ((dy as int) * (bw as int) + bw as int) == 255 * ((dy as int + 1)
                        * (bw as int)));
                    assert(255 * ((dy as int + 1) * (bw as int)) == 255 * (dy as int + 1) * (
                    bw as int)) by (nonlinear_arith);
                }
                dy = dy + 1;
            }
            proof {
                assert((bh as int) * (bw as int) == (bw as int) * (bh as int))
                    by (nonlinear_arith);
                assert(total <= 255 * area) by (nonlinear_arith)
                    requires
                        total <= 255 * (bh as int) * (bw as int),
                        area == (bw as int) * (bh as int),
                ;
                assert(area >= 1) by (nonlinear_arith)
                    requires
                        bw >= 1,
                        bh >= 1,
                        area == (bw as int) * (bh as int),
                ;
                vstd::arithmetic::div_mod::lemma_div_is_ordered(
                    total as int,
                    255 * area as int,
                    area as int,
                );
                vstd::arithmetic::div_mod::lemma_div_by_multiple(255, area as int);
                vstd::arithmetic::div_mod::lemma_div_pos_is_pos(total as int, area as int);
            }
            let v = (total / area) as u8;
            let ghost k = (by as int) * (hw as int) + bx as int;
            proof {
                vstd::arithmetic::div_mod::lemma_fundamental_div_mod_converse_div(
                    k,
                    hw as int,
                    by as int,
                    bx as int,
                );
                vstd::arithmetic::div_mod::lemma_fundamental_div_mod_converse_mod(
                    k,
                    hw as int,
                    by as int,
                    bx as int,
                );
                assert(v as int == block_avg(
                    s,
                    iw as int,
                    (k % hw as int) * bw as int,
                    (k / hw as int) * bh as int,
                    bw as int,
                    bh as int,
                ));
            }
            vals.push(v);
            bx = bx + 1;
            proof {
                assert(vals@.len() == (by as int) * (hw as int) + bx as int);
            }
        }
        by = by + 1;
        proof {
            assert((by as int) * (hw as int) == (by as int - 1) * (hw as int) + hw as int)
                by (nonlinear_arith);
        }
    }
    proof {
        assert((hh as int) * (hw as int) == (hw as int) * (hh as int)) by (nonlinear_arith);
        assert(vals@ =~= blocks_of(s, iw as int, bw as int, bh as int, hw as int, hh as int));
        assert((hw as int) * (hh as int) >= 1) by (nonlinear_arith)
            requires
                hw >= 1,
                hh >= 1,
        ;
    }
    let med = median_u8(&vals);
    let n = vals.len();
    let mut r: Vec<bool> = Vec::new();
    let mut k: usize = 0;
    while k < n
        invariant
            0 <= k <= n,
            n == vals@.len(),
            r@.len() == k,
            med as int == median_of(vals@),
            forall|j: int| 0 <= j < k ==> r@[j] == (vals@[j] as int >= median_of(vals@)),
        decreases n - k,
    {
        r.push(vals[k] >= med);
        k = k + 1;
    }
    proof {
        assert(r@ =~= blockhash_bits_of(
            s,
            iw as int,
            ih as int,
            hw as int,
            hh as int,
        ));
    }
    r
}

/// The sum of a buffer of identical samples is that sample times the length.
proof fn lemma_sum_uniform(t: Seq<u8>, v: u8)
    requires
        forall|i: int| 0 <= i < t.len() ==> t[i] == v,
    ensures
        sum_of(t) == v * t.len(),
    decreases t.len(),
{
    if t.len() > 0 {
        lemma_sum_uniform(t.drop_last(), v);
        assert(v * (t.len() - 1) + v == v * t.len()) by (nonlinear_arith);
    }
}

/// Every block of an image of identical samples sums to that sample times
/// the block area.
proof fn lemma_block_sum_uniform(
    s: Seq<u8>,
    iw: int,
    ih: int,
    x0: int,
    y0: int,
    bw: int,
    bh: int,
    v: u8,
)
    requires
        0 <= x0,
        0 <= y0,
        1 <= bw,
        0 <= bh,
        x0 + bw <= iw,
        y0 + bh <= ih,
        s.len() == iw * ih,
        forall|i: int| 0 <= i < s.len() ==> s[i] == v,
    ensures
        block_sum(s, iw, x0, y0, bw, bh) == v * (bw * bh),
    decreases bh,
{
    if bh <= 0 {
        assert(v * (bw * 0) == 0) by (nonlinear_arith);
    } else {
        lemma_block_sum_uniform(s, iw, ih, x0, y0, bw, bh - 1, v);
        let start = (y0 + bh - 1) * iw + x0;
        assert(0 <= start && start + bw <= s.len()) by (nonlinear_arith)
            requires
                0 <= x0,
                0 <= y0,
                1 <= bw,
                1 <= bh,
                x0 + bw <= iw,
                y0 + bh <= ih,
                s.len() == iw * ih,
                start == (y0 + bh - 1) * iw + x0,
        ;
        let row = s.subrange(start, start + bw);
        assert(forall|i: int| 0 <= i < row.len() ==> row[i] == v);
        lemma_sum_uniform(row, v);
        assert(v * (bw * (bh - 1)) + v * bw == v * (bw * bh)) by (nonlinear_arith);
    }
}

/// On an image of identical samples every block averages to that sample,
/// so every block passes the median threshold alike: the block hash of a
/// uniform image is all-true, never a mixed pattern.
pub proof fn lemma_blockhash_uniform(s: Seq<u8>, iw: int, ih: int, hw: int, hh: int, v: u8)
    requires
        1 <= hw <= iw,
        1 <= hh <= ih,
        iw % hw == 0,
        ih % hh == 0,
        s.len() == iw * ih,
        forall|i: int| 0 <= i < s.len() ==> s[i] == v,
    ensures
        blockhash_bits_of(s, iw, ih, hw, hh) == Seq::new((hw * hh) as nat, |k: int| true),
{
    let bw = iw / hw;
    let bh = ih / hh;
    vstd::arithmetic::div_mod::lemma_fundamental_div_mod(iw, hw);
    vstd::arithmetic::div_mod::lemma_fundamental_div_mod(ih, hh);
    assert(iw == bw * hw && bw >= 1) by (nonlinear_arith)
        requires
            1 <= hw <= iw,
            iw == hw * bw + 0,
    ;
    assert(ih == bh * hh && bh >= 1) by (nonlinear_arith)
        requires
            1 <= hh <= ih,
            ih == hh * bh + 0,
    ;
    let vals = blocks_of(s, iw, bw, bh, hw, hh);
    assert forall|k: int| 0 <= k < hw * hh implies vals[k] == v by {
        vstd::arithmetic::div_mod::lemma_fundamental_div_mod(k, hw);
        let bx = k % hw;
        let by = k / hw;
        assert(0 <= by < hh) by (nonlinear_arith)
            requires
                0 <= k < hw * hh,
                1 <= hw,
                k == hw * by + bx,
                0 <= bx < hw,
        ;
        assert(bx * bw + bw <= iw && by * bh + bh <= ih && 0 <= bx * bw && 0 <= by * bh)
            by (nonlinear_arith)
            requires
                0 <= bx < hw,
                0 <= by < hh,
                1 <= bw,
                1 <= bh,
                iw == bw * hw,
                ih == bh * hh,
        ;
        lemma_block_sum_uniform(s, iw, ih, bx * bw, by * bh, bw, bh, v);
        assert(bw * bh >= 1) by (nonlinear_arith)
            requires
                1 <= bw,
                1 <= bh,
        ;
        vstd::arithmetic::div_mod::lemma_div_by_multiple(v as int, bw * bh);
        assert(block_avg(s, iw, bx * bw, by * bh, bw, bh) == v);
    }
    assert(vals.len() == hw * hh);
    assert(sorted_by(vals, sample_le()));
    lemma_sorted_is_sorted_of(vals, vals);
    assert(median_of(vals) == v) by {
        if vals.len() % 2 == 0 {
            assert(hw * hh >= 1) by (nonlinear_arith)
                requires
                    1 <= hw,
                    1 <= hh,
            ;
            assert(vals.len() >= 2);
            assert(v as int + v as int == (v as int) * 2);
            vstd::arithmetic::div_mod::lemma_div_by_multiple(v as int, 2);
        }
    }
    assert(blockhash_bits_of(s, iw, ih, hw, hh) =~= Seq::new((hw * hh) as nat, |k: int| true));
}

/// A block sum of non-negative samples is non-negative.
proof fn lemma_block_sum_nonneg(s: Seq<u8>, iw: int, x0: int, y0: int, bw: int, bh: int)
    requires
        0 <= bw,
    ensures
        block_sum(s, iw, x0, y0, bw, bh) >= 0,
    decreases bh,
{
    if bh > 0 {
        lemma_block_sum_nonneg(s, iw, x0, y0, bw, bh - 1);
        lemma_sum_bounds(
            s.subrange((y0 + bh - 1) * iw + x0, (y0 + bh - 1) * iw + x0 + bw),
        );
    }
}

} // verus!
