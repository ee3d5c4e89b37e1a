//! The budget estimator and the block-averaged perceptual scorer.
//!
//! Both read pixels through the linear-light transfer.  The budget is the
//! total light deficit inside the mask; the score compares target and canvas
//! by the mean linear light of 4-by-4 blocks, tolerating fine dithering while
//! penalizing coarse tonal mismatch.  The score carries each block's absolute
//! mean difference scaled by 720720 (a common multiple of every possible
//! in-mask count of a block), so all divisions are exact and every value is
//! an integer.
use vstd::prelude::*;

use crate::raster::GrayRaster;
use crate::transfer::{linear_light, lin_table_wf, lemma_linear_light_bounds};
use vstd::arithmetic::div_mod::lemma_fundamental_div_mod_converse;

verus! {

/// The total light deficit over the first `n` pixels: for each pixel under
/// the mask, how far the target is below full brightness, at scale 2^16.
pub open spec fn deficit_sum(mask: Seq<u8>, target: Seq<u8>, n: int) -> int
    decreases n,
{
    if n <= 0 {
        0
    } else {
        deficit_sum(mask, target, n - 1) + if mask[n - 1] == 255 {
            0x1_0000 - linear_light(target[n - 1])
        } else {
            0
        }
    }
}

/// The required darkness of a run: the light deficit over the whole raster.
pub open spec fn spec_darkness(mask: Seq<u8>, target: Seq<u8>) -> int {
    deficit_sum(mask, target, mask.len() as int)
}

/// Computes the required-darkness budget of a run: how much linear light the
/// thread must remove inside the mask for the canvas to match the target.
pub fn image_background(mask: &GrayRaster, target: &GrayRaster, lin: &Vec<u32>) -> (darkness: u64)
    requires
        mask.wf(),
        target.wf(),
        mask.spec_width() == target.spec_width(),
        mask.spec_height() == target.spec_height(),
        lin_table_wf(lin@),
        mask.pixels().len() <= 0x1_0000_0000,
    ensures
        darkness == spec_darkness(mask.pixels(), target.pixels()),
{
    let n: usize = mask.len();
    let mut darkness: u64 = 0;
    let mut i: usize = 0;
    while i < n
        invariant
            i <= n,
            n == mask.pixels().len(),
            n == target.pixels().len(),
            n <= 0x1_0000_0000,
            mask.wf(),
            target.wf(),
            lin_table_wf(lin@),
            darkness == deficit_sum(mask.pixels(), target.pixels(), i as int),
            darkness <= i * 0x1_0000,
        decreases n - i,
    {
        let m: u8 = mask.get_index(i);
        if m == 255 {
            let t: u8 = target.get_index(i);
            let l: u32 = lin[t as usize];
            darkness = darkness + (0x1_0000 - l as u64);
        }
        proof {
            assert((i as int) * 0x1_0000 + 0x1_0000 == (i + 1) * 0x1_0000) by (nonlinear_arith);
        }
        i = i + 1;
    }
    darkness
}

/// One pixel's contribution to a block: whether it counts, and the linear
/// light of target and canvas there.
pub open spec fn cell(
    mask: Seq<u8>,
    target: Seq<u8>,
    actual: Seq<u8>,
    w: int,
    x: int,
    y: int,
) -> (int, int, int) {
    if mask[y * w + x] == 255 {
        (1, linear_light(target[y * w + x]), linear_light(actual[y * w + x]))
    } else {
        (0, 0, 0)
    }
}

/// The in-mask count and the two linear-light sums over the first `k` cells
/// of the 4-by-4 block whose corner is `(4 bx, 4 by)`; cells walk the block
/// column by column and are skipped outside the raster.
pub open spec fn block_acc(
    mask: Seq<u8>,
    target: Seq<u8>,
    actual: Seq<u8>,
    w: int,
    h: int,
    bx: int,
    by: int,
    k: int,
) -> (int, int, int)
    decreases k,
{
    if k <= 0 {
        (0, 0, 0)
    } else {
        let p = block_acc(mask, target, actual, w, h, bx, by, k - 1);
        let x = 4 * bx + (k - 1) / 4;
        let y = 4 * by + (k - 1) % 4;
        if x < w && y < h {
            let c = cell(mask, target, actual, w, x, y);
            (p.0 + c.0, p.1 + c.1, p.2 + c.2)
        } else {
            p
        }
    }
}

/// A block's term: the absolute difference of its two linear-light sums,
/// scaled by `720720 / count` — the mean difference at scale 2^16 * 720720.
/// Blocks with no in-mask pixel contribute nothing.
pub open spec fn block_term(
    mask: Seq<u8>,
    target: Seq<u8>,
    actual: Seq<u8>,
    w: int,
    h: int,
    bx: int,
    by: int,
) -> int {
    let s = block_acc(mask, target, actual, w, h, bx, by, 16);
    if s.0 > 0 {
        (if s.1 >= s.2 {
            s.1 - s.2
        } else {
            s.2 - s.1
        }) * (720720int / s.0)
    } else {
        0
    }
}

/// The sum of the first `bi` block terms, blocks walked column by column
/// with `nby` blocks per column.
pub open spec fn score_upto(
    mask: Seq<u8>,
    target: Seq<u8>,
    actual: Seq<u8>,
    w: int,
    h: int,
    nby: int,
    bi: int,
) -> int
    decreases bi,
{
    if bi <= 0 {
        0
    } else {
        score_upto(mask, target, actual, w, h, nby, bi - 1) + block_term(
            mask,
            target,
            actual,
            w,
            h,
            (bi - 1) / nby,
            (bi - 1) % nby,
        )
    }
}

/// The perceptual error between the canvas and the target under the mask:
/// the sum of all block terms.  Lower is better; zero is a perfect match of
/// the block means.
pub open spec fn spec_score(
    mask: Seq<u8>,
    target: Seq<u8>,
    actual: Seq<u8>,
    w: int,
    h: int,
) -> int {
    score_upto(mask, target, actual, w, h, (h + 3) / 4, ((w + 3) / 4) * ((h + 3) / 4))
}

/// Each count is at most 16, each sum at most 16 * 2^16, so a block term is
/// at most 2^16 * 720720.
pub proof fn lemma_block_acc_bounds(
    mask: Seq<u8>,
    target: Seq<u8>,
    actual: Seq<u8>,
    w: int,
    h: int,
    bx: int,
    by: int,
    k: int,
    )
    requires
        0 <= k <= 16,
        mask.len() == w * h,
        target.len() == w * h,
        actual.len() == w * h,
        0 <= w,
        0 <= h,
        0 <= bx,
        0 <= by,
    ensures
        ({
            let s = block_acc(mask, target, actual, w, h, bx, by, k);
            &&& 0 <= s.0 <= k
            &&& 0 <= s.1 <= s.0 * 0x1_0000
            &&& 0 <= s.2 <= s.0 * 0x1_0000
            &&& s.1 <= k * 0x1_0000
            &&& s.2 <= k * 0x1_0000
        }),
    decreases k,
{
    if k > 0 {
        lemma_block_acc_bounds(mask, target, actual, w, h, bx, by, k - 1);
        let p = block_acc(mask, target, actual, w, h, bx, by, k - 1);
        let x = 4 * bx + (k - 1) / 4;
        let y = 4 * by + (k - 1) % 4;
        if x < w && y < h {
            crate::raster::lemma_row_major(x, y, w, h);
            lemma_linear_light_bounds(target[y * w + x]);
            lemma_linear_light_bounds(actual[y * w + x]);
        }
        assert((k - 1) * 0x1_0000 + 0x1_0000 == k * 0x1_0000) by (nonlinear_arith);
        assert(p.0 * 0x1_0000 + 0x1_0000 == (p.0 + 1) * 0x1_0000) by (nonlinear_arith);
    }
}

/// A block term is bounded by the largest possible mean difference.
pub proof fn lemma_block_term_bounds(
    mask: Seq<u8>,
    target: Seq<u8>,
    actual: Seq<u8>,
    w: int,
    h: int,
    bx: int,
    by: int,
)
    requires
        mask.len() == w * h,
        target.len() == w * h,
        actual.len() == w * h,
        0 <= w,
        0 <= h,
        0 <= bx,
        0 <= by,
    ensures
        0 <= block_term(mask, target, actual, w, h, bx, by) <= 0x1_0000 * 720720,
{
    lemma_block_acc_bounds(mask, target, actual, w, h, bx, by, 16);
    let s = block_acc(mask, target, actual, w, h, bx, by, 16);
    if s.0 > 0 {
        let d = if s.1 >= s.2 {
            s.1 - s.2
        } else {
            s.2 - s.1
        };
        assert(d <= s.0 * 0x1_0000) by (nonlinear_arith)
            requires
                0 <= s.1 <= 16 * 0x1_0000,
                0 <= s.2 <= 16 * 0x1_0000,
                1 <= s.0 <= 16,
                d == if s.1 >= s.2 {
                    s.1 - s.2
                } else {
                    s.2 - s.1
                },
                s.1 <= s.0 * 0x1_0000,
                s.2 <= s.0 * 0x1_0000,
        ;
        assert(d * (720720int / s.0) <= 0x1_0000 * 720720) by (nonlinear_arith)
            requires
                1 <= s.0 <= 16,
                0 <= d <= s.0 * 0x1_0000,
        ;
        assert(d * (720720int / s.0) >= 0) by (nonlinear_arith)
            requires
                1 <= s.0,
                0 <= d,
        ;
    }
}

/// Computes the perceptual error between the canvas (`actual`) and the
/// target, under the mask, exactly as `spec_score` states it.
pub fn score_img_to_target(
    mask: &GrayRaster,
    target: &GrayRaster,
    actual: &GrayRaster,
    lin: &Vec<u32>,
) -> (err: u128)
    requires
        mask.wf(),
        target.wf(),
        actual.wf(),
        mask.spec_width() == target.spec_width(),
        mask.spec_height() == target.spec_height(),
        actual.spec_width() == target.spec_width(),
        actual.spec_height() == target.spec_height(),
        lin_table_wf(lin@),
        mask.spec_width() <= 0x1_0000_0000,
        mask.spec_height() <= 0x1_0000_0000,
    ensures
        err == spec_score(
            mask.pixels(),
            target.pixels(),
            actual.pixels(),
            mask.spec_width(),
            mask.spec_height(),
        ),
{
    let w: u32 = mask.width();
    let h: u32 = mask.height();
    let ghost ms = mask.pixels();
    let ghost ts = target.pixels();
    let ghost asq = actual.pixels();
    let nbx: u32 = ((w as u64 + 3) / 4) as u32;
    let nby: u32 = ((h as u64 + 3) / 4) as u32;
    let mut err: u128 = 0;
    if nby == 0 {
        proof {
            assert(nbx * nby == 0) by (nonlinear_arith)
                requires
                    nby == 0,
            ;
        }
        return 0;
    }
    let mut bx: u32 = 0;
    while bx < nbx
        invariant
            bx <= nbx,
            nbx == (w + 3) / 4,
            nby == (h + 3) / 4,
            0 < nby,
            mask.wf(),
            target.wf(),
            actual.wf(),
            mask.spec_width() == w,
            mask.spec_height() == h,
            target.spec_width() == w,
            target.spec_height() == h,
            actual.spec_width() == w,
            actual.spec_height() == h,
            ms == mask.pixels(),
            ts == target.pixels(),
            asq == actual.pixels(),
            lin_table_wf(lin@),
            err == score_upto(ms, ts, asq, w as int, h as int, nby as int, (bx * nby) as int),
            err <= (bx * nby) * (0x1_0000 * 720720),
        decreases nbx - bx,
    {
        let mut by: u32 = 0;
        proof {
            crate::math::lemma_mul_le(bx as int, nby as int, 0x1_0000_0000, 0x1_0000_0000);
        }
        while by < nby
            invariant
                by <= nby,
                bx < nbx,
                nbx == (w + 3) / 4,
                nby == (h + 3) / 4,
                0 < nby,
                mask.wf(),
                target.wf(),
                actual.wf(),
                mask.spec_width() == w,
                mask.spec_height() == h,
                target.spec_width() == w,
                target.spec_height() == h,
                actual.spec_width() == w,
                actual.spec_height() == h,
                ms == mask.pixels(),
                ts == target.pixels(),
                asq == actual.pixels(),
                lin_table_wf(lin@),
                err == score_upto(
                    ms,
                    ts,
                    asq,
                    w as int,
                    h as int,
                    nby as int,
                    bx * nby + by,
                ),
                err <= (bx * nby + by) * (0x1_0000 * 720720),
            decreases nby - by,
        {
            let mut cnt: u32 = 0;
            let mut sum_t: u64 = 0;
            let mut sum_a: u64 = 0;
            let mut dx: u32 = 0;
            while dx < 4
                invariant
                    dx <= 4,
                    bx < nbx,
                    by < nby,
                    nbx == (w + 3) / 4,
                    nby == (h + 3) / 4,
                    mask.wf(),
                    target.wf(),
                    actual.wf(),
                    mask.spec_width() == w,
                    mask.spec_height() == h,
                    target.spec_width() == w,
                    target.spec_height() == h,
                    actual.spec_width() == w,
                    actual.spec_height() == h,
                    ms == mask.pixels(),
                    ts == target.pixels(),
                    asq == actual.pixels(),
                    lin_table_wf(lin@),
                    ({
                        let s = block_acc(
                            ms,
                            ts,
                            asq,
                            w as int,
                            h as int,
                            bx as int,
                            by as int,
                            (dx * 4) as int,
                        );
                        &&& cnt == s.0
                        &&& sum_t == s.1
                        &&& sum_a == s.2
                    }),
                    cnt <= dx * 4,
                    sum_t <= (dx * 4) * 0x1_0000,
                    sum_a <= (dx * 4) * 0x1_0000,
                decreases 4 - dx,
            {
                let mut dy: u32 = 0;
                while dy < 4
                    invariant
                        dy <= 4,
                        dx < 4,
                        bx < nbx,
                        by < nby,
                        nbx == (w + 3) / 4,
                        nby == (h + 3) / 4,
                        mask.wf(),
                        target.wf(),
                        actual.wf(),
                        mask.spec_width() == w,
                        mask.spec_height() == h,
                        target.spec_width() == w,
                        target.spec_height() == h,
                        actual.spec_width() == w,
                        actual.spec_height() == h,
                        ms == mask.pixels(),
                        ts == target.pixels(),
                        asq == actual.pixels(),
                        lin_table_wf(lin@),
                        ({
                            let s = block_acc(
                                ms,
                                ts,
                                asq,
                                w as int,
                                h as int,
                                bx as int,
                                by as int,
                                (dx * 4 + dy) as int,
                            );
                            &&& cnt == s.0
                            &&& sum_t == s.1
                            &&& sum_a == s.2
                        }),
                        cnt <= dx * 4 + dy,
                        sum_t <= (dx * 4 + dy) * 0x1_0000,
                        sum_a <= (dx * 4 + dy) * 0x1_0000,
                    decreases 4 - dy,
                {
                    let ghost k: int = (dx * 4 + dy) as int;
                    proof {
                        lemma_fundamental_div_mod_converse(k, 4, dx as int, dy as int);
                        assert((k + 1 - 1) / 4 == dx as int);
                        assert((k + 1 - 1) % 4 == dy as int);
                        assert(k * 0x1_0000 + 0x1_0000 == (k + 1) * 0x1_0000) by (nonlinear_arith);
                    }
                    let x: u64 = 4 * (bx as u64) + (dx as u64);
                    let y: u64 = 4 * (by as u64) + (dy as u64);
                    if x < w as u64 && y < h as u64 {
                        proof {
                            crate::raster::lemma_row_major(x as int, y as int, w as int, h as int);
                        }
                        let m: u8 = mask.get_pixel(x as u32, y as u32);
                        if m == 255 {
                            let tv: u8 = target.get_pixel(x as u32, y as u32);
                            let av: u8 = actual.get_pixel(x as u32, y as u32);
                            cnt = cnt + 1;
                            sum_t = sum_t + lin[tv as usize] as u64;
                            sum_a = sum_a + lin[av as usize] as u64;
                        }
                    }
                    dy = dy + 1;
                }
                proof {
                    assert((dx + 1) * 4 == dx * 4 + 4) by (nonlinear_arith);
                    assert((dx * 4 + 4) * 0x1_0000 == (dx * 4) * 0x1_0000 + 4 * 0x1_0000)
                        by (nonlinear_arith);
                }
                dx = dx + 1;
            }
            if cnt > 0 {
                let diff: u64 = if sum_t >= sum_a {
                    sum_t - sum_a
                } else {
                    sum_a - sum_t
                };
                let q: u64 = 720720 / (cnt as u64);
                proof {
                    lemma_block_acc_bounds(
                        ms,
                        ts,
                        asq,
                        w as int,
                        h as int,
                        bx as int,
                        by as int,
                        16,
                    );
                    crate::math::lemma_mul_le(diff as int, q as int, 0x10_0000, 720720);
                }
                let term: u64 = diff * q;
                proof {
                    crate::math::lemma_mul_le(bx as int, nby as int, 0x4000_0000, 0x4000_0000);
                    crate::math::lemma_mul_le(
                        bx * nby + by,
                        0x1_0000int * 720720,
                        0x1000_0000_4000_0000,
                        0x1_0000int * 720720,
                    );
                }
                err = err + term as u128;
            }
            proof {
                lemma_block_term_bounds(ms, ts, asq, w as int, h as int, bx as int, by as int);
                vstd::arithmetic::div_mod::lemma_fundamental_div_mod_converse(
                    (bx * nby + by) as int,
                    nby as int,
                    bx as int,
                    by as int,
                );
                assert((bx * nby + by) * (0x1_0000 * 720720) + 0x1_0000 * 720720 == (bx * nby + by
                    + 1) * (0x1_0000 * 720720)) by (nonlinear_arith);
            }
            by = by + 1;
        }
        proof {
            assert((bx + 1) * nby == bx * nby + nby) by (nonlinear_arith);
        }
        bx = bx + 1;
    }
    proof {
        assert(err == spec_score(ms, ts, asq, w as int, h as int));
    }
    err
}

} // verus!
