//! The compositing canvas operations: antialiased segment darkening.
//!
//! A thread only partly occludes light, and repeated crossings compound
//! sub-additively: a pass with antialiasing coverage `w` in [0, 1] multiplies
//! a pixel's remaining brightness by `0.5^w`.  Here the multiplier is carried
//! in fixed point at scale 2^16: coverage is quantized to 255ths, and
//! `0.5^(1/255)` is the constant 65358 / 65536, applied once per coverage
//! step.  Every pixel update is the exact integer value of that model.
use vstd::prelude::*;

use crate::raster::{GrayRaster, lemma_row_major};
use vstd::arithmetic::div_mod::lemma_div_is_ordered;

verus! {

/// The fixed-point multiplier `0.5^(c/255)` at scale 2^16, for a coverage
/// quantized to `c` 255ths.
pub open spec fn half_mult(c: nat) -> nat
    decreases c,
{
    if c == 0 {
        0x1_0000
    } else {
        (half_mult((c - 1) as nat) * 65358) / 0x1_0000
    }
}

/// The multiplier never exceeds one (scale 2^16).
pub proof fn lemma_half_mult_le(c: nat)
    ensures
        half_mult(c) <= 0x1_0000,
    decreases c,
{
    if c > 0 {
        lemma_half_mult_le((c - 1) as nat);
        assert(half_mult((c - 1) as nat) * 65358 <= 0x1_0000 * 65358) by (nonlinear_arith)
            requires
                half_mult((c - 1) as nat) <= 0x1_0000,
        ;
        lemma_div_is_ordered(
            half_mult((c - 1) as nat) * 65358 as int,
            0x1_0000 * 65358 as int,
            0x1_0000,
        );
    }
}

/// One darkening pass on a single pixel: brightness `old`, coverage `c`
/// 255ths, gives the exact fixed-point product, floored.
pub open spec fn blend_val(old: u8, c: u8) -> int {
    (old * half_mult(c as nat)) / 0x1_0000
}

/// Darkening never brightens a pixel.
pub proof fn lemma_blend_no_brighter(old: u8, c: u8)
    ensures
        0 <= blend_val(old, c) <= old,
{
    lemma_half_mult_le(c as nat);
    assert(old * half_mult(c as nat) <= old * 0x1_0000) by (nonlinear_arith)
        requires
            half_mult(c as nat) <= 0x1_0000,
            old >= 0,
    ;
    lemma_div_is_ordered(old * half_mult(c as nat), old * 0x1_0000, 0x1_0000);
    assert(old * 0x1_0000 / 0x1_0000 == old);
    assert(old * half_mult(c as nat) >= 0) by (nonlinear_arith)
        requires
            old >= 0,
            half_mult(c as nat) >= 0,
    ;
}

/// Zero coverage leaves a pixel unchanged.
pub proof fn lemma_blend_identity(old: u8)
    ensures
        blend_val(old, 0) == old,
{
    assert(half_mult(0) == 0x1_0000);
}

/// Full coverage strictly darkens any pixel that still has brightness.
pub proof fn lemma_blend_strict(old: u8)
    requires
        old >= 1,
    ensures
        blend_val(old, 255) < old,
{
    lemma_half_mult_monotone(1, 255);
    assert(half_mult(1) == 65358) by {
        reveal_with_fuel(half_mult, 2);
    }
    assert(old * half_mult(255nat) <= old * 65358) by (nonlinear_arith)
        requires
            half_mult(255nat) <= 65358,
            old >= 0,
    ;
    assert(old * 65358 < old * 0x1_0000) by (nonlinear_arith)
        requires
            old >= 1,
    ;
    lemma_div_lt(old * half_mult(255nat), 0x1_0000, old as int);
}

/// Dividing something below `b * c` by `b` stays below `c`.
pub proof fn lemma_div_lt(a: int, b: int, c: int)
    by (nonlinear_arith)
    requires
        b > 0,
        0 <= a,
        a < b * c,
    ensures
        a / b < c,
{
}

/// More coverage never darkens less: the multiplier is non-increasing.
pub proof fn lemma_half_mult_monotone(c1: nat, c2: nat)
    ensures
        c1 <= c2 ==> half_mult(c2) <= half_mult(c1),
    decreases c2,
{
    if c1 <= c2 && c2 > 0 && c1 < c2 {
        lemma_half_mult_monotone(c1, (c2 - 1) as nat);
        let prev = half_mult((c2 - 1) as nat);
        assert(prev * 65358 <= prev * 0x1_0000) by (nonlinear_arith)
            requires
                prev >= 0,
        ;
        lemma_div_is_ordered(prev * 65358 as int, prev * 0x1_0000 as int, 0x1_0000);
        assert(prev * 0x1_0000 / 0x1_0000 == prev);
    }
}

/// In the continuous model a full-coverage pass halves the remaining
/// brightness exactly, so a pixel that still has brightness keeps some after
/// every pass and yet strictly loses some: darkening approaches full dark
/// without ever reaching it.  Brightness is the rational `p / q`; the pass
/// leaves `p / (2 q)`, and `frac_lt` compares such fractions.
pub open spec fn frac_lt(n1: int, d1: int, n2: int, d2: int) -> bool {
    n1 * d2 < n2 * d1
}

/// After a full-coverage halving pass, the remaining brightness is strictly
/// positive and strictly below its prior value.
pub proof fn lemma_darken_asymptote(p: int, q: int)
    requires
        0 < p,
        0 < q,
    ensures
        frac_lt(0, 1, p, 2 * q),
        frac_lt(p, 2 * q, p, q),
{
    assert(0 * (2 * q) < p * 1) by (nonlinear_arith)
        requires
            0 < p,
            0 < q,
    ;
    assert(p * q < p * (2 * q)) by (nonlinear_arith)
        requires
            0 < p,
            0 < q,
    ;
}

/// A full table of the 256 coverage multipliers.
pub open spec fn half_table_wf(t: Seq<u32>) -> bool {
    &&& t.len() == 256
    &&& forall|i: int| 0 <= i < 256 ==> #[trigger] t[i] == half_mult(i as nat)
    &&& forall|i: int| 0 <= i < 256 ==> #[trigger] t[i] <= 0x1_0000
}

/// Builds the coverage-multiplier table once per run.
pub fn build_half_table() -> (t: Vec<u32>)
    ensures
        half_table_wf(t@),
{
    let mut t: Vec<u32> = Vec::new();
    t.push(0x1_0000);
    let mut c: usize = 1;
    while c < 256
        invariant
            1 <= c <= 256,
            t@.len() == c,
            forall|i: int| 0 <= i < c ==> #[trigger] t@[i] == half_mult(i as nat),
            forall|i: int| 0 <= i < c ==> #[trigger] t@[i] <= 0x1_0000,
        decreases 256 - c,
    {
        let prev: u32 = t[c - 1];
        let m: u32 = ((prev as u64) * 65358 / 0x1_0000) as u32;
        assert(m == half_mult(c as nat));
        t.push(m);
        c = c + 1;
    }
    t
}

/// One darkening pass on one pixel, through the multiplier table.
pub fn blend(old: u8, c: u8, half: &Vec<u32>) -> (r: u8)
    requires
        half_table_wf(half@),
    ensures
        r == blend_val(old, c),
{
    proof {
        crate::math::lemma_mul_le(old as int, half@[c as int] as int, 255, 0x1_0000);
        lemma_blend_no_brighter(old, c);
    }
    let m: u32 = half[c as usize];
    ((old as u64) * (m as u64) / 0x1_0000) as u8
}

/// Whether a pixel-space coordinate is comfortably within machine range:
/// the rasterization routines subtract raw coordinates, so admitting only
/// half the i32 range keeps every difference representable.
pub open spec fn draw_coord_ok(c: i32) -> bool {
    -0x3FFF_FFFF <= c <= 0x3FFF_FFFF
}

/// All points of a pixel-space path within the drawable range.
pub open spec fn draw_coords_bounded(pts: Seq<(i32, i32)>) -> bool {
    forall|i: int|
        0 <= i < pts.len() ==> draw_coord_ok((#[trigger] pts[i]).0) && draw_coord_ok(pts[i].1)
}

/// The antialiasing coverage, in 255ths, with which the segment from
/// `(x0, y0)` to `(x1, y1)` touches each pixel of a `w`-by-`h` grid, row
/// major; pixels the segment does not touch carry zero.
pub uninterp spec fn wu_coverage(w: u32, h: u32, x0: i32, y0: i32, x1: i32, y1: i32) -> Seq<u8>;

/// Relies on imageproc::drawing::draw_antialiased_line_segment_mut (Wu's
/// algorithm) and imageproc::pixelops::interpolate: drawing a full-white
/// segment onto a zeroed scratch image records, at every pixel the segment
/// touches, its antialiasing weight scaled to 0..=255; the call keeps the
/// image's dimensions.  The weights depend on the endpoints and grid alone.
/// The call subtracts raw endpoint coordinates, so endpoints near the i32
/// extremes are excluded.
#[verifier::external_body]
fn line_coverage(w: u32, h: u32, x0: i32, y0: i32, x1: i32, y1: i32) -> (r: Vec<u8>)
    requires
        draw_coord_ok(x0),
        draw_coord_ok(y0),
        draw_coord_ok(x1),
        draw_coord_ok(y1),
    ensures
        r@ == wu_coverage(w, h, x0, y0, x1, y1),
        r@.len() == w * h,
{
    let mut img = image::GrayImage::new(w, h);
    imageproc::drawing::draw_antialiased_line_segment_mut(
        &mut img,
        (x0, y0),
        (x1, y1),
        image::Luma([255u8]),
        imageproc::pixelops::interpolate,
    );
    img.into_raw()
}

/// The mask of the filled polygon with the given vertex path on a
/// `w`-by-`h` grid, row major: 255 on pixels inside, 0 outside.
pub uninterp spec fn polygon_fill(w: u32, h: u32, pts: Seq<(i32, i32)>) -> Seq<u8>;

/// Relies on imageproc::drawing::draw_polygon_mut: scanline-fills the
/// polygon of the given open path with full white onto a zeroed image of
/// the given dimensions.  The fill depends on the path and grid alone; the
/// call demands that a non-empty path not repeat its first point at the
/// end, and its scanline arithmetic subtracts raw vertex coordinates, so
/// vertices near the i32 extremes are excluded.  A zero-height grid is
/// excluded too: the call clamps its scan band to row zero even then and
/// writes to it whenever an edge crosses it, which a zero-height image
/// refuses; dimensions at or above 2^31 are excluded because the clamp
/// takes them through signed arithmetic.
#[verifier::external_body]
pub(crate) fn fill_polygon(w: u32, h: u32, pts: &Vec<(i32, i32)>) -> (r: Vec<u8>)
    requires
        pts@.len() > 0 ==> pts@[0] != pts@[pts@.len() - 1],
        draw_coords_bounded(pts@),
        1 <= h < 0x8000_0000,
        w < 0x8000_0000,
    ensures
        r@ == polygon_fill(w, h, pts@),
        r@.len() == w * h,
        forall|i: int| 0 <= i < r@.len() ==> r@[i] == 0 || r@[i] == 255,
{
    let mut img = image::GrayImage::new(w, h);
    let p: Vec<imageproc::point::Point<i32>> =
        pts.iter().map(|&(x, y)| imageproc::point::Point { x, y }).collect();
    imageproc::drawing::draw_polygon_mut(&mut img, &p, image::Luma([255u8]));
    img.into_raw()
}

/// Darkens the canvas along the antialiased segment between two points:
/// every pixel is blended with its coverage, all in one pass.
pub fn darken_by_thread(image: &mut GrayRaster, x0: i32, y0: i32, x1: i32, y1: i32, half: &Vec<u32>)
    requires
        old(image).wf(),
        half_table_wf(half@),
        draw_coord_ok(x0),
        draw_coord_ok(y0),
        draw_coord_ok(x1),
        draw_coord_ok(y1),
    ensures
        final(image).wf(),
        final(image).spec_width() == old(image).spec_width(),
        final(image).spec_height() == old(image).spec_height(),
        final(image).pixels().len() == old(image).pixels().len(),
        forall|i: int|
            0 <= i < old(image).pixels().len() ==> #[trigger] final(image).pixels()[i]
                == blend_val(
                old(image).pixels()[i],
                wu_coverage(
                    old(image).spec_width() as u32,
                    old(image).spec_height() as u32,
                    x0,
                    y0,
                    x1,
                    y1,
                )[i],
            ),
{
    let w: u32 = image.width();
    let h: u32 = image.height();
    let total: usize = image.len();
    let cov: Vec<u8> = line_coverage(w, h, x0, y0, x1, y1);
    let ghost orig = *image;
    let ghost covseq = cov@;
    let mut y: u32 = 0;
    while y < h
        invariant
            image.wf(),
            image.spec_width() == w,
            image.spec_height() == h,
            orig.wf(),
            orig.spec_width() == w,
            orig.spec_height() == h,
            half_table_wf(half@),
            cov@ == covseq,
            covseq.len() == w * h,
            total == w * h,
            y <= h,
            forall|i: int|
                0 <= i < y * w ==> #[trigger] image.pixels()[i] == blend_val(
                    orig.pixels()[i],
                    covseq[i],
                ),
            forall|i: int|
                y * w <= i < w * h ==> #[trigger] image.pixels()[i] == orig.pixels()[i],
        decreases h - y,
    {
        let mut x: u32 = 0;
        while x < w
            invariant
                image.wf(),
                image.spec_width() == w,
                image.spec_height() == h,
                orig.wf(),
                half_table_wf(half@),
                cov@ == covseq,
                covseq.len() == w * h,
                total == w * h,
                y < h,
                x <= w,
                forall|i: int|
                    0 <= i < y * w + x ==> #[trigger] image.pixels()[i] == blend_val(
                        orig.pixels()[i],
                        covseq[i],
                    ),
                forall|i: int|
                    y * w + x <= i < w * h ==> #[trigger] image.pixels()[i] == orig.pixels()[i],
            decreases w - x,
        {
            proof {
                lemma_row_major(x as int, y as int, w as int, h as int);
            }
            let n: usize = (y as usize) * (w as usize) + (x as usize);
            let old_px: u8 = image.get_pixel(x, y);
            let c: u8 = cov[n];
            let v: u8 = blend(old_px, c, half);
            image.set_pixel(x, y, v);
            x = x + 1;
        }
        proof {
            assert((y + 1) * w == y * w + w) by (nonlinear_arith);
        }
        y = y + 1;
    }
    proof {
        assert(h * w == w * h) by (nonlinear_arith);
    }
}

} // verus!
