//! The greedy path planner.
//!
//! Starting from pin zero, the planner repeatedly scores every legal segment
//! out of the current pin on a throwaway copy of the canvas, keeps only the
//! strictly improving ones, and picks among them with a randomized tie-break
//! that balances raw error reduction against pin-visitation fairness.  It
//! stops when the length budget is covered, when no move improves, or when
//! the iteration cap runs out.
use vstd::prelude::*;

use crate::canvas::{
    blend_val,
    darken_by_thread,
    draw_coord_ok,
    draw_coords_bounded,
    fill_polygon,
    half_table_wf,
    polygon_fill,
    wu_coverage,
    build_half_table,
};
use crate::raster::GrayRaster;
use crate::rng::{rng_output, rng_step, seed_state, Xoshiro128Plus};
use crate::score::{spec_darkness, spec_score, image_background, score_img_to_target};
use crate::transfer::{build_linear_table, lin_table_wf};
use crate::types::{BreakReason, LineClass, Lines, Polygon, PolygonPoint, Sequence};

verus! {

/// A fixed-point power at scale 2^32: `n` successive multiplications by
/// `u / 2^32`, each floored.
pub open spec fn pow_frac(u: u32, n: nat) -> nat
    decreases n,
{
    if n == 0 {
        0x1_0000_0000
    } else {
        ((pow_frac(u, (n - 1) as nat) * u) / 0x1_0000_0000) as nat
    }
}

/// The power never exceeds one (scale 2^32).
pub proof fn lemma_pow_frac_le(u: u32, n: nat)
    ensures
        pow_frac(u, n) <= 0x1_0000_0000,
    decreases n,
{
    if n > 0 {
        lemma_pow_frac_le(u, (n - 1) as nat);
        let p = pow_frac(u, (n - 1) as nat);
        assert(p * u <= 0x1_0000_0000 * 0xFFFF_FFFF) by (nonlinear_arith)
            requires
                0 <= p <= 0x1_0000_0000,
                u <= 0xFFFF_FFFF,
        ;
        vstd::arithmetic::div_mod::lemma_div_is_ordered(
            p * u as int,
            0x1_0000_0000 * 0xFFFF_FFFF as int,
            0x1_0000_0000,
        );
    }
}

/// Once the power underflows to zero it stays zero.
pub proof fn lemma_pow_frac_zero(u: u32, i: nat, n: nat)
    requires
        i <= n,
        pow_frac(u, i) == 0,
    ensures
        pow_frac(u, n) == 0,
    decreases n - i,
{
    if i < n {
        assert(pow_frac(u, i + 1) == (pow_frac(u, i) * u) / 0x1_0000_0000);
        lemma_pow_frac_zero(u, i + 1, n);
    }
}

/// The random tie-break weight of a candidate: for the uniform draw
/// `u / 2^32`, the fixed-point value of `u` raised to the power `k / u`,
/// where `k` is 1 for a favored candidate and 4 for a discouraged one.  The
/// steeper exponent makes discouraged candidates win ties far less often
/// without forbidding them.  A zero draw weighs nothing.
pub open spec fn tie_weight_spec(u: u32, discouraged: bool) -> nat {
    if u == 0 {
        0
    } else {
        let k: nat = if discouraged {
            4
        } else {
            1
        };
        pow_frac(u, ((k * 0x1_0000_0000) / (u as nat)) as nat)
    }
}

/// Computes the tie-break weight of one candidate from one random draw.
pub fn tie_weight(u: u32, discouraged: bool) -> (r: u64)
    ensures
        r == tie_weight_spec(u, discouraged),
        r <= 0x1_0000_0000,
{
    if u == 0 {
        return 0;
    }
    let k: u64 = if discouraged {
        4
    } else {
        1
    };
    let n: u64 = (k * 0x1_0000_0000) / (u as u64);
    let mut acc: u64 = 0x1_0000_0000;
    let mut i: u64 = 0;
    while i < n && acc > 0
        invariant
            i <= n,
            u > 0,
            acc == pow_frac(u, i as nat),
            acc <= 0x1_0000_0000,
        decreases n - i,
    {
        proof {
            crate::math::lemma_mul_le(acc as int, u as int, 0x1_0000_0000, 0xFFFF_FFFF);
        }
        acc = (acc * (u as u64)) / 0x1_0000_0000;
        proof {
            assert(acc == pow_frac(u, (i + 1) as nat)) by {
                assert(pow_frac(u, (i + 1) as nat) == (pow_frac(u, i as nat) * u)
                    / 0x1_0000_0000);
            }
            lemma_pow_frac_le(u, (i + 1) as nat);
        }
        i = i + 1;
    }
    proof {
        if acc == 0 && i < n {
            lemma_pow_frac_zero(u, i as nat, n as nat);
        }
        assert(n == (if discouraged { 4nat } else { 1nat } * 0x1_0000_0000) / (u as nat));
    }
    acc
}

/// The canvas after one darkening pass along the segment between the scaled
/// points of pins `a` and `b`.
pub open spec fn darkened(
    done: Seq<u8>,
    w: u32,
    h: u32,
    pts: Seq<(i32, i32)>,
    a: int,
    b: int,
) -> Seq<u8> {
    Seq::new(
        done.len(),
        |i: int|
            blend_val(
                done[i],
                wu_coverage(w, h, pts[a].0, pts[a].1, pts[b].0, pts[b].1)[i],
            ) as u8,
    )
}

/// The fixed inputs of one planning run, as mathematical values: the window
/// mask, the target raster, the scaled pin positions, the raster dimensions,
/// the candidate graph (targets, weights, per-pin ranges) and the channel
/// class.
#[verifier::ext_equal]
pub struct PlanCtx {
    pub mask: Seq<u8>,
    pub target: Seq<u8>,
    pub pts: Seq<(i32, i32)>,
    pub w: u32,
    pub h: u32,
    pub idx: Seq<int>,
    pub wts: Seq<int>,
    pub ranges: Seq<(int, int)>,
    pub cof: int,
    pub cidx: int,
}

/// The run context of the given rasters, scaled points, graph and class.
pub open spec fn ctx_of(
    mask: GrayRaster,
    target: GrayRaster,
    pts: Seq<(i32, i32)>,
    l: Lines,
    cof: int,
    cidx: int,
) -> PlanCtx {
    PlanCtx {
        mask: mask.pixels(),
        target: target.pixels(),
        pts: pts,
        w: mask.spec_width() as u32,
        h: mask.spec_height() as u32,
        idx: Seq::new(l.idx_vec@.len(), |j: int| l.idx_vec@[j].0 as int),
        wts: Seq::new(l.weight_vec@.len(), |j: int| l.weight_vec@[j] as int),
        ranges: Seq::new(
            l.ranges@.len(),
            |j: int| (l.ranges@[j].0 as int, l.ranges@[j].1 as int),
        ),
        cof: cof,
        cidx: cidx,
    }
}

/// The error of the current canvas against the target.
pub open spec fn pre_score_of(ctx: PlanCtx, done: Seq<u8>) -> int {
    spec_score(ctx.mask, ctx.target, done, ctx.w as int, ctx.h as int)
}

/// The error of the canvas after speculatively drawing the segment from pin
/// `src` to pin `t`.
pub open spec fn cand_score_of(ctx: PlanCtx, done: Seq<u8>, src: int, t: int) -> int {
    spec_score(
        ctx.mask,
        ctx.target,
        darkened(done, ctx.w, ctx.h, ctx.pts, src, t),
        ctx.w as int,
        ctx.h as int,
    )
}

/// The scan over the first `n` candidates of the current pin: the strictly
/// improving ones, each as (relative index, improvement, tie-break weight),
/// with one random draw consumed per improving candidate, and the state of
/// the generator after the scan.
pub open spec fn bf_scan(
    ctx: PlanCtx,
    done: Seq<u8>,
    src: int,
    rng: Xoshiro128Plus,
    n: int,
) -> (Seq<(int, int, int)>, Xoshiro128Plus)
    decreases n,
{
    if n <= 0 {
        (Seq::empty(), rng)
    } else {
        let pr = bf_scan(ctx, done, src, rng, n - 1);
        let j = n - 1;
        let t = ctx.idx[ctx.ranges[src].0 + j];
        let sc = cand_score_of(ctx, done, src, t);
        let pre = pre_score_of(ctx, done);
        if sc < pre {
            let u = rng_output(pr.1);
            let disc = ((src + t) % ctx.cof) != ctx.cidx;
            (pr.0.push((j, pre - sc, tie_weight_spec(u, disc) as int)), rng_step(pr.1))
        } else {
            pr
        }
    }
}

/// The primary pick among the first `n` improving candidates: the one with
/// the greatest improvement; on ties the later one.
pub open spec fn pick_primary(s: Seq<(int, int, int)>, n: int) -> int
    decreases n,
{
    if n <= 1 {
        0
    } else {
        let p = pick_primary(s, n - 1);
        if s[n - 1].1 >= s[p].1 {
            n - 1
        } else {
            p
        }
    }
}

/// The secondary pick among the first `n` improving candidates: among those
/// other than the primary whose target pin has strictly fewer hits than the
/// primary's target, the one with the greatest tie-break weight; on ties the
/// later one; -1 if none qualifies.
pub open spec fn pick_secondary(
    ctx: PlanCtx,
    s: Seq<(int, int, int)>,
    src: int,
    hits: Seq<u32>,
    prim: int,
    n: int,
) -> int
    decreases n,
{
    if n <= 0 {
        -1
    } else {
        let p = pick_secondary(ctx, s, src, hits, prim, n - 1);
        let i = n - 1;
        let ti = ctx.idx[ctx.ranges[src].0 + s[i].0];
        let tp = ctx.idx[ctx.ranges[src].0 + s[prim].0];
        if i != prim && hits[ti] < hits[tp] && (p == -1 || s[i].2 >= s[p].2) {
            i
        } else {
            p
        }
    }
}

/// The best-fit selection: the primary pick, unless a secondary pick exists
/// and its random weight is at least the primary's, in which case fairness
/// wins and the secondary is chosen.  Yields the chosen candidate's relative
/// index, or nothing when no candidate improves, and the generator's state
/// after the scan.
pub open spec fn spec_best_fit(
    ctx: PlanCtx,
    done: Seq<u8>,
    src: int,
    rng: Xoshiro128Plus,
    hits: Seq<u32>,
) -> (Option<int>, Xoshiro128Plus) {
    let nc = ctx.ranges[src].1 - ctx.ranges[src].0;
    let sr = bf_scan(ctx, done, src, rng, nc);
    if sr.0.len() == 0 {
        (None, sr.1)
    } else {
        let prim = pick_primary(sr.0, sr.0.len() as int);
        let sec = pick_secondary(ctx, sr.0, src, hits, prim, sr.0.len() as int);
        if sec == -1 || sr.0[prim].2 > sr.0[sec].2 {
            (Some(sr.0[prim].0), sr.1)
        } else {
            (Some(sr.0[sec].0), sr.1)
        }
    }
}

/// Every scanned entry indexes a real candidate, improves strictly, and
/// carries a non-negative weight.
pub proof fn lemma_bf_scan_entries(
    ctx: PlanCtx,
    done: Seq<u8>,
    src: int,
    rng: Xoshiro128Plus,
    n: int,
)
    ensures
        bf_scan(ctx, done, src, rng, n).0.len() <= (if n >= 0 { n } else { 0 }),
        forall|i: int|
            0 <= i < bf_scan(ctx, done, src, rng, n).0.len() ==> {
                let e = #[trigger] bf_scan(ctx, done, src, rng, n).0[i];
                &&& 0 <= e.0 < n
                &&& e.1 > 0
                &&& e.2 >= 0
            },
    decreases n,
{
    if n > 0 {
        lemma_bf_scan_entries(ctx, done, src, rng, n - 1);
    }
}

/// The scan finds nothing exactly when no candidate strictly improves.
pub proof fn lemma_bf_scan_none(
    ctx: PlanCtx,
    done: Seq<u8>,
    src: int,
    rng: Xoshiro128Plus,
    n: int,
)
    ensures
        (bf_scan(ctx, done, src, rng, n).0.len() == 0) <==> (forall|j: int|
            0 <= j < n ==> cand_score_of(
                ctx,
                done,
                src,
                #[trigger] ctx.idx[ctx.ranges[src].0 + j],
            ) >= pre_score_of(ctx, done)),
    decreases n,
{
    if n > 0 {
        lemma_bf_scan_none(ctx, done, src, rng, n - 1);
    }
}

/// The primary pick indexes a scanned entry.
pub proof fn lemma_pick_primary_range(s: Seq<(int, int, int)>, n: int)
    requires
        n >= 1,
    ensures
        0 <= pick_primary(s, n) < n,
    decreases n,
{
    if n > 1 {
        lemma_pick_primary_range(s, n - 1);
    }
}

/// The secondary pick is -1 or indexes a scanned entry other than the
/// primary.
pub proof fn lemma_pick_secondary_range(
    ctx: PlanCtx,
    s: Seq<(int, int, int)>,
    src: int,
    hits: Seq<u32>,
    prim: int,
    n: int,
)
    ensures
        pick_secondary(ctx, s, src, hits, prim, n) == -1 || (0 <= pick_secondary(
            ctx,
            s,
            src,
            hits,
            prim,
            n,
        ) < n && pick_secondary(ctx, s, src, hits, prim, n) != prim),
    decreases n,
{
    if n > 0 {
        lemma_pick_secondary_range(ctx, s, src, hits, prim, n - 1);
    }
}

/// Whether the candidate range of pin `source` is well formed against the
/// point count and the hit table: the range lies within the graph and every
/// target in it names a valid pin.
pub open spec fn range_wf(l: Lines, source: int, npts: int, nhits: int) -> bool {
    &&& 0 <= source < l.ranges@.len()
    &&& l.ranges@[source].0 <= l.ranges@[source].1 <= l.idx_vec@.len()
    &&& l.idx_vec@.len() == l.weight_vec@.len()
    &&& forall|j: int|
        l.ranges@[source].0 <= j < l.ranges@[source].1 ==> (#[trigger] l.idx_vec@[j]).0 < npts
            && l.idx_vec@[j].0 < nhits
}

/// Determines the best next segment out of `source`: scores every candidate
/// on a throwaway copy of the canvas, keeps the strictly improving ones, and
/// applies the randomized two-stage selection rule.  Returns the chosen
/// candidate's index within the pin's range, or nothing when no move
/// improves the score.
pub fn best_fit(
    mask: &GrayRaster,
    target: &GrayRaster,
    draw_points: &Vec<(i32, i32)>,
    source: PolygonPoint,
    lines: &Lines,
    done: &GrayRaster,
    class: &LineClass,
    rng: &mut Xoshiro128Plus,
    hit_count: &Vec<u32>,
    lin: &Vec<u32>,
    half: &Vec<u32>,
) -> (r: Option<usize>)
    requires
        mask.wf(),
        target.wf(),
        done.wf(),
        mask.spec_width() == target.spec_width(),
        mask.spec_height() == target.spec_height(),
        done.spec_width() == target.spec_width(),
        done.spec_height() == target.spec_height(),
        mask.spec_width() <= 0x1_0000_0000,
        mask.spec_height() <= 0x1_0000_0000,
        lin_table_wf(lin@),
        half_table_wf(half@),
        range_wf(*lines, source.0 as int, draw_points@.len() as int, hit_count@.len() as int),
        source.0 < draw_points@.len(),
        draw_points@.len() <= 0x1_0000,
        draw_coords_bounded(draw_points@),
        class.of > 0,
    ensures
        ({
            let ctx = ctx_of(
                *mask,
                *target,
                draw_points@,
                *lines,
                class.of as int,
                class.idx as int,
            );
            let res = spec_best_fit(ctx, done.pixels(), source.0 as int, *old(rng), hit_count@);
            let nc = ctx.ranges[source.0 as int].1 - ctx.ranges[source.0 as int].0;
            &&& *final(rng) == res.1
            &&& (r is None <==> res.0 is None)
            &&& (r is Some ==> res.0 == Some(r->Some_0 as int) && r->Some_0 < nc)
            &&& (r is None <==> (forall|j: int|
                0 <= j < nc ==> cand_score_of(
                    ctx,
                    done.pixels(),
                    source.0 as int,
                    #[trigger] ctx.idx[ctx.ranges[source.0 as int].0 + j],
                ) >= pre_score_of(ctx, done.pixels())))
        }),
{
    let ghost ctx = ctx_of(*mask, *target, draw_points@, *lines, class.of as int, class.idx as int);
    let ghost dview = done.pixels();
    let ghost src = source.0 as int;
    let ghost rng0 = *rng;
    let pre: u128 = score_img_to_target(mask, target, done, lin);
    let rg = lines.ranges[source.0];
    let start: usize = rg.0;
    let end: usize = rg.1;
    let nc: usize = end - start;
    proof {
        assert(ctx.ranges[src] == (start as int, end as int));
        assert(pre == pre_score_of(ctx, dview));
    }
    let mut scores: Vec<(usize, u128, u64)> = Vec::new();
    let mut j: usize = 0;
    while j < nc
        invariant
            j <= nc,
            nc == end - start,
            start <= end,
            mask.wf(),
            target.wf(),
            done.wf(),
            mask.spec_width() == target.spec_width(),
            mask.spec_height() == target.spec_height(),
            done.spec_width() == target.spec_width(),
            done.spec_height() == target.spec_height(),
            mask.spec_width() <= 0x1_0000_0000,
            mask.spec_height() <= 0x1_0000_0000,
            lin_table_wf(lin@),
            half_table_wf(half@),
            range_wf(*lines, src, draw_points@.len() as int, hit_count@.len() as int),
            source.0 < draw_points@.len(),
            draw_points@.len() <= 0x1_0000,
            draw_coords_bounded(draw_points@),
            class.of > 0,
            src == source.0 as int,
            dview == done.pixels(),
            ctx == ctx_of(*mask, *target, draw_points@, *lines, class.of as int, class.idx as int),
            ctx.ranges[src] == (start as int, end as int),
            pre == pre_score_of(ctx, dview),
            *rng == bf_scan(ctx, dview, src, rng0, j as int).1,
            scores@.len() == bf_scan(ctx, dview, src, rng0, j as int).0.len(),
            forall|i: int|
                0 <= i < scores@.len() ==> ((#[trigger] scores@[i]).0 as int, scores@[i].1 as int,
                scores@[i].2 as int) == bf_scan(ctx, dview, src, rng0, j as int).0[i],
            forall|i: int| 0 <= i < scores@.len() ==> (#[trigger] scores@[i]).0 < j,
        decreases nc - j,
    {
        let t: usize = lines.idx_vec[start + j].0;
        proof {
            assert(ctx.idx[start + j] == t as int);
        }
        let mut conjecture = done.duplicate();
        let p_src = draw_points[source.0];
        let p_tgt = draw_points[t];
        darken_by_thread(&mut conjecture, p_src.0, p_src.1, p_tgt.0, p_tgt.1, half);
        proof {
            assert(conjecture.pixels() =~= darkened(dview, ctx.w, ctx.h, ctx.pts, src, t as int));
        }
        let sc: u128 = score_img_to_target(mask, target, &conjecture, lin);
        proof {
            assert(sc == cand_score_of(ctx, dview, src, t as int));
        }
        if sc < pre {
            let u: u32 = rng.next_u32();
            let discouraged: bool = ((source.0 + t) % class.of) != class.idx;
            proof {
                assert((source.0 + t) % (class.of as int) == (src + t as int) % ctx.cof);
            }
            let wgt: u64 = tie_weight(u, discouraged);
            scores.push((j, pre - sc, wgt));
        }
        proof {
            let srj = bf_scan(ctx, dview, src, rng0, j as int);
            let srj1 = bf_scan(ctx, dview, src, rng0, j as int + 1);
            assert(srj1 == ({
                let tt = ctx.idx[ctx.ranges[src].0 + j];
                let scc = cand_score_of(ctx, dview, src, tt);
                let prr = pre_score_of(ctx, dview);
                if scc < prr {
                    (
                        srj.0.push(
                            (
                                j as int,
                                prr - scc,
                                tie_weight_spec(rng_output(srj.1), ((src + tt) % ctx.cof) != ctx.cidx) as int,
                            ),
                        ),
                        rng_step(srj.1),
                    )
                } else {
                    srj
                }
            }));
        }
        j = j + 1;
    }
    let ghost sr = bf_scan(ctx, dview, src, rng0, nc as int);
    proof {
        lemma_bf_scan_entries(ctx, dview, src, rng0, nc as int);
        lemma_bf_scan_none(ctx, dview, src, rng0, nc as int);
    }
    if scores.len() == 0 {
        return None;
    }
    let n: usize = scores.len();
    let mut prim: usize = 0;
    let mut i: usize = 1;
    while i < n
        invariant
            1 <= i <= n,
            n == scores@.len(),
            n == sr.0.len(),
            forall|ii: int|
                0 <= ii < scores@.len() ==> ((#[trigger] scores@[ii]).0 as int,
                scores@[ii].1 as int, scores@[ii].2 as int) == sr.0[ii],
            prim < i,
            prim == pick_primary(sr.0, i as int),
        decreases n - i,
    {
        if scores[i].1 >= scores[prim].1 {
            prim = i;
        }
        i = i + 1;
    }
    proof {
        lemma_pick_primary_range(sr.0, n as int);
    }
    let mut sec: Option<usize> = None;
    let mut i2: usize = 0;
    while i2 < n
        invariant
            i2 <= n,
            n == scores@.len(),
            n == sr.0.len(),
            forall|ii: int|
                0 <= ii < scores@.len() ==> ((#[trigger] scores@[ii]).0 as int,
                scores@[ii].1 as int, scores@[ii].2 as int) == sr.0[ii],
            forall|ii: int| 0 <= ii < scores@.len() ==> (#[trigger] scores@[ii]).0 < nc,
            prim < n,
            prim == pick_primary(sr.0, n as int),
            range_wf(*lines, src, draw_points@.len() as int, hit_count@.len() as int),
            ctx == ctx_of(*mask, *target, draw_points@, *lines, class.of as int, class.idx as int),
            ctx.ranges[src] == (start as int, end as int),
            nc == end - start,
            start <= end,
            src == source.0 as int,
            ({
                let p = pick_secondary(ctx, sr.0, src, hit_count@, prim as int, i2 as int);
                (sec is None && p == -1) || (sec is Some && p == sec->Some_0 && p < n)
            }),
        decreases n - i2,
    {
        let et: usize = scores[i2].0;
        let ep: usize = scores[prim].0;
        let ti: usize = lines.idx_vec[start + et].0;
        let tp: usize = lines.idx_vec[start + ep].0;
        proof {
            assert(ctx.idx[ctx.ranges[src].0 + sr.0[i2 as int].0] == ti as int);
            assert(ctx.idx[ctx.ranges[src].0 + sr.0[prim as int].0] == tp as int);
        }
        let qualifies: bool = i2 != prim && hit_count[ti] < hit_count[tp] && (match sec {
            Option::None => true,
            Option::Some(sv) => scores[i2].2 >= scores[sv].2,
        });
        if qualifies {
            sec = Some(i2);
        }
        i2 = i2 + 1;
    }
    match sec {
        Option::None => Some(scores[prim].0),
        Option::Some(sv) => {
            if scores[prim].2 > scores[sv].2 {
                Some(scores[prim].0)
            } else {
                Some(scores[sv].0)
            }
        },
    }
}

/// Truncating division by a positive divisor, as machine division rounds.
pub open spec fn tdiv(a: int, b: int) -> int {
    if a >= 0 {
        a / b
    } else {
        -((-a) / b)
    }
}

/// One normalized coordinate scaled into pixel space: half the coordinate
/// plus half a unit, times the pixel dimension, truncated.
pub open spec fn scale_coord(c: i64, d: u32) -> int {
    tdiv((c + 0x1_0000) * d, 0x2_0000)
}

/// All pin positions scaled into pixel space.
pub open spec fn scaled_pts(pts: Seq<(i64, i64)>, w: u32, h: u32) -> Seq<(i32, i32)> {
    Seq::new(
        pts.len(),
        |i: int| (scale_coord(pts[i].0, w) as i32, scale_coord(pts[i].1, h) as i32),
    )
}

/// The bounding box folds over the first `n` scaled points, as the
/// planner's setup computes them: maxima fold in zero, minima start at the
/// largest machine value.
pub open spec fn bb_max_x(dp: Seq<(i32, i32)>, n: int) -> int
    decreases n,
{
    if n <= 0 {
        0
    } else {
        let p = bb_max_x(dp, n - 1);
        if dp[n - 1].0 > p {
            dp[n - 1].0 as int
        } else {
            p
        }
    }
}

/// See `bb_max_x`.
pub open spec fn bb_max_y(dp: Seq<(i32, i32)>, n: int) -> int
    decreases n,
{
    if n <= 0 {
        0
    } else {
        let p = bb_max_y(dp, n - 1);
        if dp[n - 1].1 > p {
            dp[n - 1].1 as int
        } else {
            p
        }
    }
}

/// See `bb_max_x`.
pub open spec fn bb_min_x(dp: Seq<(i32, i32)>, n: int) -> int
    decreases n,
{
    if n <= 0 {
        0x7FFF_FFFF
    } else {
        let p = bb_min_x(dp, n - 1);
        if dp[n - 1].0 < p {
            dp[n - 1].0 as int
        } else {
            p
        }
    }
}

/// See `bb_max_x`.
pub open spec fn bb_min_y(dp: Seq<(i32, i32)>, n: int) -> int
    decreases n,
{
    if n <= 0 {
        0x7FFF_FFFF
    } else {
        let p = bb_min_y(dp, n - 1);
        if dp[n - 1].1 < p {
            dp[n - 1].1 as int
        } else {
            p
        }
    }
}

/// The crop of a raster: the `bw`-by-`bh` window at `(x0, y0)`, row major.
pub open spec fn crop_seq(img: Seq<u8>, iw: int, x0: int, y0: int, bw: int, bh: int) -> Seq<u8> {
    Seq::new((bw * bh) as nat, |i: int| img[(y0 + i / bw) * iw + (x0 + i % bw)])
}

/// Whether the window's scaled bounding box lies inside the raster.
pub open spec fn bbox_in(image: GrayRaster, dp: Seq<(i32, i32)>) -> bool {
    let n = dp.len() as int;
    &&& bb_min_x(dp, n) >= 0
    &&& bb_min_y(dp, n) >= 0
    &&& bb_max_x(dp, n) <= image.spec_width()
    &&& bb_max_y(dp, n) <= image.spec_height()
}

/// Whether the window collapses in pixel space: its first and last pins
/// land on the same pixel (the polygon rasterization refuses such a path),
/// or all pins share one row (the bounding box has no height to rasterize).
pub open spec fn window_degenerate(image: GrayRaster, pts: Seq<(i64, i64)>) -> bool {
    let dp = scaled_pts(pts, image.spec_width() as u32, image.spec_height() as u32);
    let n = dp.len() as int;
    dp[0] == dp[n - 1] || bb_max_y(dp, n) == bb_min_y(dp, n)
}

/// The scaled pin positions shifted into the bounding box's frame.
pub open spec fn shifted_pts(dp: Seq<(i32, i32)>) -> Seq<(i32, i32)> {
    let n = dp.len() as int;
    let mnx = bb_min_x(dp, n);
    let mny = bb_min_y(dp, n);
    Seq::new(dp.len(), |i: int| ((dp[i].0 - mnx) as i32, (dp[i].1 - mny) as i32))
}

/// The run context a plan call derives from its inputs: the polygon mask
/// and target crop over the window's bounding box, the shifted points, and
/// the candidate graph.
pub open spec fn spec_plan_ctx(
    image: GrayRaster,
    pts: Seq<(i64, i64)>,
    l: Lines,
    cof: int,
    cidx: int,
) -> PlanCtx {
    let dp = scaled_pts(pts, image.spec_width() as u32, image.spec_height() as u32);
    let n = dp.len() as int;
    let mnx = bb_min_x(dp, n);
    let mny = bb_min_y(dp, n);
    let bw = bb_max_x(dp, n) - mnx;
    let bh = bb_max_y(dp, n) - mny;
    let sdp = shifted_pts(dp);
    PlanCtx {
        mask: polygon_fill(bw as u32, bh as u32, sdp),
        target: crop_seq(image.pixels(), image.spec_width(), mnx, mny, bw, bh),
        pts: sdp,
        w: bw as u32,
        h: bh as u32,
        idx: Seq::new(l.idx_vec@.len(), |j: int| l.idx_vec@[j].0 as int),
        wts: Seq::new(l.weight_vec@.len(), |j: int| l.weight_vec@[j] as int),
        ranges: Seq::new(
            l.ranges@.len(),
            |j: int| (l.ranges@[j].0 as int, l.ranges@[j].1 as int),
        ),
        cof: cof,
        cidx: cidx,
    }
}

/// The run's required-darkness budget.
pub open spec fn spec_ctx_darkness(ctx: PlanCtx) -> int {
    spec_darkness(ctx.mask, ctx.target)
}

/// The full state of a run between iterations.
#[verifier::ext_equal]
pub struct PlanState {
    pub done: Seq<u8>,
    pub current: int,
    pub seq: Seq<int>,
    pub yarn: int,
    pub rng: Xoshiro128Plus,
    pub hits: Seq<u32>,
    pub stopped: Option<BreakReason>,
}

/// The state a run starts from: at pin zero, with the canvas lit like the
/// mask, nothing spent, all hit counts zero, and the generator seeded from
/// the darkness budget.
pub open spec fn plan_init(ctx: PlanCtx, darkness: u64) -> PlanState {
    PlanState {
        done: ctx.mask,
        current: 0,
        seq: seq![0int],
        yarn: 0,
        rng: seed_state(darkness),
        hits: Seq::new(ctx.ranges.len(), |i: int| 0u32),
        stopped: None,
    }
}

/// One iteration of the planner: a stopped run stays stopped; a covered
/// budget stops the run as Covered; a scan with no improving candidate
/// stops it as LocalOptimum; otherwise the chosen segment is committed.
pub open spec fn plan_step(ctx: PlanCtx, darkness: u64, s: PlanState) -> PlanState {
    if s.stopped is Some {
        s
    } else if s.yarn * 16 >= darkness {
        PlanState {
            done: s.done,
            current: s.current,
            seq: s.seq,
            yarn: s.yarn,
            rng: s.rng,
            hits: s.hits,
            stopped: Some(BreakReason::Covered),
        }
    } else {
        let bf = spec_best_fit(ctx, s.done, s.current, s.rng, s.hits);
        if bf.0 is None {
            PlanState {
                done: s.done,
                current: s.current,
                seq: s.seq,
                yarn: s.yarn,
                rng: bf.1,
                hits: s.hits,
                stopped: Some(BreakReason::LocalOptimum),
            }
        } else {
            let rel = bf.0->Some_0;
            let t = ctx.idx[ctx.ranges[s.current].0 + rel];
            let wt = ctx.wts[ctx.ranges[s.current].0 + rel];
            PlanState {
                done: darkened(s.done, ctx.w, ctx.h, ctx.pts, s.current, t),
                current: t,
                seq: s.seq.push(t),
                yarn: s.yarn + wt,
                rng: bf.1,
                hits: s.hits.update(t, (s.hits[t] + 1) as u32),
                stopped: None,
            }
        }
    }
}

/// The state after `n` iterations.
pub open spec fn iterate(ctx: PlanCtx, darkness: u64, s: PlanState, n: nat) -> PlanState
    decreases n,
{
    if n == 0 {
        s
    } else {
        plan_step(ctx, darkness, iterate(ctx, darkness, s, (n - 1) as nat))
    }
}

/// The state a run reaches from its start under the iteration cap.
pub open spec fn spec_plan_run(ctx: PlanCtx, darkness: u64, cap: u32) -> PlanState {
    iterate(ctx, darkness, plan_init(ctx, darkness), cap as nat)
}

/// A stopped run does not move again.
pub proof fn lemma_iterate_sticky(ctx: PlanCtx, darkness: u64, s: PlanState, n1: nat, n2: nat)
    requires
        n1 <= n2,
        iterate(ctx, darkness, s, n1).stopped is Some,
    ensures
        iterate(ctx, darkness, s, n2) == iterate(ctx, darkness, s, n1),
    decreases n2 - n1,
{
    if n1 < n2 {
        lemma_iterate_sticky(ctx, darkness, s, n1, (n2 - 1) as nat);
    }
}

/// Why a plan call fails: the window cannot host any legal line, or its
/// bounding box leaves the raster.
#[derive(Clone, Copy, Debug, PartialEq, Eq, Structural)]
pub enum PlanError {
    TooFewPoints,
    RasterBounds,
    DegenerateWindow,
}

/// The candidate graph is well formed for a window of `npins` pins: one
/// range per pin, each range within the arrays, and every target a pin.
pub open spec fn graph_wf(l: Lines, npins: int) -> bool {
    &&& l.ranges@.len() == npins
    &&& l.idx_vec@.len() == l.weight_vec@.len()
    &&& forall|o: int|
        0 <= o < npins ==> (#[trigger] l.ranges@[o]).0 <= l.ranges@[o].1 <= l.idx_vec@.len()
    &&& forall|j: int| 0 <= j < l.idx_vec@.len() ==> (#[trigger] l.idx_vec@[j]).0 < npins
    &&& forall|j: int| 0 <= j < l.weight_vec@.len() ==> #[trigger] l.weight_vec@[j] < 0x200_0000
}

/// Scales one normalized coordinate into pixel space.
fn scale_px(c: i64, d: u32) -> (r: i32)
    requires
        -0x10_0000 <= c <= 0x10_0000,
        d <= 0x1_0000,
    ensures
        r == scale_coord(c, d),
{
    proof {
        crate::math::lemma_mul_bounds_signed(c + 0x1_0000, d as int, 0x11_0000, 0x1_0000);
    }
    let num: i64 = (c + 0x1_0000) * (d as i64);
    if num >= 0 {
        (num / 0x2_0000) as i32
    } else {
        (-((-num) / 0x2_0000)) as i32
    }
}

/// Plans the thread sequence of one (window, channel) run: crops the target
/// to the window's bounding box, rasterizes the window mask, estimates the
/// darkness budget, and greedily commits best-fit segments until the budget
/// is covered, no move improves, or the iteration cap runs out.  The whole
/// run is a function of its inputs: the returned sequence is exactly the
/// state that `spec_plan_run` reaches.
pub fn plan(image: &GrayRaster, poly: &Polygon, lines: &Lines, class: &LineClass) -> (r: Result<
    Sequence,
    PlanError,
>)
    requires
        image.wf(),
        image.spec_width() <= 0x1_0000,
        image.spec_height() <= 0x1_0000,
        poly.points@.len() <= 0x1_0000,
        forall|i: int|
            0 <= i < poly.points@.len() ==> -0x10_0000 <= (#[trigger] poly.points@[i]).0
                <= 0x10_0000 && -0x10_0000 <= poly.points@[i].1 <= 0x10_0000,
        graph_wf(*lines, poly.points@.len() as int),
        class.of > 0,
    ensures
        (poly.points@.len() < 4) <==> (r == Err::<Sequence, PlanError>(PlanError::TooFewPoints)),
        (poly.points@.len() >= 4 && !bbox_in(
            *image,
            scaled_pts(poly.points@, image.spec_width() as u32, image.spec_height() as u32),
        )) <==> (r == Err::<Sequence, PlanError>(PlanError::RasterBounds)),
        (poly.points@.len() >= 4 && bbox_in(
            *image,
            scaled_pts(poly.points@, image.spec_width() as u32, image.spec_height() as u32),
        ) && window_degenerate(*image, poly.points@)) <==> (r == Err::<
            Sequence,
            PlanError,
        >(PlanError::DegenerateWindow)),
        r is Ok ==> ({
            let ctx = spec_plan_ctx(
                *image,
                poly.points@,
                *lines,
                class.of as int,
                class.idx as int,
            );
            let darkness = spec_ctx_darkness(ctx);
            let m = spec_plan_run(ctx, darkness as u64, poly.iter_limit);
            let out = r->Ok_0;
            &&& 0 <= darkness
            &&& ctx.mask.len() == ctx.w * ctx.h
            &&& ctx.target.len() == ctx.w * ctx.h
            &&& out.yarn_length == m.yarn
            &&& out.sequence@.len() == m.seq.len()
            &&& forall|i: int|
                0 <= i < out.sequence@.len() ==> (#[trigger] out.sequence@[i]).0 == m.seq[i]
            &&& out.break_reason == (match m.stopped {
                Some(b) => b,
                None => BreakReason::EndOfIteration,
            })
        }),
{
    let npins: usize = poly.points.len();
    if npins < 4 {
        return Err(PlanError::TooFewPoints);
    }
    let iw: u32 = image.width();
    let ih: u32 = image.height();
    let ghost dpspec = scaled_pts(poly.points@, iw, ih);

    let mut dp: Vec<(i32, i32)> = Vec::new();
    let mut i: usize = 0;
    while i < npins
        invariant
            i <= npins,
            npins == poly.points@.len(),
            npins <= 0x1_0000,
            iw == image.spec_width(),
            ih == image.spec_height(),
            iw <= 0x1_0000,
            ih <= 0x1_0000,
            forall|k: int|
                0 <= k < npins ==> -0x10_0000 <= (#[trigger] poly.points@[k]).0 <= 0x10_0000
                    && -0x10_0000 <= poly.points@[k].1 <= 0x10_0000,
            dpspec == scaled_pts(poly.points@, iw, ih),
            dp@.len() == i,
            forall|k: int| 0 <= k < i ==> #[trigger] dp@[k] == dpspec[k],
        decreases npins - i,
    {
        let p = poly.points[i];
        let x: i32 = scale_px(p.0, iw);
        let y: i32 = scale_px(p.1, ih);
        dp.push((x, y));
        i = i + 1;
    }
    proof {
        assert(dp@ =~= dpspec);
    }

    let mut mxx: i32 = 0;
    let mut mxy: i32 = 0;
    let mut mnx: i32 = 0x7FFF_FFFF;
    let mut mny: i32 = 0x7FFF_FFFF;
    let mut i2: usize = 0;
    while i2 < npins
        invariant
            i2 <= npins,
            npins == dp@.len(),
            dp@ == dpspec,
            mxx == bb_max_x(dpspec, i2 as int),
            mxy == bb_max_y(dpspec, i2 as int),
            mnx == bb_min_x(dpspec, i2 as int),
            mny == bb_min_y(dpspec, i2 as int),
        decreases npins - i2,
    {
        let p = dp[i2];
        if p.0 > mxx {
            mxx = p.0;
        }
        if p.1 > mxy {
            mxy = p.1;
        }
        if p.0 < mnx {
            mnx = p.0;
        }
        if p.1 < mny {
            mny = p.1;
        }
        i2 = i2 + 1;
    }

    if mnx < 0 || mny < 0 || mxx > iw as i32 || mxy > ih as i32 {
        return Err(PlanError::RasterBounds);
    }
    proof {
        assert(bbox_in(*image, dpspec));
        assert(mnx <= dpspec[0].0 <= mxx && mny <= dpspec[0].1 <= mxy) by {
            lemma_bb_contains(dpspec, npins as int, 0);
        }
    }
    let dp_first = dp[0];
    let dp_last = dp[npins - 1];
    if (dp_first.0 == dp_last.0 && dp_first.1 == dp_last.1) || mxy == mny {
        proof {
            assert(window_degenerate(*image, poly.points@));
        }
        return Err(PlanError::DegenerateWindow);
    }
    proof {
        assert(dpspec[0] != dpspec[npins - 1]);
        assert(!window_degenerate(*image, poly.points@));
    }
    let bw: u32 = (mxx - mnx) as u32;
    let bh: u32 = (mxy - mny) as u32;

    let mut tdata: Vec<u8> = Vec::new();
    let mut cy: u32 = 0;
    while cy < bh
        invariant
            cy <= bh,
            image.wf(),
            iw == image.spec_width(),
            ih == image.spec_height(),
            0 <= mnx,
            0 <= mny,
            mnx + bw <= iw,
            mny + bh <= ih,
            tdata@.len() == cy * bw,
            forall|k: int|
                0 <= k < tdata@.len() ==> #[trigger] tdata@[k] == crop_seq(
                    image.pixels(),
                    iw as int,
                    mnx as int,
                    mny as int,
                    bw as int,
                    bh as int,
                )[k],
        decreases bh - cy,
    {
        let mut cx: u32 = 0;
        while cx < bw
            invariant
                cx <= bw,
                cy < bh,
                image.wf(),
                iw == image.spec_width(),
                ih == image.spec_height(),
                0 <= mnx,
                0 <= mny,
                mnx + bw <= iw,
                mny + bh <= ih,
                tdata@.len() == cy * bw + cx,
                forall|k: int|
                    0 <= k < tdata@.len() ==> #[trigger] tdata@[k] == crop_seq(
                        image.pixels(),
                        iw as int,
                        mnx as int,
                        mny as int,
                        bw as int,
                        bh as int,
                    )[k],
            decreases bw - cx,
        {
            let px: u8 = image.get_pixel((mnx as u32) + cx, (mny as u32) + cy);
            proof {
                let k = cy * bw + cx;
                vstd::arithmetic::div_mod::lemma_fundamental_div_mod_converse(
                    k as int,
                    bw as int,
                    cy as int,
                    cx as int,
                );
                crate::raster::lemma_row_major(cx as int, cy as int, bw as int, bh as int);
            }
            tdata.push(px);
            cx = cx + 1;
        }
        proof {
            assert((cy + 1) * bw == cy * bw + bw) by (nonlinear_arith);
        }
        cy = cy + 1;
    }
    proof {
        assert(bh * bw == bw * bh) by (nonlinear_arith);
        assert(tdata@ =~= crop_seq(
            image.pixels(),
            iw as int,
            mnx as int,
            mny as int,
            bw as int,
            bh as int,
        ));
    }
    let target: GrayRaster = GrayRaster::from_data_exact(bw, bh, tdata);

    let mut sdp: Vec<(i32, i32)> = Vec::new();
    let mut i3: usize = 0;
    while i3 < npins
        invariant
            i3 <= npins,
            npins == dp@.len(),
            npins == poly.points@.len(),
            dp@ == dpspec,
            dpspec == scaled_pts(poly.points@, iw, ih),
            iw == image.spec_width(),
            ih == image.spec_height(),
            iw <= 0x1_0000,
            ih <= 0x1_0000,
            forall|k: int|
                0 <= k < npins ==> -0x10_0000 <= (#[trigger] poly.points@[k]).0 <= 0x10_0000
                    && -0x10_0000 <= poly.points@[k].1 <= 0x10_0000,
            0 <= mnx,
            0 <= mny,
            mnx == bb_min_x(dpspec, npins as int),
            mny == bb_min_y(dpspec, npins as int),
            sdp@.len() == i3,
            forall|k: int| 0 <= k < i3 ==> #[trigger] sdp@[k] == shifted_pts(dpspec)[k],
        decreases npins - i3,
    {
        let p = dp[i3];
        proof {
            lemma_bb_contains(dpspec, npins as int, i3 as int);
        }
        sdp.push((p.0 - mnx, p.1 - mny));
        i3 = i3 + 1;
    }
    proof {
        assert(sdp@ =~= shifted_pts(dpspec));
        assert(sdp@[0] != sdp@[npins - 1]);
        assert forall|i: int|
            0 <= i < sdp@.len() implies draw_coord_ok((#[trigger] sdp@[i]).0) && draw_coord_ok(
            sdp@[i].1,
        ) by {
            lemma_bb_contains(dpspec, npins as int, i);
            lemma_scale_coord_bounds(poly.points@[i].0, iw);
            lemma_scale_coord_bounds(poly.points@[i].1, ih);
            assert(dpspec[i].0 == scale_coord(poly.points@[i].0, iw));
            assert(dpspec[i].1 == scale_coord(poly.points@[i].1, ih));
        }
        assert(draw_coords_bounded(sdp@));
    }

    let mdata: Vec<u8> = fill_polygon(bw, bh, &sdp);
    let mask: GrayRaster = GrayRaster::from_data_exact(bw, bh, mdata);
    let mut done: GrayRaster = mask.duplicate();

    let lin: Vec<u32> = build_linear_table();
    let half: Vec<u32> = build_half_table();
    proof {
        crate::math::lemma_mul_le(bw as int, bh as int, 0x1_0000, 0x1_0000);
    }
    let darkness: u64 = image_background(&mask, &target, &lin);

    let ghost ctx = spec_plan_ctx(*image, poly.points@, *lines, class.of as int, class.idx as int);
    proof {
        assert(ctx.mask == mask.pixels());
        assert(ctx.target == target.pixels());
        assert(ctx.pts == sdp@);
        assert(ctx.w == bw && ctx.h == bh);
        assert(darkness == spec_ctx_darkness(ctx));
        assert(ctx =~= ctx_of(
            mask,
            target,
            sdp@,
            *lines,
            class.of as int,
            class.idx as int,
        ));
    }

    let mut rng: Xoshiro128Plus = Xoshiro128Plus::from_darkness(darkness);
    let mut hit_count: Vec<u32> = Vec::new();
    let mut i4: usize = 0;
    while i4 < npins
        invariant
            i4 <= npins,
            hit_count@.len() == i4,
            forall|k: int| 0 <= k < i4 ==> #[trigger] hit_count@[k] == 0,
        decreases npins - i4,
    {
        hit_count.push(0);
        i4 = i4 + 1;
    }

    let mut current: PolygonPoint = PolygonPoint(0);
    let mut sequence: Vec<PolygonPoint> = Vec::new();
    sequence.push(current);
    let mut yarn_length: u64 = 0;
    let mut reason_opt: Option<BreakReason> = None;
    let limit: u32 = poly.iter_limit;
    let ghost init = plan_init(ctx, darkness);
    proof {
        assert(hit_count@ =~= init.hits);
        assert(sequence@.len() == init.seq.len());
        assert(sequence@[0].0 == init.seq[0]);
        assert(done.pixels() == init.done);
    }

    let mut it: u32 = 0;
    while it < limit && reason_opt.is_none()
        invariant
            it <= limit,
            npins == poly.points@.len(),
            npins <= 0x1_0000,
            4 <= npins,
            graph_wf(*lines, npins as int),
            class.of > 0,
            mask.wf(),
            target.wf(),
            mask.spec_width() == bw,
            mask.spec_height() == bh,
            target.spec_width() == bw,
            target.spec_height() == bh,
            bw <= 0x1_0000,
            bh <= 0x1_0000,
            lin_table_wf(lin@),
            half_table_wf(half@),
            sdp@.len() == npins,
            draw_coords_bounded(sdp@),
            ctx == spec_plan_ctx(*image, poly.points@, *lines, class.of as int, class.idx as int),
            ctx == ctx_of(mask, target, sdp@, *lines, class.of as int, class.idx as int),
            darkness == spec_ctx_darkness(ctx),
            init == plan_init(ctx, darkness),
            ({
                let m = iterate(ctx, darkness, init, it as nat);
                &&& done.wf()
                &&& done.spec_width() == bw
                &&& done.spec_height() == bh
                &&& done.pixels() == m.done
                &&& current.0 < npins
                &&& current.0 == m.current
                &&& sequence@.len() == m.seq.len()
                &&& forall|k: int|
                    0 <= k < sequence@.len() ==> (#[trigger] sequence@[k]).0 == m.seq[k]
                &&& yarn_length == m.yarn
                &&& yarn_length <= it * 0x200_0000
                &&& rng == m.rng
                &&& hit_count@.len() == npins
                &&& hit_count@ == m.hits
                &&& forall|k: int| 0 <= k < npins ==> #[trigger] m.hits[k] <= it
                &&& (match reason_opt {
                    Option::None => m.stopped is None,
                    Option::Some(b) => m.stopped == Some(b),
                })
            }),
        decreases limit - it,
    {
        let ghost m = iterate(ctx, darkness, init, it as nat);
        proof {
            assert(iterate(ctx, darkness, init, (it + 1) as nat) == plan_step(
                ctx,
                darkness,
                m,
            ));
        }
        let covered: bool = (yarn_length as u128) * 16 >= (darkness as u128);
        if covered {
            reason_opt = Some(BreakReason::Covered);
            it = it + 1;
            continue;
        }
        let bf: Option<usize> = best_fit(
            &mask,
            &target,
            &sdp,
            current,
            lines,
            &done,
            class,
            &mut rng,
            &hit_count,
            &lin,
            &half,
        );
        match bf {
            Option::None => {
                reason_opt = Some(BreakReason::LocalOptimum);
                it = it + 1;
            },
            Option::Some(rel) => {
                let rg = lines.ranges[current.0];
                let t: usize = lines.idx_vec[rg.0 + rel].0;
                let wt: u64 = lines.weight_vec[rg.0 + rel];
                proof {
                    assert(ctx.idx[ctx.ranges[current.0 as int].0 + rel] == t as int);
                    assert(ctx.wts[ctx.ranges[current.0 as int].0 + rel] == wt as int);
                    assert((it as int) * 0x200_0000 + 0x200_0000 == (it + 1) * 0x200_0000);
                }
                let ps = sdp[current.0];
                let pt = sdp[t];
                darken_by_thread(&mut done, ps.0, ps.1, pt.0, pt.1, &half);
                proof {
                    assert(done.pixels() =~= darkened(
                        m.done,
                        ctx.w,
                        ctx.h,
                        ctx.pts,
                        m.current,
                        t as int,
                    ));
                }
                yarn_length = yarn_length + wt;
                let hc: u32 = hit_count[t];
                hit_count.set(t, hc + 1);
                proof {
                    assert(hit_count@ =~= m.hits.update(t as int, (m.hits[t as int] + 1) as u32));
                }
                sequence.push(PolygonPoint(t));
                current = PolygonPoint(t);
                it = it + 1;
            },
        }
    }
    proof {
        let mfin = iterate(ctx, darkness, init, limit as nat);
        if reason_opt is Some {
            lemma_iterate_sticky(ctx, darkness, init, it as nat, limit as nat);
        }
        assert(sequence@.len() == mfin.seq.len());
    }
    let reason: BreakReason = match reason_opt {
        Option::None => BreakReason::EndOfIteration,
        Option::Some(b) => b,
    };
    Ok(Sequence { break_reason: reason, sequence, yarn_length })
}

/// Every scaled point lies within the bounding box folds.
pub proof fn lemma_bb_contains(dp: Seq<(i32, i32)>, n: int, i: int)
    requires
        0 <= i < n <= dp.len(),
    ensures
        bb_min_x(dp, n) <= dp[i].0,
        bb_min_y(dp, n) <= dp[i].1,
        dp[i].0 <= bb_max_x(dp, n),
        dp[i].1 <= bb_max_y(dp, n),
    decreases n,
{
    if i < n - 1 {
        lemma_bb_contains(dp, n - 1, i);
    }
}

/// The scaled coordinate stays well within machine range.
pub proof fn lemma_scale_coord_bounds(c: i64, d: u32)
    requires
        -0x10_0000 <= c <= 0x10_0000,
        d <= 0x1_0000,
    ensures
        -0x10_0000 <= scale_coord(c, d) <= 0x10_0000,
{
    crate::math::lemma_mul_bounds_signed(c + 0x1_0000, d as int, 0x11_0000, 0x1_0000);
    let a = (c + 0x1_0000) * d;
    if a >= 0 {
        vstd::arithmetic::div_mod::lemma_div_is_ordered(a, 0x11_0000_0000, 0x2_0000);
        vstd::arithmetic::div_mod::lemma_div_pos_is_pos(a, 0x2_0000);
    } else {
        vstd::arithmetic::div_mod::lemma_div_is_ordered(-a, 0x11_0000_0000, 0x2_0000);
        vstd::arithmetic::div_mod::lemma_div_pos_is_pos(-a, 0x2_0000);
    }
}

/// Accumulated length is monotonically non-decreasing: one iteration never
/// shortens the thread, and it either leaves the sequence alone (when the
/// run stops) or appends exactly the one committed pin.
pub proof fn lemma_step_monotone(ctx: PlanCtx, darkness: u64, s: PlanState)
    requires
        forall|j: int| 0 <= j < ctx.wts.len() ==> #[trigger] ctx.wts[j] >= 0,
        s.stopped is None ==> {
            let nc = ctx.ranges[s.current].1 - ctx.ranges[s.current].0;
            &&& 0 <= ctx.ranges[s.current].0
            &&& ctx.ranges[s.current].0 + nc <= ctx.wts.len()
        },
    ensures
        plan_step(ctx, darkness, s).yarn >= s.yarn,
        plan_step(ctx, darkness, s).seq == s.seq || plan_step(ctx, darkness, s).seq == s.seq.push(
            plan_step(ctx, darkness, s).current,
        ),
        plan_step(ctx, darkness, s).seq.len() == s.seq.len() || plan_step(
            ctx,
            darkness,
            s,
        ).seq.len() == s.seq.len() + 1,
{
    if s.stopped is None && s.yarn * 16 < darkness {
        let bf = spec_best_fit(ctx, s.done, s.current, s.rng, s.hits);
        if bf.0 is Some {
            let nc = ctx.ranges[s.current].1 - ctx.ranges[s.current].0;
            let sr = bf_scan(ctx, s.done, s.current, s.rng, nc);
            lemma_bf_scan_entries(ctx, s.done, s.current, s.rng, nc);
            if sr.0.len() > 0 {
                lemma_pick_primary_range(sr.0, sr.0.len() as int);
                lemma_pick_secondary_range(
                    ctx,
                    sr.0,
                    s.current,
                    s.hits,
                    pick_primary(sr.0, sr.0.len() as int),
                    sr.0.len() as int,
                );
            }
        }
    }
}

/// The accumulated length never decreases across iterations: later states
/// of a run have spent at least as much thread as earlier ones, and the
/// sequence only ever grows by the committed moves.
pub proof fn lemma_run_monotone(ctx: PlanCtx, darkness: u64, s: PlanState, n1: nat, n2: nat)
    requires
        n1 <= n2,
        forall|j: int| 0 <= j < ctx.wts.len() ==> #[trigger] ctx.wts[j] >= 0,
        forall|o: int|
            0 <= o < ctx.ranges.len() ==> 0 <= (#[trigger] ctx.ranges[o]).0 <= ctx.ranges[o].1
                <= ctx.wts.len(),
        forall|j: int| 0 <= j < ctx.idx.len() ==> 0 <= #[trigger] ctx.idx[j] < ctx.ranges.len(),
        ctx.idx.len() == ctx.wts.len(),
        0 <= s.current < ctx.ranges.len(),
    ensures
        iterate(ctx, darkness, s, n2).yarn >= iterate(ctx, darkness, s, n1).yarn,
        iterate(ctx, darkness, s, n2).seq.len() >= iterate(ctx, darkness, s, n1).seq.len(),
    decreases n2 - n1,
{
    if n1 < n2 {
        lemma_run_current_in_range(ctx, darkness, s, (n2 - 1) as nat);
        lemma_step_monotone(ctx, darkness, iterate(ctx, darkness, s, (n2 - 1) as nat));
        lemma_run_monotone(ctx, darkness, s, n1, (n2 - 1) as nat);
    }
}

/// The current pin of a run always names a pin of the window.
pub proof fn lemma_run_current_in_range(ctx: PlanCtx, darkness: u64, s: PlanState, n: nat)
    requires
        forall|o: int|
            0 <= o < ctx.ranges.len() ==> 0 <= (#[trigger] ctx.ranges[o]).0 <= ctx.ranges[o].1
                <= ctx.wts.len(),
        forall|j: int| 0 <= j < ctx.idx.len() ==> 0 <= #[trigger] ctx.idx[j] < ctx.ranges.len(),
        ctx.idx.len() == ctx.wts.len(),
        0 <= s.current < ctx.ranges.len(),
    ensures
        0 <= iterate(ctx, darkness, s, n).current < ctx.ranges.len(),
    decreases n,
{
    if n > 0 {
        lemma_run_current_in_range(ctx, darkness, s, (n - 1) as nat);
        let prev = iterate(ctx, darkness, s, (n - 1) as nat);
        if prev.stopped is None && prev.yarn * 16 < darkness {
            let bf = spec_best_fit(ctx, prev.done, prev.current, prev.rng, prev.hits);
            if bf.0 is Some {
                let nc = ctx.ranges[prev.current].1 - ctx.ranges[prev.current].0;
                let sr = bf_scan(ctx, prev.done, prev.current, prev.rng, nc);
                lemma_bf_scan_entries(ctx, prev.done, prev.current, prev.rng, nc);
                if sr.0.len() > 0 {
                    lemma_pick_primary_range(sr.0, sr.0.len() as int);
                    lemma_pick_secondary_range(
                        ctx,
                        sr.0,
                        prev.current,
                        prev.hits,
                        pick_primary(sr.0, sr.0.len() as int),
                        sr.0.len() as int,
                    );
                }
            }
        }
    }
}

/// The sequence starts with the initial pin and grows by exactly one pin
/// per committed move, so after `n` iterations it holds at most `1 + n`
/// pins: its final length is one more than the number of committed moves.
pub proof fn lemma_run_seq_growth(ctx: PlanCtx, darkness: u64, s: PlanState, n: nat)
    ensures
        iterate(ctx, darkness, s, n).seq.len() <= s.seq.len() + n,
    decreases n,
{
    if n > 0 {
        lemma_run_seq_growth(ctx, darkness, s, (n - 1) as nat);
    }
}

/// The terminal reasons mean what they say: a run can only stop as Covered,
/// LocalOptimum, or by the cap; stopping as Covered happens exactly when the
/// accumulated length covers sixteen times the darkness budget, and
/// stopping as LocalOptimum happens exactly when no candidate of the
/// current pin strictly improves the score.
pub proof fn lemma_step_reasons(ctx: PlanCtx, darkness: u64, s: PlanState)
    requires
        s.stopped is None,
    ensures
        plan_step(ctx, darkness, s).stopped == Some(BreakReason::Covered) <==> s.yarn * 16
            >= darkness,
        plan_step(ctx, darkness, s).stopped == Some(BreakReason::LocalOptimum) <==> (s.yarn * 16
            < darkness && (forall|j: int|
            0 <= j < ctx.ranges[s.current].1 - ctx.ranges[s.current].0 ==> cand_score_of(
                ctx,
                s.done,
                s.current,
                #[trigger] ctx.idx[ctx.ranges[s.current].0 + j],
            ) >= pre_score_of(ctx, s.done))),
        plan_step(ctx, darkness, s).stopped == Some(BreakReason::Covered) ==> plan_step(
            ctx,
            darkness,
            s,
        ).yarn * 16 >= darkness,
{
    let nc = ctx.ranges[s.current].1 - ctx.ranges[s.current].0;
    lemma_bf_scan_none(ctx, s.done, s.current, s.rng, nc);
}

/// Determinism: the planner is a mathematical function of the target
/// raster, the candidate graph, the class descriptor and the iteration cap,
/// so two runs over identical inputs reach byte-identical states — the same
/// pin sequence, the same accumulated length, the same stop reason.
pub proof fn lemma_plan_deterministic(
    ctx1: PlanCtx,
    ctx2: PlanCtx,
    darkness1: u64,
    darkness2: u64,
    cap1: u32,
    cap2: u32,
)
    requires
        ctx1 == ctx2,
        darkness1 == darkness2,
        cap1 == cap2,
    ensures
        spec_plan_run(ctx1, darkness1, cap1) == spec_plan_run(ctx2, darkness2, cap2),
{
}

/// Within every pin's candidate range, no target pin appears twice.
pub open spec fn targets_distinct(idx: Seq<int>, ranges: Seq<(int, int)>) -> bool {
    forall|o: int, j1: int, j2: int|
        #![trigger ranges[o], idx[j1], idx[j2]]
        0 <= o < ranges.len() && ranges[o].0 <= j1 < ranges[o].1 && ranges[o].0 <= j2
            < ranges[o].1 && j1 != j2 ==> idx[j1] != idx[j2]
}

/// The index of the first of pin `a`'s first `n` candidates that targets
/// pin `b`, or -1 when none does.
pub open spec fn move_index(ctx: PlanCtx, a: int, b: int, n: int) -> int
    decreases n,
{
    if n <= 0 {
        -1
    } else {
        let p = move_index(ctx, a, b, n - 1);
        if p != -1 {
            p
        } else if ctx.idx[ctx.ranges[a].0 + (n - 1)] == b {
            ctx.ranges[a].0 + (n - 1)
        } else {
            -1
        }
    }
}

/// The length weight of the recorded candidate from pin `a` to pin `b`.
pub open spec fn move_weight(ctx: PlanCtx, a: int, b: int) -> int {
    ctx.wts[move_index(ctx, a, b, ctx.ranges[a].1 - ctx.ranges[a].0)]
}

/// The scan behind `move_index` finds an in-range candidate targeting `b`
/// whenever one exists, and nothing else.
pub proof fn lemma_move_index(ctx: PlanCtx, a: int, b: int, n: int)
    requires
        0 <= ctx.ranges[a].0,
    ensures
        move_index(ctx, a, b, n) == -1 || (ctx.ranges[a].0 <= move_index(ctx, a, b, n)
            < ctx.ranges[a].0 + n && ctx.idx[move_index(ctx, a, b, n)] == b),
        (exists|j: int|
            ctx.ranges[a].0 <= j < ctx.ranges[a].0 + n && #[trigger] ctx.idx[j] == b)
            ==> move_index(ctx, a, b, n) != -1,
    decreases n,
{
    if n > 0 {
        lemma_move_index(ctx, a, b, n - 1);
    }
}

/// With distinct targets per range, the weight of a committed move is
/// exactly the weight recorded at its candidate's index.
pub proof fn lemma_move_weight_at(ctx: PlanCtx, a: int, jj: int)
    requires
        targets_distinct(ctx.idx, ctx.ranges),
        0 <= a < ctx.ranges.len(),
        0 <= ctx.ranges[a].0 <= jj < ctx.ranges[a].1,
    ensures
        move_weight(ctx, a, ctx.idx[jj]) == ctx.wts[jj],
{
    let b = ctx.idx[jj];
    let nc = ctx.ranges[a].1 - ctx.ranges[a].0;
    lemma_move_index(ctx, a, b, nc);
    assert(move_index(ctx, a, b, nc) != -1);
    let mi = move_index(ctx, a, b, nc);
    if mi != jj {
        assert(ctx.idx[mi] != ctx.idx[jj]);
    }
}

/// The total weight of a pin path: the sum, over consecutive pairs, of the
/// weight of the recorded candidate between them.
pub open spec fn path_yarn(ctx: PlanCtx, s: Seq<int>) -> int
    decreases s.len(),
{
    if s.len() <= 1 {
        0
    } else {
        path_yarn(ctx, s.drop_last()) + move_weight(
            ctx,
            s[s.len() - 2],
            s[s.len() - 1],
        )
    }
}

/// Accumulated length is exactly the sum of the committed moves' weights:
/// at every iteration, the run's length so far equals the path weight of
/// the pin sequence so far, summed over its consecutive pairs.
pub proof fn lemma_run_yarn_is_path_weight(ctx: PlanCtx, darkness: u64, n: nat)
    requires
        targets_distinct(ctx.idx, ctx.ranges),
        forall|o: int|
            0 <= o < ctx.ranges.len() ==> 0 <= (#[trigger] ctx.ranges[o]).0 <= ctx.ranges[o].1
                <= ctx.wts.len(),
        forall|j: int| 0 <= j < ctx.idx.len() ==> 0 <= #[trigger] ctx.idx[j] < ctx.ranges.len(),
        ctx.idx.len() == ctx.wts.len(),
        ctx.ranges.len() > 0,
    ensures
        ({
            let m = iterate(ctx, darkness, plan_init(ctx, darkness), n);
            &&& m.yarn == path_yarn(ctx, m.seq)
            &&& m.seq.len() >= 1
            &&& m.seq[m.seq.len() - 1] == m.current
            &&& 0 <= m.current < ctx.ranges.len()
        }),
    decreases n,
{
    if n == 0 {
        let m = plan_init(ctx, darkness);
        assert(m.seq =~= seq![0int]);
    } else {
        lemma_run_yarn_is_path_weight(ctx, darkness, (n - 1) as nat);
        let prev = iterate(ctx, darkness, plan_init(ctx, darkness), (n - 1) as nat);
        let m = iterate(ctx, darkness, plan_init(ctx, darkness), n);
        if prev.stopped is None && prev.yarn * 16 < darkness {
            let bf = spec_best_fit(ctx, prev.done, prev.current, prev.rng, prev.hits);
            if bf.0 is Some {
                let nc = ctx.ranges[prev.current].1 - ctx.ranges[prev.current].0;
                let sr = bf_scan(ctx, prev.done, prev.current, prev.rng, nc);
                lemma_bf_scan_entries(ctx, prev.done, prev.current, prev.rng, nc);
                lemma_pick_primary_range(sr.0, sr.0.len() as int);
                lemma_pick_secondary_range(
                    ctx,
                    sr.0,
                    prev.current,
                    prev.hits,
                    pick_primary(sr.0, sr.0.len() as int),
                    sr.0.len() as int,
                );
                let rel = bf.0->Some_0;
                let jj = ctx.ranges[prev.current].0 + rel;
                assert(0 <= rel < nc);
                lemma_move_weight_at(ctx, prev.current, jj);
                let t = ctx.idx[jj];
                assert(m.seq == prev.seq.push(t));
                assert(m.seq.drop_last() =~= prev.seq);
                assert(m.seq[m.seq.len() - 2] == prev.seq[prev.seq.len() - 1]);
                assert(path_yarn(ctx, m.seq) == path_yarn(ctx, prev.seq) + move_weight(
                    ctx,
                    prev.current,
                    t,
                ));
            }
        }
    }
}

/// Whether the graph records a candidate line from pin `a` to pin `b`.
pub open spec fn cand_recorded(ctx: PlanCtx, a: int, b: int) -> bool {
    exists|j: int| ctx.ranges[a].0 <= j < ctx.ranges[a].1 && #[trigger] ctx.idx[j] == b
}

/// The planner's run facts, at every iteration: the sequence starts at pin
/// zero and visits only pins of the window; while the run has not stopped,
/// every iteration has committed exactly one move, so the sequence holds
/// one pin more than the iterations run; Covered means the accumulated
/// length covers sixteen times the darkness budget, and when any move was
/// committed the budget was first crossed by the final move; LocalOptimum
/// means the budget was not covered and no candidate of the final pin
/// strictly improves the score on the final canvas; and every consecutive
/// pair of the sequence is a recorded candidate line of the graph.
pub proof fn lemma_run_facts(ctx: PlanCtx, darkness: u64, n: nat)
    requires
        targets_distinct(ctx.idx, ctx.ranges),
        forall|o: int|
            0 <= o < ctx.ranges.len() ==> 0 <= (#[trigger] ctx.ranges[o]).0 <= ctx.ranges[o].1
                <= ctx.wts.len(),
        forall|j: int| 0 <= j < ctx.idx.len() ==> 0 <= #[trigger] ctx.idx[j] < ctx.ranges.len(),
        ctx.idx.len() == ctx.wts.len(),
        ctx.ranges.len() > 0,
    ensures
        ({
            let m = iterate(ctx, darkness, plan_init(ctx, darkness), n);
            &&& m.seq.len() >= 1
            &&& m.seq[0] == 0
            &&& forall|i: int| 0 <= i < m.seq.len() ==> 0 <= #[trigger] m.seq[i] < ctx.ranges.len()
            &&& (m.stopped is None ==> m.seq.len() == n + 1)
            &&& (m.stopped == Some(BreakReason::Covered) ==> m.yarn * 16 >= darkness)
            &&& (m.stopped == Some(BreakReason::LocalOptimum) ==> m.yarn * 16 < darkness && (
            forall|j: int|
                0 <= j < ctx.ranges[m.current].1 - ctx.ranges[m.current].0 ==> cand_score_of(
                    ctx,
                    m.done,
                    m.current,
                    #[trigger] ctx.idx[ctx.ranges[m.current].0 + j],
                ) >= pre_score_of(ctx, m.done)))
            &&& (m.seq.len() > 1 ==> (m.yarn - move_weight(
                ctx,
                m.seq[m.seq.len() - 2],
                m.seq[m.seq.len() - 1],
            )) * 16 < darkness)
            &&& forall|i: int|
                0 <= i < m.seq.len() - 1 ==> cand_recorded(ctx, #[trigger] m.seq[i], m.seq[i + 1])
        }),
    decreases n,
{
    if n == 0 {
        let m = plan_init(ctx, darkness);
        assert(m.seq =~= seq![0int]);
    } else {
        lemma_run_facts(ctx, darkness, (n - 1) as nat);
        lemma_run_yarn_is_path_weight(ctx, darkness, (n - 1) as nat);
        lemma_run_yarn_is_path_weight(ctx, darkness, n);
        let prev = iterate(ctx, darkness, plan_init(ctx, darkness), (n - 1) as nat);
        let m = iterate(ctx, darkness, plan_init(ctx, darkness), n);
        if prev.stopped is None && prev.yarn * 16 < darkness {
            let bf = spec_best_fit(ctx, prev.done, prev.current, prev.rng, prev.hits);
            let nc = ctx.ranges[prev.current].1 - ctx.ranges[prev.current].0;
            if bf.0 is None {
                lemma_bf_scan_none(ctx, prev.done, prev.current, prev.rng, nc);
            } else {
                let sr = bf_scan(ctx, prev.done, prev.current, prev.rng, nc);
                lemma_bf_scan_entries(ctx, prev.done, prev.current, prev.rng, nc);
                lemma_pick_primary_range(sr.0, sr.0.len() as int);
                lemma_pick_secondary_range(
                    ctx,
                    sr.0,
                    prev.current,
                    prev.hits,
                    pick_primary(sr.0, sr.0.len() as int),
                    sr.0.len() as int,
                );
                let rel = bf.0->Some_0;
                let jj = ctx.ranges[prev.current].0 + rel;
                assert(0 <= rel < nc);
                lemma_move_weight_at(ctx, prev.current, jj);
                let t = ctx.idx[jj];
                assert(m.seq == prev.seq.push(t));
                assert(m.seq[m.seq.len() - 2] == prev.seq[prev.seq.len() - 1]);
                assert(cand_recorded(ctx, prev.current, t));
                assert forall|i: int| 0 <= i < m.seq.len() - 1 implies cand_recorded(
                    ctx,
                    #[trigger] m.seq[i],
                    m.seq[i + 1],
                ) by {
                    if i < prev.seq.len() - 1 {
                        assert(m.seq[i] == prev.seq[i]);
                        assert(m.seq[i + 1] == prev.seq[i + 1]);
                    } else {
                        assert(m.seq[i] == prev.current);
                        assert(m.seq[i + 1] == t);
                    }
                }
            }
        }
    }
}

} // verus!
