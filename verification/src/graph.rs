//! The candidate graph builder.
//!
//! For every pin of a window, taken as an origin, every other pin except the
//! origin's two edge-neighbors (and itself) is a candidate target; it is kept
//! only if the segment to it passes an orientation test against the two
//! polygon edges adjacent to the candidate, so no accepted line hugs or
//! crosses the boundary at the candidate's local neighborhood.  Each kept
//! line carries its pixel-space length as a weight.
use vstd::prelude::*;

use crate::math::{
    sq,
    isqrt_spec,
    lemma_isqrt_spec_char,
    lemma_isqrt_unique,
    lemma_mul_bounds_signed,
    lemma_sq_nonneg,
    isqrt_u128,
};
use crate::planner::{
    graph_wf,
    iterate,
    lemma_run_facts,
    lemma_run_yarn_is_path_weight,
    cand_recorded,
    path_yarn,
    plan_init,
    spec_plan_ctx,
    targets_distinct,
};
use crate::types::BreakReason;
use crate::raster::GrayRaster;
use crate::types::{Lines, Polygon, PolygonPoint};
use vstd::arithmetic::div_mod::{lemma_mod_multiples_vanish, lemma_small_mod};

verus! {

/// Twice the signed area of the triangle of the points at indices `a`,
/// `mid`, `b`, each taken modulo the point count.
pub open spec fn sarea(pts: Seq<(i64, i64)>, a: int, mid: int, b: int) -> int {
    let len = pts.len() as int;
    let pa = pts[a % len];
    let pm = pts[mid % len];
    let pb = pts[b % len];
    (pa.0 - pm.0) * (pb.1 - pm.1) - (pa.1 - pm.1) * (pb.0 - pm.0)
}

/// Whether the candidate at offset `k` from origin `o` passes the
/// orientation test: the edge just before the candidate must not lie on the
/// positive side, the edge just after not on the negative side.
pub open spec fn accept(pts: Seq<(i64, i64)>, o: int, k: int) -> bool {
    let len = pts.len() as int;
    &&& sarea(pts, o + len + k - 1, o + len, o + len + k) <= 0
    &&& sarea(pts, o + len + k + 1, o + len, o + len + k) >= 0
}

/// The length weight of the candidate at offset `k` from origin `o`: the
/// pixel-space distance between the two pins, at a scale of 256 per pixel.
/// Point coordinates carry 2^16 per unit and span two units per axis, so the
/// weight is the square root of the summed squared coordinate deltas scaled
/// by the pixel dimensions, divided by 512.
pub open spec fn weight_of(pts: Seq<(i64, i64)>, o: int, k: int, w: u32, h: u32) -> int {
    let len = pts.len() as int;
    let po = pts[o % len];
    let pc = pts[(o + k) % len];
    let dx = (pc.0 - po.0) * w;
    let dy = (pc.1 - po.1) * h;
    isqrt_spec(sq(dx) + sq(dy)) / 512
}

/// The accepted candidates of origin `o` with offsets below `k`, in offset
/// order, each as (target pin, weight).
pub open spec fn origin_cands(
    pts: Seq<(i64, i64)>,
    o: int,
    k: int,
    w: u32,
    h: u32,
) -> Seq<(int, int)>
    decreases k,
{
    if k <= 2 {
        Seq::empty()
    } else {
        let prev = origin_cands(pts, o, k - 1, w, h);
        if accept(pts, o, k - 1) {
            prev.push(((o + k - 1) % (pts.len() as int), weight_of(pts, o, k - 1, w, h)))
        } else {
            prev
        }
    }
}

/// All accepted candidates of one origin: offsets 2 through `len - 2`.
pub open spec fn origin_cands_full(pts: Seq<(i64, i64)>, o: int, w: u32, h: u32) -> Seq<
    (int, int),
> {
    origin_cands(pts, o, pts.len() as int - 1, w, h)
}

/// The accepted candidates of the first `n` origins, concatenated.
pub open spec fn flat_cands(pts: Seq<(i64, i64)>, n: int, w: u32, h: u32) -> Seq<(int, int)>
    decreases n,
{
    if n <= 0 {
        Seq::empty()
    } else {
        flat_cands(pts, n - 1, w, h) + origin_cands_full(pts, n - 1, w, h)
    }
}

/// Every coordinate within one normalized unit of the origin.
pub open spec fn coords_bounded(pts: Seq<(i64, i64)>) -> bool {
    forall|i: int|
        0 <= i < pts.len() ==> -0x1_0000 <= (#[trigger] pts[i]).0 <= 0x1_0000
            && -0x1_0000 <= pts[i].1 <= 0x1_0000
}

/// What the candidate graph of a window is: the ragged adjacency structure
/// whose range for origin `o` holds exactly the accepted candidates of `o`,
/// in offset order, with their weights.
pub open spec fn lines_match(l: Lines, pts: Seq<(i64, i64)>, w: u32, h: u32, cap: u32) -> bool {
    let len = pts.len() as int;
    &&& flat_cands(pts, len, w, h).len() <= usize::MAX
    &&& l.iter_limit == cap
    &&& l.ranges@.len() == len
    &&& l.idx_vec@.len() == flat_cands(pts, len, w, h).len()
    &&& l.weight_vec@.len() == flat_cands(pts, len, w, h).len()
    &&& forall|j: int|
        0 <= j < l.idx_vec@.len() ==> (#[trigger] l.idx_vec@[j]).0 == flat_cands(
            pts,
            len,
            w,
            h,
        )[j].0
    &&& forall|j: int|
        0 <= j < l.weight_vec@.len() ==> #[trigger] l.weight_vec@[j] == flat_cands(
            pts,
            len,
            w,
            h,
        )[j].1
    &&& forall|o: int|
        0 <= o < len ==> #[trigger] l.ranges@[o] == (
            flat_cands(pts, o, w, h).len() as usize,
            flat_cands(pts, o + 1, w, h).len() as usize,
        )
}

/// Builds the candidate graph of a window, scaled to a raster of the given
/// pixel dimensions.  The graph depends only on the window and the
/// dimensions, so repeated calls agree.
pub fn permissible_lines(poly: &Polygon, dims: (u32, u32)) -> (r: Lines)
    requires
        3 <= poly.points@.len() <= 0x1_0000,
        coords_bounded(poly.points@),
        dims.0 <= 0x1_0000,
        dims.1 <= 0x1_0000,
    ensures
        lines_match(r, poly.points@, dims.0, dims.1, poly.iter_limit),
{
    let ghost pts = poly.points@;
    let w: u32 = dims.0;
    let h: u32 = dims.1;
    let len: usize = poly.points.len();
    let mut idx_vec: Vec<PolygonPoint> = Vec::new();
    let mut weight_vec: Vec<u64> = Vec::new();
    let mut ranges: Vec<(usize, usize)> = Vec::new();
    let mut o: usize = 0;
    while o < len
        invariant
            o <= len,
            3 <= len <= 0x1_0000,
            pts == poly.points@,
            pts.len() == len,
            coords_bounded(pts),
            w <= 0x1_0000,
            h <= 0x1_0000,
            ranges@.len() == o,
            idx_vec@.len() == flat_cands(pts, o as int, w, h).len(),
            weight_vec@.len() == flat_cands(pts, o as int, w, h).len(),
            forall|j: int|
                0 <= j < idx_vec@.len() ==> (#[trigger] idx_vec@[j]).0 == flat_cands(
                    pts,
                    o as int,
                    w,
                    h,
                )[j].0,
            forall|j: int|
                0 <= j < weight_vec@.len() ==> #[trigger] weight_vec@[j] == flat_cands(
                    pts,
                    o as int,
                    w,
                    h,
                )[j].1,
            forall|i: int|
                0 <= i < o ==> #[trigger] ranges@[i] == (
                    flat_cands(pts, i, w, h).len() as usize,
                    flat_cands(pts, i + 1, w, h).len() as usize,
                ),
        decreases len - o,
    {
        let start: usize = idx_vec.len();
        let mut k: usize = 2;
        while k < len - 1
            invariant
                2 <= k <= len - 1,
                o < len,
                3 <= len <= 0x1_0000,
                pts == poly.points@,
                pts.len() == len,
                coords_bounded(pts),
                w <= 0x1_0000,
                h <= 0x1_0000,
                start == flat_cands(pts, o as int, w, h).len(),
                idx_vec@.len() == start + origin_cands(pts, o as int, k as int, w, h).len(),
                weight_vec@.len() == idx_vec@.len(),
                forall|j: int|
                    0 <= j < start ==> (#[trigger] idx_vec@[j]).0 == flat_cands(
                        pts,
                        o as int,
                        w,
                        h,
                    )[j].0,
                forall|j: int|
                    0 <= j < start ==> #[trigger] weight_vec@[j] == flat_cands(
                        pts,
                        o as int,
                        w,
                        h,
                    )[j].1,
                forall|j: int|
                    start <= j < idx_vec@.len() ==> (#[trigger] idx_vec@[j]).0 == origin_cands(
                        pts,
                        o as int,
                        k as int,
                        w,
                        h,
                    )[j - start].0,
                forall|j: int|
                    start <= j < weight_vec@.len() ==> #[trigger] weight_vec@[j] == origin_cands(
                        pts,
                        o as int,
                        k as int,
                        w,
                        h,
                    )[j - start].1,
            decreases len - 1 - k,
        {
            let a1 = signed_area_at(poly, o + len + k - 1, o + len, o + len + k);
            let a2 = signed_area_at(poly, o + len + k + 1, o + len, o + len + k);
            if !(a1 > 0 || a2 < 0) {
                let target: usize = (o + k) % len;
                let wt: u64 = candidate_weight(poly, o, k, w, h);
                idx_vec.push(PolygonPoint(target));
                weight_vec.push(wt);
                proof {
                    lemma_mod_multiples_vanish(1, o + k, len as int);
                    assert((o + len + k) % (len as int) == (o + k) % (len as int));
                }
            }
            k = k + 1;
        }
        ranges.push((start, idx_vec.len()));
        proof {
            assert(origin_cands(pts, o as int, (len - 1) as int, w, h) == origin_cands_full(
                pts,
                o as int,
                w,
                h,
            ));
            assert(flat_cands(pts, o as int + 1, w, h) == flat_cands(pts, o as int, w, h)
                + origin_cands_full(pts, o as int, w, h));
            assert forall|j: int| 0 <= j < idx_vec@.len() implies (#[trigger] idx_vec@[j]).0
                == flat_cands(pts, o as int + 1, w, h)[j].0 by {
                if j < start {
                    assert(flat_cands(pts, o as int + 1, w, h)[j] == flat_cands(
                        pts,
                        o as int,
                        w,
                        h,
                    )[j]);
                }
            }
            assert forall|j: int| 0 <= j < weight_vec@.len() implies #[trigger] weight_vec@[j]
                == flat_cands(pts, o as int + 1, w, h)[j].1 by {
                if j < start {
                    assert(flat_cands(pts, o as int + 1, w, h)[j] == flat_cands(
                        pts,
                        o as int,
                        w,
                        h,
                    )[j]);
                }
            }
        }
        o = o + 1;
    }
    let total: usize = idx_vec.len();
    proof {
        assert(flat_cands(pts, len as int, w, h).len() == total);
    }
    Lines { idx_vec, weight_vec, ranges, iter_limit: poly.iter_limit }
}

/// A candidate's offset never lands back on its origin: the reduced target
/// index differs from the origin for every legal offset.
pub proof fn lemma_target_ne(o: int, j: int, len: int)
    requires
        0 <= o < len,
        2 <= j <= len - 2,
        3 <= len,
    ensures
        0 <= (o + j) % len < len,
        (o + j) % len != o,
{
    vstd::arithmetic::div_mod::lemma_mod_bound(o + j, len);
    if o + j < len {
        lemma_small_mod((o + j) as nat, len as nat);
    } else {
        lemma_mod_multiples_vanish(1, o + j - len, len);
        lemma_small_mod((o + j - len) as nat, len as nat);
    }
}

/// Whether a recorded candidate entry is justified: some offset below
/// `klim` passed the orientation test and yields exactly this target pin and
/// weight.
pub open spec fn cand_entry_ok(
    pts: Seq<(i64, i64)>,
    o: int,
    klim: int,
    w: u32,
    h: u32,
    c: (int, int),
) -> bool {
    exists|j: int|
        2 <= j < klim && #[trigger] accept(pts, o, j) && c.0 == (o + j) % (pts.len() as int)
            && c.1 == weight_of(pts, o, j, w, h)
}

/// A justified entry stays justified when the offset bound grows.
pub proof fn lemma_cand_entry_ok_widen(
    pts: Seq<(i64, i64)>,
    o: int,
    k1: int,
    k2: int,
    w: u32,
    h: u32,
    c: (int, int),
)
    requires
        k1 <= k2,
        cand_entry_ok(pts, o, k1, w, h, c),
    ensures
        cand_entry_ok(pts, o, k2, w, h, c),
{
    let j0 = choose|j: int|
        2 <= j < k1 && #[trigger] accept(pts, o, j) && c.0 == (o + j) % (pts.len() as int)
            && c.1 == weight_of(pts, o, j, w, h);
    assert(2 <= j0 < k2 && accept(pts, o, j0) && c.0 == (o + j0) % (pts.len() as int) && c.1
        == weight_of(pts, o, j0, w, h));
}

/// Candidate Graph Builder soundness, per origin: every candidate the graph
/// records for origin `o` names a pin other than `o`, within the window, and
/// stems from an offset that passed the orientation test, with that offset's
/// weight.
pub proof fn lemma_origin_cands_sound(pts: Seq<(i64, i64)>, o: int, k: int, w: u32, h: u32)
    requires
        3 <= pts.len(),
        0 <= o < pts.len(),
        2 <= k <= pts.len() - 1,
    ensures
        forall|i: int|
            0 <= i < origin_cands(pts, o, k, w, h).len() ==> cand_entry_ok(
                pts,
                o,
                k,
                w,
                h,
                #[trigger] origin_cands(pts, o, k, w, h)[i],
            ),
        forall|i: int|
            0 <= i < origin_cands(pts, o, k, w, h).len() ==> {
                let c = #[trigger] origin_cands(pts, o, k, w, h)[i];
                0 <= c.0 < pts.len() && c.0 != o
            },
    decreases k,
{
    let len = pts.len() as int;
    if k > 2 {
        lemma_origin_cands_sound(pts, o, k - 1, w, h);
        let prev = origin_cands(pts, o, k - 1, w, h);
        assert forall|i: int| 0 <= i < origin_cands(pts, o, k, w, h).len() implies cand_entry_ok(
            pts,
            o,
            k,
            w,
            h,
            #[trigger] origin_cands(pts, o, k, w, h)[i],
        ) by {
            if accept(pts, o, k - 1) && i == prev.len() {
                lemma_target_ne(o, k - 1, len);
                let c = origin_cands(pts, o, k, w, h)[i];
                assert(c == ((o + k - 1) % len, weight_of(pts, o, k - 1, w, h)));
                assert(2 <= k - 1 < k && accept(pts, o, k - 1) && c.0 == (o + k - 1) % (
                pts.len() as int) && c.1 == weight_of(pts, o, k - 1, w, h));
            } else {
                assert(origin_cands(pts, o, k, w, h)[i] == prev[i]);
                assert(cand_entry_ok(pts, o, k - 1, w, h, prev[i]));
                lemma_cand_entry_ok_widen(pts, o, k - 1, k, w, h, prev[i]);
            }
        }
        assert forall|i: int| 0 <= i < origin_cands(pts, o, k, w, h).len() implies {
            let c = #[trigger] origin_cands(pts, o, k, w, h)[i];
            0 <= c.0 < pts.len() && c.0 != o
        } by {
            if accept(pts, o, k - 1) && i == prev.len() {
                lemma_target_ne(o, k - 1, len);
            } else {
                assert(origin_cands(pts, o, k, w, h)[i] == prev[i]);
            }
        }
    }
}

/// Shorter prefixes of the flattened candidate list agree with longer ones.
pub proof fn lemma_flat_cands_prefix(pts: Seq<(i64, i64)>, n1: int, n2: int, w: u32, h: u32)
    requires
        0 <= n1 <= n2,
    ensures
        flat_cands(pts, n1, w, h).len() <= flat_cands(pts, n2, w, h).len(),
        forall|j: int|
            0 <= j < flat_cands(pts, n1, w, h).len() ==> #[trigger] flat_cands(pts, n2, w, h)[j]
                == flat_cands(pts, n1, w, h)[j],
    decreases n2 - n1,
{
    if n1 < n2 {
        lemma_flat_cands_prefix(pts, n1, n2 - 1, w, h);
    }
}

/// Candidate Graph Builder soundness over a built graph: within every
/// origin's range, no recorded candidate targets the origin itself, every
/// target is a pin of the window, and each entry stems from an offset that
/// passed the orientation test and carries that offset's weight.
pub proof fn lemma_candidate_graph_sound(
    l: Lines,
    pts: Seq<(i64, i64)>,
    w: u32,
    h: u32,
    cap: u32,
)
    requires
        lines_match(l, pts, w, h, cap),
        3 <= pts.len(),
    ensures
        forall|o: int, i: int|
            0 <= o < pts.len() && (#[trigger] l.ranges@[o]).0 <= i < l.ranges@[o].1 ==> {
                let t = (#[trigger] l.idx_vec@[i]).0;
                0 <= t < pts.len() && t != o
            },
        forall|o: int, i: int|
            0 <= o < pts.len() && (#[trigger] l.ranges@[o]).0 <= i < l.ranges@[o].1
                ==> cand_entry_ok(
                pts,
                o,
                pts.len() - 1,
                w,
                h,
                ((#[trigger] l.idx_vec@[i]).0 as int, l.weight_vec@[i] as int),
            ),
{
    let len = pts.len() as int;
    assert forall|o: int, i: int|
        0 <= o < len && (#[trigger] l.ranges@[o]).0 <= i < l.ranges@[o].1 implies {
        let t = (#[trigger] l.idx_vec@[i]).0;
        &&& 0 <= t < len
        &&& t != o
        &&& cand_entry_ok(pts, o, len - 1, w, h, (t as int, l.weight_vec@[i] as int))
    } by {
        lemma_origin_cands_sound(pts, o, len - 1, w, h);
        lemma_flat_cands_prefix(pts, o, o + 1, w, h);
        lemma_flat_cands_prefix(pts, o + 1, len, w, h);
        let base = flat_cands(pts, o, w, h).len() as int;
        assert(flat_cands(pts, o, w, h).len() <= usize::MAX);
        assert(flat_cands(pts, o + 1, w, h).len() <= usize::MAX);
        assert(l.ranges@[o].0 == base);
        assert(l.ranges@[o].1 == flat_cands(pts, o + 1, w, h).len());
        let ii = i - base;
        assert(flat_cands(pts, o + 1, w, h).len() == base + origin_cands_full(
            pts,
            o,
            w,
            h,
        ).len());
        assert(0 <= ii < origin_cands_full(pts, o, w, h).len());
        assert(flat_cands(pts, o + 1, w, h) == flat_cands(pts, o, w, h) + origin_cands_full(
            pts,
            o,
            w,
            h,
        ));
        assert(flat_cands(pts, o + 1, w, h)[i] == origin_cands_full(pts, o, w, h)[ii]);
        assert(flat_cands(pts, len, w, h)[i] == origin_cands_full(pts, o, w, h)[ii]);
        let c = origin_cands(pts, o, len - 1, w, h)[ii];
        assert(l.idx_vec@[i].0 == c.0);
        assert(l.weight_vec@[i] == c.1);
        assert(cand_entry_ok(pts, o, len - 1, w, h, c));
        assert((l.idx_vec@[i].0 as int, l.weight_vec@[i] as int) == c);
    }
}

/// Candidate Graph Builder determinism: two graphs built from the same
/// window and dimensions are the same graph.
pub proof fn lemma_candidate_graph_deterministic(
    l1: Lines,
    l2: Lines,
    pts: Seq<(i64, i64)>,
    w: u32,
    h: u32,
    cap: u32,
)
    requires
        lines_match(l1, pts, w, h, cap),
        lines_match(l2, pts, w, h, cap),
    ensures
        l1.idx_vec@ == l2.idx_vec@,
        l1.weight_vec@ == l2.weight_vec@,
        l1.ranges@ == l2.ranges@,
        l1.iter_limit == l2.iter_limit,
{
    assert(l1.idx_vec@ =~= l2.idx_vec@);
    assert(l1.weight_vec@ =~= l2.weight_vec@);
    assert(l1.ranges@ =~= l2.ranges@);
}

/// Evaluates `sarea` on machine integers.
fn signed_area_at(poly: &Polygon, a: usize, mid: usize, b: usize) -> (r: i64)
    requires
        3 <= poly.points@.len() <= 0x1_0000,
        coords_bounded(poly.points@),
        a <= 3 * poly.points@.len(),
        mid <= 3 * poly.points@.len(),
        b <= 3 * poly.points@.len(),
    ensures
        r == sarea(poly.points@, a as int, mid as int, b as int),
{
    let len: usize = poly.points.len();
    let pa = poly.points[a % len];
    let pm = poly.points[mid % len];
    let pb = poly.points[b % len];
    proof {
        lemma_mul_bounds_signed(pa.0 - pm.0, pb.1 - pm.1, 0x2_0000, 0x2_0000);
        lemma_mul_bounds_signed(pa.1 - pm.1, pb.0 - pm.0, 0x2_0000, 0x2_0000);
    }
    (pa.0 - pm.0) * (pb.1 - pm.1) - (pa.1 - pm.1) * (pb.0 - pm.0)
}

/// Computes the length weight of one candidate.
fn candidate_weight(poly: &Polygon, o: usize, k: usize, w: u32, h: u32) -> (r: u64)
    requires
        3 <= poly.points@.len() <= 0x1_0000,
        coords_bounded(poly.points@),
        o < poly.points@.len(),
        k < poly.points@.len(),
        w <= 0x1_0000,
        h <= 0x1_0000,
    ensures
        r == weight_of(poly.points@, o as int, k as int, w, h),
{
    let ghost pts = poly.points@;
    let len: usize = poly.points.len();
    proof {
        lemma_small_mod(o as nat, len as nat);
        vstd::arithmetic::div_mod::lemma_mod_bound((o + k) as int, len as int);
    }
    let po = poly.points[o % len];
    let pc = poly.points[(o + k) % len];
    proof {
        lemma_mul_bounds_signed(pc.0 - po.0, w as int, 0x2_0000, 0x1_0000);
        lemma_mul_bounds_signed(pc.1 - po.1, h as int, 0x2_0000, 0x1_0000);
    }
    let dx: i128 = ((pc.0 - po.0) as i128) * (w as i128);
    let dy: i128 = ((pc.1 - po.1) as i128) * (h as i128);
    proof {
        lemma_mul_bounds_signed(dx as int, dx as int, 0x2_0000_0000, 0x2_0000_0000);
        lemma_mul_bounds_signed(dy as int, dy as int, 0x2_0000_0000, 0x2_0000_0000);
        lemma_sq_nonneg(dx as int);
        lemma_sq_nonneg(dy as int);
    }
    let s2: i128 = dx * dx + dy * dy;
    let root: u64 = isqrt_u128(s2 as u128);
    proof {
        lemma_isqrt_spec_char(s2 as int);
        lemma_isqrt_unique(s2 as int, root as int, isqrt_spec(s2 as int));
    }
    root / 512
}

/// A candidate's weight stays well below 2^25: coordinates span at most two
/// units of 2^16 and dimensions at most 2^16 pixels.
pub proof fn lemma_weight_of_bound(pts: Seq<(i64, i64)>, o: int, k: int, w: u32, h: u32)
    requires
        pts.len() >= 1,
        coords_bounded(pts),
        w <= 0x1_0000,
        h <= 0x1_0000,
    ensures
        0 <= weight_of(pts, o, k, w, h) < 0x200_0000,
{
    let len = pts.len() as int;
    vstd::arithmetic::div_mod::lemma_mod_bound(o, len);
    vstd::arithmetic::div_mod::lemma_mod_bound(o + k, len);
    let po = pts[o % len];
    let pc = pts[(o + k) % len];
    lemma_mul_bounds_signed(pc.0 - po.0, w as int, 0x2_0000, 0x1_0000);
    lemma_mul_bounds_signed(pc.1 - po.1, h as int, 0x2_0000, 0x1_0000);
    let dx = (pc.0 - po.0) * w;
    let dy = (pc.1 - po.1) * h;
    lemma_mul_bounds_signed(dx, dx, 0x2_0000_0000, 0x2_0000_0000);
    lemma_mul_bounds_signed(dy, dy, 0x2_0000_0000, 0x2_0000_0000);
    lemma_sq_nonneg(dx);
    lemma_sq_nonneg(dy);
    let n = sq(dx) + sq(dy);
    lemma_isqrt_spec_char(n);
    let r = isqrt_spec(n);
    assert(r < 0x4_0000_0000) by {
        if r >= 0x4_0000_0000 {
            assert(sq(0x4_0000_0000) <= sq(r)) by (nonlinear_arith)
                requires
                    0x4_0000_0000 <= r,
            ;
        }
    }
    vstd::arithmetic::div_mod::lemma_div_is_ordered(r, 0x3_FFFF_FFFF, 512);
    vstd::arithmetic::div_mod::lemma_div_pos_is_pos(r, 512);
}

/// Every flattened entry names a pin of the window and carries a weight
/// below 2^25.
pub proof fn lemma_flat_cands_sound(pts: Seq<(i64, i64)>, n: int, w: u32, h: u32)
    requires
        3 <= pts.len(),
        n <= pts.len(),
        coords_bounded(pts),
        w <= 0x1_0000,
        h <= 0x1_0000,
    ensures
        forall|j: int|
            0 <= j < flat_cands(pts, n, w, h).len() ==> {
                let c = #[trigger] flat_cands(pts, n, w, h)[j];
                0 <= c.0 < pts.len() && 0 <= c.1 < 0x200_0000
            },
    decreases n,
{
    let len = pts.len() as int;
    if n > 0 {
        lemma_flat_cands_sound(pts, n - 1, w, h);
        lemma_origin_cands_sound(pts, n - 1, len - 1, w, h);
        let prev = flat_cands(pts, n - 1, w, h);
        let full = origin_cands_full(pts, n - 1, w, h);
        assert forall|j: int| 0 <= j < flat_cands(pts, n, w, h).len() implies {
            let c = #[trigger] flat_cands(pts, n, w, h)[j];
            0 <= c.0 < pts.len() && 0 <= c.1 < 0x200_0000
        } by {
            if j < prev.len() {
                assert(flat_cands(pts, n, w, h)[j] == prev[j]);
            } else {
                let c = full[j - prev.len()];
                assert(flat_cands(pts, n, w, h)[j] == c);
                assert(cand_entry_ok(pts, n - 1, len - 1, w, h, c));
                let j0 = choose|jj: int|
                    2 <= jj < len - 1 && #[trigger] accept(pts, n - 1, jj) && c.0 == (n - 1 + jj)
                        % (pts.len() as int) && c.1 == weight_of(pts, n - 1, jj, w, h);
                lemma_weight_of_bound(pts, n - 1, j0, w, h);
            }
        }
    }
}

/// A graph that matches a window is well formed for the planner: one range
/// per pin, ranges within the arrays, every target a pin, every weight
/// below 2^25.
pub proof fn lemma_lines_match_well_formed(
    l: Lines,
    pts: Seq<(i64, i64)>,
    w: u32,
    h: u32,
    cap: u32,
)
    requires
        lines_match(l, pts, w, h, cap),
        3 <= pts.len(),
        coords_bounded(pts),
        w <= 0x1_0000,
        h <= 0x1_0000,
    ensures
        l.ranges@.len() == pts.len(),
        l.idx_vec@.len() == l.weight_vec@.len(),
        forall|o: int|
            0 <= o < pts.len() ==> (#[trigger] l.ranges@[o]).0 <= l.ranges@[o].1
                <= l.idx_vec@.len(),
        forall|j: int| 0 <= j < l.idx_vec@.len() ==> (#[trigger] l.idx_vec@[j]).0 < pts.len(),
        forall|j: int| 0 <= j < l.weight_vec@.len() ==> #[trigger] l.weight_vec@[j] < 0x200_0000,
        graph_wf(l, pts.len() as int),
{
    let len = pts.len() as int;
    lemma_flat_cands_sound(pts, len, w, h);
    assert forall|o: int| 0 <= o < len implies (#[trigger] l.ranges@[o]).0 <= l.ranges@[o].1
        <= l.idx_vec@.len() by {
        lemma_flat_cands_prefix(pts, o, o + 1, w, h);
        lemma_flat_cands_prefix(pts, o + 1, len, w, h);
    }
    assert forall|j: int| 0 <= j < l.idx_vec@.len() implies (#[trigger] l.idx_vec@[j]).0
        < pts.len() by {
        assert(l.idx_vec@[j].0 == flat_cands(pts, len, w, h)[j].0);
    }
    assert forall|j: int| 0 <= j < l.weight_vec@.len() implies #[trigger] l.weight_vec@[j]
        < 0x200_0000 by {
        assert(l.weight_vec@[j] == flat_cands(pts, len, w, h)[j].1);
    }
}

/// Distinct legal offsets from one origin land on distinct pins.
pub proof fn lemma_offset_injective(o: int, j1: int, j2: int, len: int)
    requires
        0 <= o < len,
        2 <= j1 < j2 <= len - 2,
        3 <= len,
    ensures
        (o + j1) % len != (o + j2) % len,
{
    if o + j1 < len {
        lemma_small_mod((o + j1) as nat, len as nat);
    } else {
        lemma_mod_multiples_vanish(1, o + j1 - len, len);
        lemma_small_mod((o + j1 - len) as nat, len as nat);
    }
    if o + j2 < len {
        lemma_small_mod((o + j2) as nat, len as nat);
    } else {
        lemma_mod_multiples_vanish(1, o + j2 - len, len);
        lemma_small_mod((o + j2 - len) as nat, len as nat);
    }
}

/// One origin's accepted candidates target pairwise distinct pins.
pub proof fn lemma_origin_cands_distinct(pts: Seq<(i64, i64)>, o: int, k: int, w: u32, h: u32)
    requires
        3 <= pts.len(),
        0 <= o < pts.len(),
        2 <= k <= pts.len() - 1,
    ensures
        forall|i1: int, i2: int|
            0 <= i1 < i2 < origin_cands(pts, o, k, w, h).len() ==> (#[trigger] origin_cands(
                pts,
                o,
                k,
                w,
                h,
            )[i1]).0 != (#[trigger] origin_cands(pts, o, k, w, h)[i2]).0,
    decreases k,
{
    let len = pts.len() as int;
    if k > 2 {
        lemma_origin_cands_distinct(pts, o, k - 1, w, h);
        lemma_origin_cands_sound(pts, o, k - 1, w, h);
        let prev = origin_cands(pts, o, k - 1, w, h);
        assert forall|i1: int, i2: int|
            0 <= i1 < i2 < origin_cands(pts, o, k, w, h).len() implies (#[trigger] origin_cands(
            pts,
            o,
            k,
            w,
            h,
        )[i1]).0 != (#[trigger] origin_cands(pts, o, k, w, h)[i2]).0 by {
            if accept(pts, o, k - 1) && i2 == prev.len() {
                assert(origin_cands(pts, o, k, w, h)[i1] == prev[i1]);
                assert(origin_cands(pts, o, k, w, h)[i2].0 == (o + k - 1) % len);
                let c = prev[i1];
                assert(cand_entry_ok(pts, o, k - 1, w, h, c));
                let j0 = choose|j: int|
                    2 <= j < k - 1 && #[trigger] accept(pts, o, j) && c.0 == (o + j) % (
                    pts.len() as int) && c.1 == weight_of(pts, o, j, w, h);
                lemma_offset_injective(o, j0, k - 1, len);
            } else {
                assert(origin_cands(pts, o, k, w, h)[i1] == prev[i1]);
                assert(origin_cands(pts, o, k, w, h)[i2] == prev[i2]);
            }
        }
    }
}

/// In a graph that matches a window, no pin's range records the same target
/// twice — stated both over the graph's own arrays and over the integer
/// views the planner's run model reads.
pub proof fn lemma_lines_match_distinct(l: Lines, pts: Seq<(i64, i64)>, w: u32, h: u32, cap: u32)
    requires
        lines_match(l, pts, w, h, cap),
        3 <= pts.len(),
    ensures
        forall|o: int, j1: int, j2: int|
            #![trigger l.ranges@[o], l.idx_vec@[j1], l.idx_vec@[j2]]
            0 <= o < pts.len() && l.ranges@[o].0 <= j1 < l.ranges@[o].1 && l.ranges@[o].0 <= j2
                < l.ranges@[o].1 && j1 != j2 ==> l.idx_vec@[j1].0 != l.idx_vec@[j2].0,
        targets_distinct(
            Seq::new(l.idx_vec@.len(), |j: int| l.idx_vec@[j].0 as int),
            Seq::new(l.ranges@.len(), |j: int| (l.ranges@[j].0 as int, l.ranges@[j].1 as int)),
        ),
{
    let len = pts.len() as int;
    assert forall|o: int, j1: int, j2: int|
        #![trigger l.ranges@[o], l.idx_vec@[j1], l.idx_vec@[j2]]
        0 <= o < len && l.ranges@[o].0 <= j1 < l.ranges@[o].1 && l.ranges@[o].0 <= j2
            < l.ranges@[o].1 && j1 != j2 implies l.idx_vec@[j1].0 != l.idx_vec@[j2].0 by {
        lemma_origin_cands_distinct(pts, o, len - 1, w, h);
        lemma_flat_cands_prefix(pts, o, o + 1, w, h);
        lemma_flat_cands_prefix(pts, o + 1, len, w, h);
        let base = flat_cands(pts, o, w, h).len() as int;
        assert(flat_cands(pts, o, w, h).len() <= usize::MAX);
        assert(flat_cands(pts, o + 1, w, h).len() <= usize::MAX);
        assert(l.ranges@[o].0 == base);
        assert(l.ranges@[o].1 == flat_cands(pts, o + 1, w, h).len());
        assert(flat_cands(pts, o + 1, w, h) == flat_cands(pts, o, w, h) + origin_cands_full(
            pts,
            o,
            w,
            h,
        ));
        assert(flat_cands(pts, o + 1, w, h)[j1] == origin_cands_full(pts, o, w, h)[j1 - base]);
        assert(flat_cands(pts, o + 1, w, h)[j2] == origin_cands_full(pts, o, w, h)[j2 - base]);
        assert(flat_cands(pts, len, w, h)[j1] == origin_cands_full(pts, o, w, h)[j1 - base]);
        assert(flat_cands(pts, len, w, h)[j2] == origin_cands_full(pts, o, w, h)[j2 - base]);
        assert(l.idx_vec@[j1].0 == origin_cands(pts, o, len - 1, w, h)[j1 - base].0);
        assert(l.idx_vec@[j2].0 == origin_cands(pts, o, len - 1, w, h)[j2 - base].0);
    }
    let iv = Seq::new(l.idx_vec@.len(), |j: int| l.idx_vec@[j].0 as int);
    let rv = Seq::new(l.ranges@.len(), |j: int| (l.ranges@[j].0 as int, l.ranges@[j].1 as int));
    assert forall|o: int, j1: int, j2: int|
        #![trigger rv[o], iv[j1], iv[j2]]
        0 <= o < rv.len() && rv[o].0 <= j1 < rv[o].1 && rv[o].0 <= j2 < rv[o].1 && j1 != j2
        implies iv[j1] != iv[j2] by {
        assert(rv[o] == (l.ranges@[o].0 as int, l.ranges@[o].1 as int));
        lemma_flat_cands_prefix(pts, o + 1, len, w, h);
        assert(flat_cands(pts, o + 1, w, h).len() <= usize::MAX);
        assert(l.ranges@[o].1 == flat_cands(pts, o + 1, w, h).len());
        assert(j1 < l.idx_vec@.len());
        assert(j2 < l.idx_vec@.len());
        assert(iv[j1] == l.idx_vec@[j1].0 as int);
        assert(iv[j2] == l.idx_vec@[j2].0 as int);
    }
}

/// Accumulated length is the sum of the committed moves' weights: for a run
/// over a graph built for this window, at every iteration the run's length
/// equals the sum, over consecutive pins of its sequence, of the recorded
/// candidate weight between them — so it is non-decreasing, each summand
/// being a length.
pub proof fn lemma_plan_yarn_is_path_weight(
    image: GrayRaster,
    l: Lines,
    pts: Seq<(i64, i64)>,
    w: u32,
    h: u32,
    cap: u32,
    cof: int,
    cidx: int,
    darkness: u64,
    n: nat,
)
    requires
        lines_match(l, pts, w, h, cap),
        3 <= pts.len(),
        coords_bounded(pts),
        w <= 0x1_0000,
        h <= 0x1_0000,
    ensures
        ({
            let ctx = spec_plan_ctx(image, pts, l, cof, cidx);
            let m = iterate(ctx, darkness, plan_init(ctx, darkness), n);
            m.yarn == path_yarn(ctx, m.seq)
        }),
{
    let ctx = spec_plan_ctx(image, pts, l, cof, cidx);
    let len = pts.len() as int;
    lemma_lines_match_distinct(l, pts, w, h, cap);
    lemma_lines_match_well_formed(l, pts, w, h, cap);
    assert(ctx.idx =~= Seq::new(l.idx_vec@.len(), |j: int| l.idx_vec@[j].0 as int));
    assert(ctx.ranges =~= Seq::new(
        l.ranges@.len(),
        |j: int| (l.ranges@[j].0 as int, l.ranges@[j].1 as int),
    ));
    assert forall|o: int| 0 <= o < ctx.ranges.len() implies 0 <= (#[trigger] ctx.ranges[o]).0
        <= ctx.ranges[o].1 <= ctx.wts.len() by {
        assert(ctx.ranges[o] == (l.ranges@[o].0 as int, l.ranges@[o].1 as int));
        assert(l.ranges@[o].0 <= l.ranges@[o].1 <= l.idx_vec@.len());
    }
    assert forall|j: int| 0 <= j < ctx.idx.len() implies 0 <= #[trigger] ctx.idx[j]
        < ctx.ranges.len() by {
        assert(ctx.idx[j] == l.idx_vec@[j].0 as int);
        assert(l.idx_vec@[j].0 < pts.len());
    }
    lemma_run_yarn_is_path_weight(ctx, darkness, n);
}

/// The planner's run facts over a graph built for this window, at the run
/// context a plan call derives: the sequence starts at pin zero, visits
/// only the window's pins, and walks recorded candidate lines; an
/// unstopped run has committed one move per iteration; Covered means the
/// sixteen-fold budget is met, first crossed by the final move; and
/// LocalOptimum means it is not met and no candidate of the final pin
/// improves the final canvas.
pub proof fn lemma_plan_run_facts(
    image: GrayRaster,
    l: Lines,
    pts: Seq<(i64, i64)>,
    w: u32,
    h: u32,
    cap: u32,
    cof: int,
    cidx: int,
    darkness: u64,
    n: nat,
)
    requires
        lines_match(l, pts, w, h, cap),
        3 <= pts.len(),
        coords_bounded(pts),
        w <= 0x1_0000,
        h <= 0x1_0000,
    ensures
        ({
            let ctx = spec_plan_ctx(image, pts, l, cof, cidx);
            let m = iterate(ctx, darkness, plan_init(ctx, darkness), n);
            &&& m.seq.len() >= 1
            &&& m.seq[0] == 0
            &&& forall|i: int| 0 <= i < m.seq.len() ==> 0 <= #[trigger] m.seq[i] < pts.len()
            &&& (m.stopped is None ==> m.seq.len() == n + 1)
            &&& (m.stopped == Some(BreakReason::Covered) ==> m.yarn * 16 >= darkness)
            &&& (m.stopped == Some(BreakReason::LocalOptimum) ==> m.yarn * 16 < darkness)
            &&& forall|i: int|
                0 <= i < m.seq.len() - 1 ==> cand_recorded(ctx, #[trigger] m.seq[i], m.seq[i + 1])
        }),
{
    let ctx = spec_plan_ctx(image, pts, l, cof, cidx);
    let len = pts.len() as int;
    lemma_lines_match_distinct(l, pts, w, h, cap);
    lemma_lines_match_well_formed(l, pts, w, h, cap);
    assert(ctx.idx =~= Seq::new(l.idx_vec@.len(), |j: int| l.idx_vec@[j].0 as int));
    assert(ctx.ranges =~= Seq::new(
        l.ranges@.len(),
        |j: int| (l.ranges@[j].0 as int, l.ranges@[j].1 as int),
    ));
    assert forall|o: int| 0 <= o < ctx.ranges.len() implies 0 <= (#[trigger] ctx.ranges[o]).0
        <= ctx.ranges[o].1 <= ctx.wts.len() by {
        assert(ctx.ranges[o] == (l.ranges@[o].0 as int, l.ranges@[o].1 as int));
        assert(l.ranges@[o].0 <= l.ranges@[o].1 <= l.idx_vec@.len());
    }
    assert forall|j: int| 0 <= j < ctx.idx.len() implies 0 <= #[trigger] ctx.idx[j]
        < ctx.ranges.len() by {
        assert(ctx.idx[j] == l.idx_vec@[j].0 as int);
        assert(l.idx_vec@[j].0 < pts.len());
    }
    lemma_run_facts(ctx, darkness, n);
}

} // verus!
