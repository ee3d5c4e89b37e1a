//! Scenario checks of the greedy path planner.
use stringart::graph::permissible_lines;
use stringart::planner::{plan, PlanError};
use stringart::raster::GrayRaster;
use stringart::score::{image_background, score_img_to_target};
use stringart::transfer::build_linear_table;
use stringart::types::{BreakReason, LineClass, Polygon, RgbSequence, Sequence};

fn square(iter_limit: u32) -> Polygon {
    Polygon {
        points: vec![(-65536, -65536), (-65536, 65536), (65536, 65536), (65536, -65536)],
        iter_limit,
        names: vec!["a".into(), "b".into(), "c".into(), "d".into()],
    }
}

fn octagon(iter_limit: u32) -> Polygon {
    Polygon {
        points: vec![
            (65536, 0),
            (46341, -46341),
            (0, -65536),
            (-46341, -46341),
            (-65536, 0),
            (-46341, 46341),
            (0, 65536),
            (46341, 46341),
        ],
        iter_limit,
        names: (0..8).map(|i| format!("p{i}")).collect(),
    }
}

fn uniform(w: u32, h: u32, v: u8) -> GrayRaster {
    GrayRaster::from_data(w, h, vec![v; (w * h) as usize]).unwrap()
}

/// The length weight of the recorded candidate from `a` to `b`.
fn weight_between(lines: &stringart::types::Lines, a: usize, b: usize) -> u64 {
    let (s, e) = lines.ranges[a];
    for j in s..e {
        if lines.idx_vec[j].0 == b {
            return lines.weight_vec[j];
        }
    }
    panic!("no candidate between the pins");
}

#[test]
fn already_white_target_covers_immediately() {
    // A target at full brightness owes no darkness: the budget is zero and
    // the run stops at its first iteration with a one-pin sequence.
    let img = uniform(16, 16, 255);
    let poly = square(512);
    let lines = permissible_lines(&poly, (16, 16));
    let class = LineClass { of: 1, idx: 0 };
    let seq = plan(&img, &poly, &lines, &class).unwrap();
    assert!(matches!(seq.break_reason, BreakReason::Covered));
    assert_eq!(seq.sequence.len(), 1);
    assert_eq!(seq.sequence[0].0, 0);
    assert_eq!(seq.yarn_length, 0);
}

#[test]
fn near_white_target_stops_at_local_optimum() {
    // A nearly white target is made worse by any dark segment, so no
    // candidate improves and the run stops where it started.
    let img = uniform(16, 16, 250);
    let poly = square(512);
    let lines = permissible_lines(&poly, (16, 16));
    let class = LineClass { of: 1, idx: 0 };
    let seq = plan(&img, &poly, &lines, &class).unwrap();
    assert!(matches!(seq.break_reason, BreakReason::LocalOptimum));
    assert_eq!(seq.sequence.len(), 1);
    assert_eq!(seq.yarn_length, 0);
}

#[test]
fn mid_gray_square_alternates_opposite_corners() {
    // In a 4-pin window only the diagonals are legal, so the run bounces
    // between opposite corners; the accumulated length is the number of
    // committed moves times the diagonal weight.  A single diagonal cannot
    // remove the light deficit of the whole square, so redrawing it stops
    // improving before the budget is covered and the run ends at a local
    // optimum rather than as Covered.
    let img = uniform(16, 16, 128);
    let poly = square(512);
    let lines = permissible_lines(&poly, (16, 16));
    let class = LineClass { of: 1, idx: 0 };
    let seq = plan(&img, &poly, &lines, &class).unwrap();
    assert!(matches!(seq.break_reason, BreakReason::LocalOptimum));
    assert!(seq.sequence.len() > 1);
    for (i, p) in seq.sequence.iter().enumerate() {
        assert_eq!(p.0, if i % 2 == 0 { 0 } else { 2 });
    }
    let diag = weight_between(&lines, 0, 2);
    assert_eq!(seq.yarn_length, (seq.sequence.len() as u64 - 1) * diag);
}

#[test]
fn accumulated_length_is_consistent_with_moves() {
    // The final length is exactly the sum of the weights of the committed
    // moves, and the sequence holds the initial pin plus one pin per move.
    let img = uniform(24, 24, 100);
    let poly = octagon(64);
    let lines = permissible_lines(&poly, (24, 24));
    let class = LineClass { of: 1, idx: 0 };
    let seq = plan(&img, &poly, &lines, &class).unwrap();
    let mut total: u64 = 0;
    for w in seq.sequence.windows(2) {
        total += weight_between(&lines, w[0].0, w[1].0);
    }
    assert_eq!(seq.yarn_length, total);
    assert!(seq.sequence.len() >= 1);
    assert_eq!(seq.sequence[0].0, 0);
}

#[test]
fn identical_inputs_give_identical_runs() {
    // Determinism: the generator is seeded from the darkness budget, so two
    // runs over the same target, graph and class agree byte for byte.
    let img = uniform(24, 24, 90);
    let poly = octagon(128);
    let lines1 = permissible_lines(&poly, (24, 24));
    let lines2 = permissible_lines(&poly, (24, 24));
    let class = LineClass { of: 2, idx: 1 };
    let a = plan(&img, &poly, &lines1, &class).unwrap();
    let b = plan(&img, &poly, &lines2, &class).unwrap();
    assert_eq!(a.break_reason, b.break_reason);
    assert_eq!(a.yarn_length, b.yarn_length);
    assert_eq!(a.sequence.len(), b.sequence.len());
    for (x, y) in a.sequence.iter().zip(b.sequence.iter()) {
        assert_eq!(x.0, y.0);
    }
}

#[test]
fn iteration_cap_limits_the_run() {
    // A dark target keeps improving moves available, so a tiny cap runs out
    // and the sequence holds the initial pin plus one pin per iteration.
    let img = uniform(24, 24, 40);
    let poly = octagon(2);
    let lines = permissible_lines(&poly, (24, 24));
    let class = LineClass { of: 1, idx: 0 };
    let seq = plan(&img, &poly, &lines, &class).unwrap();
    assert!(matches!(seq.break_reason, BreakReason::EndOfIteration));
    assert_eq!(seq.sequence.len(), 3);
}

#[test]
fn too_few_points_is_rejected() {
    let img = uniform(16, 16, 128);
    let tri = Polygon {
        points: vec![(-65536, -65536), (0, 65536), (65536, -65536)],
        iter_limit: 512,
        names: vec!["a".into(), "b".into(), "c".into()],
    };
    let lines = permissible_lines(&tri, (16, 16));
    let class = LineClass { of: 1, idx: 0 };
    let r = plan(&img, &tri, &lines, &class);
    assert!(matches!(r, Err(PlanError::TooFewPoints)));
}

#[test]
fn window_outside_raster_is_rejected() {
    let img = uniform(16, 16, 128);
    let mut poly = square(512);
    poly.points[2] = (131072, 131072);
    let lines = permissible_lines(&poly, (16, 16));
    let class = LineClass { of: 1, idx: 0 };
    let r = plan(&img, &poly, &lines, &class);
    assert!(matches!(r, Err(PlanError::RasterBounds)));
}

#[test]
fn collapsed_window_is_rejected() {
    // First and last pins landing on the same pixel make an unrasterizable
    // path; a window whose pins share one pixel row has no height.  Both
    // are reported as degenerate geometry, not planned.
    let img = uniform(16, 16, 128);
    let class = LineClass { of: 1, idx: 0 };

    let mut closed = square(512);
    closed.points.push((-65536, -65536));
    closed.names.push("e".into());
    let lines = permissible_lines(&closed, (16, 16));
    let r = plan(&img, &closed, &lines, &class);
    assert!(matches!(r, Err(PlanError::DegenerateWindow)));

    let flat = Polygon {
        points: vec![(-65536, 0), (-30000, 0), (30000, 0), (65536, 0)],
        iter_limit: 512,
        names: vec!["a".into(), "b".into(), "c".into(), "d".into()],
    };
    let lines = permissible_lines(&flat, (16, 16));
    let r = plan(&img, &flat, &lines, &class);
    assert!(matches!(r, Err(PlanError::DegenerateWindow)));
}

#[test]
fn channel_partitioning_biases_route_choice() {
    // Two channels share the window with class count 2.  A channel picks
    // lines of its own parity class at a higher rate than the channel that
    // is discouraged from them: aggregated over several runs, the odd-sum
    // rate of the channel favoring odd sums exceeds the odd-sum rate of the
    // channel discouraged from them.
    let poly = octagon(256);
    let lines = permissible_lines(&poly, (32, 32));
    let mut odd = [0u64; 2];
    let mut total = [0u64; 2];
    for idx in 0..2usize {
        let class = LineClass { of: 2, idx };
        for step in 0..10u8 {
            let g = 40 + step * 18;
            let img = uniform(32, 32, g);
            let seq = plan(&img, &poly, &lines, &class).unwrap();
            for w in seq.sequence.windows(2) {
                total[idx] += 1;
                if (w[0].0 + w[1].0) % 2 == 1 {
                    odd[idx] += 1;
                }
            }
        }
    }
    assert!(total[0] > 0 && total[1] > 0);
    assert!(odd[1] * total[0] > odd[0] * total[1]);
}

#[test]
fn budget_estimator_counts_masked_deficit() {
    // Over a full mask, a uniform target owes its per-pixel deficit once
    // per pixel; a full-white target owes nothing.
    let lin = build_linear_table();
    let mask = uniform(8, 8, 255);
    let gray = uniform(8, 8, 128);
    let white = uniform(8, 8, 255);
    assert_eq!(image_background(&mask, &gray, &lin), 64 * (65536 - 12533));
    assert_eq!(image_background(&mask, &white, &lin), 0);
    // Pixels outside the mask contribute nothing.
    let half_mask = GrayRaster::from_data(8, 8, {
        let mut v = vec![0u8; 64];
        for i in 0..32 {
            v[i] = 255;
        }
        v
    })
    .unwrap();
    assert_eq!(image_background(&half_mask, &gray, &lin), 32 * (65536 - 12533));
}

#[test]
fn scorer_measures_block_mean_mismatch() {
    // A canvas identical to the target scores zero; a uniformly lighter
    // canvas scores each 4-by-4 block's mean difference, scaled by 2^16 and
    // by 720720 / 16 per full block.
    let lin = build_linear_table();
    let mask = uniform(8, 8, 255);
    let target = uniform(8, 8, 128);
    let same = uniform(8, 8, 128);
    assert_eq!(score_img_to_target(&mask, &target, &same, &lin), 0);
    let lighter = uniform(8, 8, 200);
    // Per block: |16 * lin(200) - 16 * lin(128)| * (720720 / 16), 4 blocks.
    let per_block = 16u128 * (36580 - 12533) * 45045;
    assert_eq!(score_img_to_target(&mask, &target, &lighter, &lin), 4 * per_block);
    // Out-of-mask pixels do not count.
    let empty_mask = uniform(8, 8, 0);
    assert_eq!(score_img_to_target(&empty_mask, &target, &lighter, &lin), 0);
}

#[test]
fn channel_accessor_maps_indices() {
    let mut rgb = RgbSequence::default();
    rgb.channel(0).yarn_length = 1;
    rgb.channel(1).yarn_length = 2;
    rgb.channel(2).yarn_length = 3;
    assert_eq!(rgb.r.yarn_length, 1);
    assert_eq!(rgb.g.yarn_length, 2);
    assert_eq!(rgb.b.yarn_length, 3);
    assert_eq!(rgb.black.yarn_length, 0);
    let s = Sequence::default();
    assert_eq!(s.yarn_length, 0);
    assert!(matches!(s.break_reason, BreakReason::EndOfIteration));
}
