//! Checks of the candidate graph builder.
use stringart::graph::permissible_lines;
use stringart::types::Polygon;

fn square() -> Polygon {
    Polygon {
        points: vec![(-65536, -65536), (-65536, 65536), (65536, 65536), (65536, -65536)],
        iter_limit: 512,
        names: vec!["a".into(), "b".into(), "c".into(), "d".into()],
    }
}

fn octagon() -> Polygon {
    Polygon {
        points: vec![
            (65536, 0),
            (46341, -46341),
            (0, -65536),
            (-46341, -46341),
            (-65536, 0),
            (-46341, 46341),
            (0, 65536),
            (46341, 46341),
        ],
        iter_limit: 512,
        names: (0..8).map(|i| format!("p{i}")).collect(),
    }
}

#[test]
fn square_has_only_diagonals() {
    let l = permissible_lines(&square(), (16, 16));
    assert_eq!(l.iter_limit, 512);
    assert_eq!(l.ranges.len(), 4);
    for o in 0..4usize {
        let (s, e) = l.ranges[o];
        assert_eq!(e - s, 1);
        assert_eq!(l.idx_vec[s].0, (o + 2) % 4);
        // The diagonal of a 16-pixel square window, at 256 per pixel.
        assert_eq!(l.weight_vec[s], 5792);
    }
}

#[test]
fn no_candidate_targets_its_origin_and_no_neighbors() {
    let l = permissible_lines(&octagon(), (64, 64));
    assert_eq!(l.ranges.len(), 8);
    for o in 0..8usize {
        let (s, e) = l.ranges[o];
        for j in s..e {
            let t = l.idx_vec[j].0;
            assert!(t < 8);
            assert_ne!(t, o);
            assert_ne!(t, (o + 1) % 8);
            assert_ne!(t, (o + 7) % 8);
        }
    }
}

#[test]
fn convex_octagon_accepts_all_chords() {
    let l = permissible_lines(&octagon(), (64, 64));
    for o in 0..8usize {
        let (s, e) = l.ranges[o];
        assert_eq!(e - s, 5);
        let targets: Vec<usize> = (s..e).map(|j| l.idx_vec[j].0).collect();
        let expected: Vec<usize> = (2..7).map(|k| (o + k) % 8).collect();
        assert_eq!(targets, expected);
    }
}

#[test]
fn builder_is_deterministic() {
    let a = permissible_lines(&octagon(), (48, 32));
    let b = permissible_lines(&octagon(), (48, 32));
    assert_eq!(a.idx_vec, b.idx_vec);
    assert_eq!(a.weight_vec, b.weight_vec);
    assert_eq!(a.ranges, b.ranges);
    assert_eq!(a.iter_limit, b.iter_limit);
}

#[test]
fn weights_scale_with_dimensions() {
    let small = permissible_lines(&octagon(), (16, 16));
    let large = permissible_lines(&octagon(), (64, 64));
    for j in 0..small.weight_vec.len() {
        assert!(small.weight_vec[j] < large.weight_vec[j]);
    }
}

#[test]
fn triangle_window_has_no_candidates() {
    let tri = Polygon {
        points: vec![(-65536, -65536), (0, 65536), (65536, -65536)],
        iter_limit: 7,
        names: vec!["a".into(), "b".into(), "c".into()],
    };
    let l = permissible_lines(&tri, (16, 16));
    assert_eq!(l.ranges.len(), 3);
    assert_eq!(l.idx_vec.len(), 0);
    for o in 0..3usize {
        let (s, e) = l.ranges[o];
        assert_eq!(s, e);
    }
}
