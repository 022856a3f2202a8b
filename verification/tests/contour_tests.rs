use speedwing::contour::{
    case_segment, case_triangles, cell_segment, cell_triangles, classify, crossing, edge_ratio,
    is_inside,
};

const ONE: i64 = 65536;
const HALF: i64 = 32768;

fn double_area(t: &((i64, i64), (i64, i64), (i64, i64))) -> i64 {
    (t.1 .0 - t.0 .0) * (t.2 .1 - t.0 .1) - (t.1 .1 - t.0 .1) * (t.2 .0 - t.0 .0)
}

#[test]
fn classify_sets_one_bit_per_sample() {
    assert_eq!(classify(false, false, false, false), 0);
    assert_eq!(classify(true, false, false, false), 1);
    assert_eq!(classify(false, true, false, false), 2);
    assert_eq!(classify(false, false, true, false), 4);
    assert_eq!(classify(false, false, false, true), 8);
    assert_eq!(classify(true, true, true, true), 15);
    assert_eq!(classify(true, false, false, true), 9);
}

#[test]
fn a_sample_is_inside_only_above_the_threshold() {
    assert!(is_inside(Some(HALF + 1), HALF));
    assert!(!is_inside(Some(HALF), HALF));
    assert!(!is_inside(Some(0), HALF));
    assert!(!is_inside(None, HALF));
    assert!(!is_inside(None, -5));
    assert!(is_inside(Some(0), -5));
}

#[test]
fn edge_ratio_interpolates_between_the_samples() {
    assert_eq!(edge_ratio(HALF, 0, ONE), 32768);
    assert_eq!(edge_ratio(HALF, ONE, 0), 32768);
    assert_eq!(edge_ratio(16384, 0, ONE), 16384);
    assert_eq!(edge_ratio(16384, ONE, 0), 49152);
    // 0.5 between 0.25 and 1.0 lies a third of the way
    assert_eq!(edge_ratio(HALF, 16384, ONE), 21845);
}

#[test]
fn edge_ratio_is_held_to_the_edge() {
    assert_eq!(edge_ratio(ONE * 2, 0, ONE), 65536);
    assert_eq!(edge_ratio(-ONE, 0, ONE), 0);
    assert_eq!(edge_ratio(i64::MAX, i64::MIN, 0), 65536);
    assert_eq!(edge_ratio(i64::MIN, 0, i64::MAX), 0);
    assert_eq!(edge_ratio(i64::MIN, i64::MAX, i64::MIN), 65536);
}

#[test]
fn edge_ratio_of_equal_samples_goes_to_an_end() {
    assert_eq!(edge_ratio(HALF, 100, 100), 65536);
    assert_eq!(edge_ratio(50, 100, 100), 0);
    assert_eq!(edge_ratio(100, 100, 100), 0);
}

#[test]
fn crossing_without_smoothing_is_the_midpoint() {
    assert_eq!(crossing(HALF, false, 0, ONE), 32768);
    assert_eq!(crossing(16384, false, 0, ONE), 32768);
    assert_eq!(crossing(16384, true, 0, ONE), 16384);
}

#[test]
fn every_case_has_its_number_of_triangles() {
    let expected = [0, 1, 1, 2, 1, 2, 2, 3, 1, 2, 2, 3, 2, 3, 3, 2];
    for code in 0u8..16 {
        let ts = case_triangles(code, 0, 0, 32768, 32768, 32768, 32768);
        assert_eq!(ts.len(), expected[code as usize], "case {code}");
    }
    assert_eq!(case_triangles(16, 0, 0, 1, 2, 3, 4).len(), 0);
    assert_eq!(case_triangles(255, 0, 0, 1, 2, 3, 4).len(), 0);
}

#[test]
fn triangle_counts_follow_the_number_of_inside_corners() {
    for code in 0u8..16 {
        let n = code.count_ones();
        let want = match n {
            0 => 0,
            1 => 1,
            2 => 2,
            3 => 3,
            _ => 2,
        };
        assert_eq!(case_triangles(code, 3, 4, 1, 2, 3, 4).len(), want);
    }
}

#[test]
fn midpoint_triangles_fill_the_solid_part_of_the_cell() {
    // doubled areas in eighths of the doubled cell area
    let eighths = [0, 1, 1, 4, 1, 4, 2, 7, 1, 2, 4, 7, 4, 7, 7, 8];
    for code in 0u8..16 {
        let ts = case_triangles(code, 0, 0, 32768, 32768, 32768, 32768);
        let mut total = 0;
        for t in &ts {
            let a = double_area(t);
            assert!(a > 0, "case {code} has a triangle that is not counter-clockwise");
            for p in [t.0, t.1, t.2] {
                assert!(0 <= p.0 && p.0 <= ONE && 0 <= p.1 && p.1 <= ONE);
            }
            total += a;
        }
        assert_eq!(total, eighths[code as usize] * HALF * HALF, "case {code}");
    }
}

#[test]
fn a_case_and_its_opposite_fill_the_cell() {
    for code in 0u8..16 {
        if code == 6 || code == 9 {
            continue;
        }
        let mut total = 0;
        for t in case_triangles(code, 0, 0, 32768, 32768, 32768, 32768) {
            total += double_area(&t);
        }
        for t in case_triangles(15 - code, 0, 0, 32768, 32768, 32768, 32768) {
            total += double_area(&t);
        }
        assert_eq!(total, 2 * ONE * ONE);
    }
}

#[test]
fn single_corner_triangle_sits_in_its_corner() {
    let x = 2u32;
    let y = 5u32;
    let bx = 2 * ONE;
    let by = 5 * ONE;
    assert_eq!(
        case_triangles(1, x, y, 100, 200, 300, 400),
        vec![((bx + 100, by), (bx, by + 400), (bx, by))]
    );
    assert_eq!(
        case_triangles(2, x, y, 100, 200, 300, 400),
        vec![((bx + 100, by), (bx + ONE, by), (bx + ONE, by + 200))]
    );
    assert_eq!(
        case_triangles(4, x, y, 100, 200, 300, 400),
        vec![((bx, by + 400), (bx + 300, by + ONE), (bx, by + ONE))]
    );
    assert_eq!(
        case_triangles(8, x, y, 100, 200, 300, 400),
        vec![((bx + ONE, by + 200), (bx + ONE, by + ONE), (bx + 300, by + ONE))]
    );
}

#[test]
fn saddles_split_into_two_corner_triangles() {
    let ts = case_triangles(9, 0, 0, 32768, 32768, 32768, 32768);
    assert_eq!(
        ts,
        vec![
            ((0, 0), (HALF, 0), (0, HALF)),
            ((ONE, HALF), (ONE, ONE), (HALF, ONE)),
        ]
    );
    let ts = case_triangles(6, 0, 0, 32768, 32768, 32768, 32768);
    assert_eq!(
        ts,
        vec![
            ((ONE, 0), (ONE, HALF), (HALF, 0)),
            ((0, ONE), (0, HALF), (HALF, ONE)),
        ]
    );
}

#[test]
fn full_cell_is_a_quad_of_two_triangles() {
    assert_eq!(
        case_triangles(15, 1, 1, 7, 7, 7, 7),
        vec![
            ((ONE, ONE), (2 * ONE, ONE), (2 * ONE, 2 * ONE)),
            ((ONE, ONE), (2 * ONE, 2 * ONE), (ONE, 2 * ONE)),
        ]
    );
}

#[test]
fn segments_run_between_the_crossed_edges() {
    let e0 = (100, 0);
    let e1 = (ONE, 200);
    let e2 = (300, ONE);
    let e3 = (0, 400);
    let seg = |code| case_segment(code, 0, 0, 100, 200, 300, 400);
    assert_eq!(seg(0), None);
    assert_eq!(seg(15), None);
    assert_eq!(seg(16), None);
    assert_eq!(seg(1), Some((e0, e3)));
    assert_eq!(seg(14), Some((e0, e3)));
    assert_eq!(seg(2), Some((e0, e1)));
    assert_eq!(seg(13), Some((e0, e1)));
    assert_eq!(seg(4), Some((e2, e3)));
    assert_eq!(seg(11), Some((e2, e3)));
    assert_eq!(seg(8), Some((e1, e2)));
    assert_eq!(seg(7), Some((e1, e2)));
    assert_eq!(seg(3), Some((e1, e3)));
    assert_eq!(seg(12), Some((e1, e3)));
    assert_eq!(seg(5), Some((e0, e2)));
    assert_eq!(seg(10), Some((e0, e2)));
    assert_eq!(seg(9), Some(((ONE, 0), (0, ONE))));
    assert_eq!(seg(6), Some(((0, 0), (ONE, ONE))));
}

#[test]
fn cell_triangles_classify_and_interpolate() {
    // only the cell's own sample is inside; smooth crossings at a quarter of each edge
    let ts = cell_triangles(HALF, true, 0, 0, Some(ONE), Some(0), Some(0), Some(0), );
    assert_eq!(ts, vec![((HALF, 0), (0, HALF), (0, 0))]);
    let ts = cell_triangles(16384, true, 0, 0, Some(ONE), Some(0), Some(0), Some(0));
    assert_eq!(ts, vec![((49152, 0), (0, 49152), (0, 0))]);
    let ts = cell_triangles(16384, false, 0, 0, Some(ONE), Some(0), Some(0), Some(0));
    assert_eq!(ts, vec![((HALF, 0), (0, HALF), (0, 0))]);
}

#[test]
fn missing_samples_count_as_outside_and_zero() {
    let ts = cell_triangles(HALF, true, 0, 0, Some(ONE), None, None, None);
    assert_eq!(ts, vec![((HALF, 0), (0, HALF), (0, 0))]);
    assert!(cell_triangles(HALF, true, 0, 0, None, None, None, None).is_empty());
    assert_eq!(cell_segment(HALF, true, 0, 0, None, None, None, None), None);
    assert_eq!(
        cell_segment(HALF, true, 0, 0, Some(ONE), None, None, None),
        Some(((HALF, 0), (0, HALF)))
    );
}
