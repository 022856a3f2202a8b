use noise::{NoiseFn, Perlin};
use speedwing::grid::{sample_coord, shape, Grid, MAX_SIDE};
use std::cell::RefCell;

const ONE: i64 = 65536;
const HALF: i64 = 32768;

fn to_fixed(v: f64) -> i64 {
    (v * 65536.0).round() as i64
}

fn perlin_source(seed: u32) -> impl Fn(i64, i64) -> i64 {
    let perlin = Perlin::new(seed);
    move |x: i64, y: i64| to_fixed(perlin.get([x as f64 / 65536.0, y as f64 / 65536.0]))
}

fn cells(grid: &Grid) -> Vec<Option<i64>> {
    let mut out = Vec::new();
    for y in 0..grid.height() {
        for x in 0..grid.width() {
            out.push(grid.get(x, y));
        }
    }
    out
}

fn ramp(width: u32, height: u32) -> Grid {
    let mut grid = Grid::new(0, 0, width, height, ONE);
    for y in 0..height {
        for x in 0..width {
            grid.set(x, y, (x as i64 + 10 * y as i64) * 100);
        }
    }
    grid
}

#[test]
fn a_new_chunk_is_all_zero() {
    let grid = Grid::new(to_fixed(100.0), to_fixed(-20.0), 3, 2, to_fixed(10.0));
    assert_eq!(grid.width(), 3);
    assert_eq!(grid.height(), 2);
    assert_eq!(grid.origin(), (to_fixed(100.0), to_fixed(-20.0)));
    assert_eq!(grid.spacing(), to_fixed(10.0));
    assert!(!grid.changed());
    assert!(!grid.meshed());
    assert_eq!(cells(&grid), vec![Some(0); 6]);
}

#[test]
fn the_largest_chunk_side_fits_a_mesh_into_32_bit_indices() {
    assert_eq!(MAX_SIDE, 21845);
    assert!(9 * (MAX_SIDE as u64) * (MAX_SIDE as u64) <= u32::MAX as u64);
    let grid = Grid::new(0, 0, 0, MAX_SIDE, ONE);
    assert_eq!(grid.get(0, 0), None);
}

#[test]
fn get_is_none_outside_the_chunk() {
    let grid = Grid::new(0, 0, 3, 2, ONE);
    assert_eq!(grid.get(2, 1), Some(0));
    assert_eq!(grid.get(3, 0), None);
    assert_eq!(grid.get(0, 2), None);
    assert_eq!(grid.get(u32::MAX, u32::MAX), None);
}

#[test]
fn set_writes_one_cell_and_marks_the_chunk() {
    let mut grid = Grid::new(0, 0, 3, 2, ONE);
    grid.set(1, 1, 12345);
    assert!(grid.changed());
    assert_eq!(
        cells(&grid),
        vec![Some(0), Some(0), Some(0), Some(0), Some(12345), Some(0)]
    );
    grid.set(2, 0, 7);
    assert_eq!(grid.get(2, 0), Some(7));
    assert_eq!(grid.get(1, 1), Some(12345));
}

#[test]
fn set_clamps_to_the_unit_interval() {
    let mut grid = Grid::new(0, 0, 2, 2, ONE);
    grid.set(0, 0, to_fixed(1.5));
    grid.set(1, 0, -5);
    grid.set(0, 1, ONE);
    grid.set(1, 1, i64::MAX);
    assert_eq!(cells(&grid), vec![Some(ONE), Some(0), Some(ONE), Some(ONE)]);
}

#[test]
fn set_outside_the_chunk_changes_nothing() {
    let mut grid = Grid::new(0, 0, 2, 2, ONE);
    grid.set(2, 0, HALF);
    grid.set(0, 2, HALF);
    assert!(!grid.changed());
    assert_eq!(cells(&grid), vec![Some(0); 4]);
}

#[test]
fn mark_meshed_clears_the_changed_flag() {
    let mut grid = Grid::new(0, 0, 2, 2, ONE);
    grid.set(0, 0, HALF);
    grid.mark_meshed();
    assert!(grid.meshed());
    assert!(!grid.changed());
    assert_eq!(grid.get(0, 0), Some(HALF));
    grid.set(0, 0, HALF);
    assert!(grid.meshed());
    assert!(grid.changed());
}

#[test]
fn get_bridge_reads_own_cells_first() {
    let grid = ramp(2, 2);
    let other = ramp(2, 2);
    assert_eq!(grid.get_bridge(1, 1, &None), Some(1100));
    assert_eq!(grid.get_bridge(1, 1, &Some([Some(&other), None, None])), Some(1100));
    assert_eq!(grid.get_bridge(2, 0, &None), None);
}

#[test]
fn get_bridge_reaches_into_the_three_neighbours() {
    let grid = Grid::new(0, 0, 2, 2, ONE);
    let mut diagonal = Grid::new(0, 0, 2, 2, ONE);
    let mut right = Grid::new(0, 0, 2, 2, ONE);
    let mut up = Grid::new(0, 0, 2, 2, ONE);
    diagonal.set(0, 0, 111);
    diagonal.set(1, 1, 112);
    right.set(0, 0, 221);
    right.set(1, 1, 222);
    up.set(0, 0, 331);
    up.set(1, 1, 332);
    let bridges = Some([Some(&diagonal), Some(&right), Some(&up)]);
    assert_eq!(grid.get_bridge(2, 2, &bridges), Some(111));
    assert_eq!(grid.get_bridge(3, 3, &bridges), Some(112));
    assert_eq!(grid.get_bridge(2, 0, &bridges), Some(221));
    assert_eq!(grid.get_bridge(3, 1, &bridges), Some(222));
    assert_eq!(grid.get_bridge(0, 2, &bridges), Some(331));
    assert_eq!(grid.get_bridge(1, 3, &bridges), Some(332));
    assert_eq!(grid.get_bridge(4, 0, &bridges), None);
    assert_eq!(grid.get_bridge(0, 4, &bridges), None);
    assert_eq!(grid.get_bridge(4, 4, &bridges), None);
}

#[test]
fn get_bridge_without_a_diagonal_falls_to_the_neighbour_in_x() {
    let grid = Grid::new(0, 0, 2, 2, ONE);
    let mut right = Grid::new(0, 0, 2, 4, ONE);
    right.set(0, 2, 555);
    let mut up = Grid::new(0, 0, 4, 2, ONE);
    up.set(2, 0, 777);
    // past both edges, no diagonal: the neighbour in x is asked for (x - width, y)
    assert_eq!(grid.get_bridge(2, 2, &Some([None, Some(&right), Some(&up)])), Some(555));
    // no neighbour in x either: the neighbour in y is asked for (x, y - height)
    assert_eq!(grid.get_bridge(2, 2, &Some([None, None, Some(&up)])), Some(777));
    assert_eq!(grid.get_bridge(2, 2, &Some([None, None, None])), None);
}

#[test]
fn gets_bridge_is_exact_at_cells_and_even_between_them() {
    let grid = ramp(3, 3);
    assert_eq!(grid.gets_bridge(0, 0, &None), Some(0));
    assert_eq!(grid.gets_bridge(ONE, ONE, &None), Some(1100));
    assert_eq!(grid.gets_bridge(ONE + HALF, ONE, &None), Some(1150));
    assert_eq!(grid.gets_bridge(ONE, ONE + HALF, &None), Some(1600));
    assert_eq!(grid.gets_bridge(HALF, HALF, &None), Some(550));
    assert_eq!(grid.gets_bridge(16384, 0, &None), Some(25));
}

#[test]
fn gets_bridge_needs_all_four_samples() {
    let grid = ramp(3, 3);
    assert_eq!(grid.gets_bridge(2 * ONE, 0, &None), None);
    assert_eq!(grid.gets_bridge(0, 2 * ONE, &None), None);
    assert_eq!(grid.gets_bridge(-1, 0, &None), None);
    assert_eq!(grid.gets_bridge(0, -1, &None), None);
    assert_eq!(grid.gets_bridge(i64::MAX, i64::MAX, &None), None);
    assert_eq!(grid.gets_bridge(i64::MIN, 0, &None), None);
    let right = ramp(3, 3);
    let up = ramp(3, 3);
    let diagonal = ramp(3, 3);
    let bridges = Some([Some(&diagonal), Some(&right), Some(&up)]);
    // between the last column and the first column of the neighbour in x
    assert_eq!(grid.gets_bridge(2 * ONE + HALF, 0, &bridges), Some(100));
    assert_eq!(grid.gets_bridge(2 * ONE + HALF, 2 * ONE + HALF, &bridges), Some(1100));
}

#[test]
fn shape_moves_and_squares_a_noise_value() {
    assert_eq!(shape(-ONE), 0);
    assert_eq!(shape(0), 16384);
    assert_eq!(shape(ONE), ONE);
    assert_eq!(shape(HALF), 36864);
    assert_eq!(shape(-HALF), 4096);
    assert_eq!(shape(2 * ONE), ONE);
    assert_eq!(shape(-3 * ONE), ONE);
    assert_eq!(shape(i64::MAX), ONE);
    assert_eq!(shape(i64::MIN), ONE);
    assert_eq!(shape(1), 16384);
    assert_eq!(shape(-1), 16383);
}

#[test]
fn sample_coord_steps_from_the_offset() {
    assert_eq!(sample_coord(0, 3277, 100), 100);
    assert_eq!(sample_coord(4, 3277, 100), 13208);
    assert_eq!(sample_coord(4, -3277, 100), -13008);
    assert_eq!(sample_coord(u32::MAX, i64::MAX, 0), i64::MAX);
    assert_eq!(sample_coord(2, i64::MIN, 0), i64::MIN);
    assert_eq!(sample_coord(1, i64::MAX, 1), i64::MAX);
}

#[test]
fn generate_asks_the_noise_column_by_column() {
    let asked = RefCell::new(Vec::new());
    let mut grid = Grid::new(0, 0, 2, 3, ONE);
    grid.generate(
        |x: i64, y: i64| {
            asked.borrow_mut().push((x, y));
            0
        },
        10,
        (1000, 2000),
    );
    assert_eq!(
        asked.into_inner(),
        vec![(1000, 2000), (1000, 2010), (1000, 2020), (1010, 2000), (1010, 2010), (1010, 2020)]
    );
    assert_eq!(cells(&grid), vec![Some(16384); 6]);
    assert!(grid.changed());
}

#[test]
fn generate_shapes_every_value() {
    let mut grid = Grid::new(0, 0, 3, 2, ONE);
    grid.set(0, 0, ONE);
    grid.mark_meshed();
    grid.generate(|x: i64, y: i64| x + y, HALF, (-ONE, 0));
    // noise values: x + y with x in {-1, -0.5, 0} and y in {0, 0.5}
    assert_eq!(
        cells(&grid),
        vec![Some(0), Some(4096), Some(16384), Some(4096), Some(16384), Some(36864)]
    );
    assert!(grid.changed());
    assert!(grid.meshed());
    assert_eq!(grid.width(), 3);
    assert_eq!(grid.height(), 2);
}

#[test]
fn generate_on_an_empty_chunk_changes_nothing() {
    let mut grid = Grid::new(0, 0, 0, 5, ONE);
    grid.generate(|_x: i64, _y: i64| ONE, 1, (0, 0));
    assert!(!grid.changed());
}

#[test]
fn generating_twice_gives_the_same_cells() {
    let mut first = Grid::new(0, 0, 16, 16, to_fixed(10.0));
    let mut second = Grid::new(0, 0, 16, 16, to_fixed(10.0));
    first.generate(perlin_source(42), to_fixed(0.05), (0, 0));
    second.generate(perlin_source(42), to_fixed(0.05), (0, 0));
    assert_eq!(cells(&first), cells(&second));
    second.generate(perlin_source(42), to_fixed(0.05), (0, 0));
    assert_eq!(cells(&first), cells(&second));
    let mut other = Grid::new(0, 0, 16, 16, to_fixed(10.0));
    other.generate(perlin_source(43), to_fixed(0.05), (0, 0));
    assert_ne!(cells(&first), cells(&other));
}

#[test]
fn generated_chunk_holds_unit_values_and_takes_a_clamped_write() {
    let mut grid = Grid::new(0, 0, 16, 16, to_fixed(10.0));
    grid.generate(perlin_source(42), to_fixed(0.05), (0, 0));
    let centre = grid.get(8, 8).unwrap();
    assert!((0..=ONE).contains(&centre));
    for v in cells(&grid) {
        assert!((0..=ONE).contains(&v.unwrap()));
    }
    grid.set(8, 8, ONE);
    assert_eq!(grid.get(8, 8), Some(ONE));
    grid.set(8, 8, to_fixed(7.5));
    assert_eq!(grid.get(8, 8), Some(ONE));
}

#[test]
fn generated_chunk_follows_the_noise() {
    let perlin = Perlin::new(42);
    let mut grid = Grid::new(0, 0, 4, 4, ONE);
    grid.generate(perlin_source(42), to_fixed(0.05), (to_fixed(0.3), to_fixed(0.7)));
    for x in 0..4u32 {
        for y in 0..4u32 {
            let px = x as i64 * to_fixed(0.05) + to_fixed(0.3);
            let py = y as i64 * to_fixed(0.05) + to_fixed(0.7);
            let v = perlin.get([px as f64 / 65536.0, py as f64 / 65536.0]);
            let want = ((v + 1.0) / 2.0).powf(2.0);
            let got = grid.get(x, y).unwrap() as f64 / 65536.0;
            assert!((want - got).abs() < 1e-4, "{x} {y}: {want} {got}");
        }
    }
}

#[test]
fn segments_of_a_single_peak() {
    let mut grid = Grid::new(0, 0, 3, 3, ONE);
    grid.set(1, 1, ONE);
    let segments = grid.gen_segments(HALF, false);
    // cells in the walk: (0,0) (0,1) (1,0) (1,1); the peak is a corner of each
    assert_eq!(
        segments,
        vec![
            ((ONE, HALF), (HALF, ONE)),
            ((HALF, ONE), (ONE, ONE + HALF)),
            ((ONE + HALF, ONE), (ONE, HALF)),
            ((ONE + HALF, ONE), (ONE, ONE + HALF)),
        ]
    );
    let smooth = grid.gen_segments(16384, true);
    assert_eq!(smooth[0], ((ONE, 16384), (16384, ONE)));
}

#[test]
fn segments_of_flat_or_tiny_chunks_are_none() {
    assert!(Grid::new(0, 0, 3, 3, ONE).gen_segments(HALF, true).is_empty());
    assert!(Grid::new(0, 0, 0, 3, ONE).gen_segments(HALF, true).is_empty());
    assert!(Grid::new(0, 0, 3, 0, ONE).gen_segments(HALF, true).is_empty());
    let mut one = Grid::new(0, 0, 1, 1, ONE);
    one.set(0, 0, ONE);
    assert!(one.gen_segments(HALF, true).is_empty());
    let mut row = Grid::new(0, 0, 4, 1, ONE);
    row.set(1, 0, ONE);
    assert!(row.gen_segments(HALF, true).is_empty());
    let mut full = Grid::new(0, 0, 2, 2, ONE);
    for (x, y) in [(0, 0), (1, 0), (0, 1), (1, 1)] {
        full.set(x, y, ONE);
    }
    assert!(full.gen_segments(HALF, true).is_empty());
}

#[test]
fn triangles_of_a_single_cell_without_neighbours() {
    let mut grid = Grid::new(0, 0, 1, 1, ONE);
    grid.set(0, 0, ONE);
    // the three far samples are missing: only the chunk's own corner is inside
    assert_eq!(grid.gen_triangles(HALF, false, &None), vec![((HALF, 0), (0, HALF), (0, 0))]);
    assert_eq!(grid.gen_triangles(HALF, true, &None), vec![((HALF, 0), (0, HALF), (0, 0))]);
    assert_eq!(grid.gen_triangles(ONE, true, &None), vec![]);
}

#[test]
fn triangles_walk_the_chunk_column_by_column() {
    let mut grid = Grid::new(0, 0, 2, 2, ONE);
    grid.set(0, 0, ONE);
    grid.set(1, 1, ONE);
    let triangles = grid.gen_triangles(HALF, false, &None);
    assert_eq!(
        triangles,
        vec![
            // cell (0, 0): its own sample and the one across are inside, a saddle
            ((0, 0), (HALF, 0), (0, HALF)),
            ((ONE, HALF), (ONE, ONE), (HALF, ONE)),
            // cell (0, 1): only the sample next in x is inside
            ((HALF, ONE), (ONE, ONE), (ONE, ONE + HALF)),
            // cell (1, 0): only the sample next in y is inside
            ((ONE, HALF), (ONE + HALF, ONE), (ONE, ONE)),
            // cell (1, 1): only its own sample is inside
            ((ONE + HALF, ONE), (ONE, ONE + HALF), (ONE, ONE)),
        ]
    );
}

#[test]
fn triangles_are_stitched_to_the_neighbours() {
    let mut grid = Grid::new(0, 0, 1, 1, ONE);
    grid.set(0, 0, ONE);
    let mut right = Grid::new(0, 0, 1, 1, ONE);
    right.set(0, 0, ONE);
    let mut up = Grid::new(0, 0, 1, 1, ONE);
    up.set(0, 0, ONE);
    let mut diagonal = Grid::new(0, 0, 1, 1, ONE);
    diagonal.set(0, 0, ONE);
    let all = Some([Some(&diagonal), Some(&right), Some(&up)]);
    assert_eq!(
        grid.gen_triangles(HALF, true, &all),
        vec![((0, 0), (ONE, 0), (ONE, ONE)), ((0, 0), (ONE, ONE), (0, ONE))]
    );
    let only_right = Some([None, Some(&right), None]);
    assert_eq!(
        grid.gen_triangles(HALF, false, &only_right),
        vec![((0, 0), (ONE, 0), (ONE, HALF)), ((0, 0), (ONE, HALF), (0, HALF))]
    );
}

#[test]
fn attributes_flatten_the_triangles() {
    let mut grid = Grid::new(0, 0, 2, 2, ONE);
    grid.set(0, 0, ONE);
    grid.set(1, 1, ONE);
    let triangles = grid.gen_triangles(HALF, true, &None);
    let mesh = grid.gen_attributes(HALF, true, &None);
    assert_eq!(triangles.len(), 5);
    assert_eq!(mesh.positions.len(), 15);
    assert_eq!(mesh.colours, vec![[HALF, HALF, HALF, ONE]; 15]);
    assert_eq!(mesh.indices, (0..15).collect::<Vec<u32>>());
    assert_eq!(mesh.vs.len(), 15);
    for (i, t) in triangles.iter().enumerate() {
        assert_eq!(mesh.positions[3 * i], [t.0 .0, t.0 .1, 0]);
        assert_eq!(mesh.positions[3 * i + 1], [t.1 .0, t.1 .1, 0]);
        assert_eq!(mesh.positions[3 * i + 2], [t.2 .0, t.2 .1, 0]);
    }
}

#[test]
fn attributes_shade_by_the_height_above_the_threshold() {
    let mut grid = Grid::new(0, 0, 2, 2, ONE);
    for (x, y) in [(0, 0), (1, 0), (0, 1), (1, 1)] {
        grid.set(x, y, ONE);
    }
    let mesh = grid.gen_attributes(HALF, true, &None);
    // cell (0, 0) is full: two triangles with corners on the four samples; the other
    // cells reach past the chunk, where the field has no value
    assert_eq!(&mesh.positions[0..3], &[[0, 0, 0], [ONE, 0, 0], [ONE, ONE, 0]]);
    // only the vertex at the origin has all four samples of its stencil
    assert_eq!(mesh.vs[0], ONE);
    assert_eq!(mesh.vs[1], 0);
    assert_eq!(mesh.vs[2], 0);
    assert_eq!(grid.shade(0, 0, HALF, &None), ONE);
    assert_eq!(grid.shade(HALF, HALF, 0, &None), ONE);
    assert_eq!(grid.shade(ONE, ONE, HALF, &None), 0);
    assert_eq!(grid.shade(0, 0, ONE, &None), 0);
    let mut low = Grid::new(0, 0, 2, 2, ONE);
    for (x, y) in [(0, 0), (1, 0), (0, 1), (1, 1)] {
        low.set(x, y, 49152);
    }
    // (0.75 - 0.5) / (1 - 0.5)
    assert_eq!(low.shade(0, 0, HALF, &None), HALF);
    // (0.75 - 0.875) / (1 - 0.875)
    assert_eq!(low.shade(0, 0, 57344, &None), -ONE);
    // (0.75 - 2) / (1 - 2)
    assert_eq!(low.shade(0, 0, 2 * ONE, &None), 81920);
}

#[test]
fn attributes_of_an_empty_field_are_empty() {
    let grid = Grid::new(0, 0, 4, 4, ONE);
    let mesh = grid.gen_attributes(HALF, true, &None);
    assert!(mesh.positions.is_empty());
    assert!(mesh.colours.is_empty());
    assert!(mesh.indices.is_empty());
    assert!(mesh.vs.is_empty());
}

#[test]
fn to_world_scales_by_the_spacing_from_the_origin() {
    let grid = Grid::new(to_fixed(100.0), to_fixed(-20.0), 4, 4, to_fixed(10.0));
    assert_eq!(grid.to_world((0, 0)), (to_fixed(100.0), to_fixed(-20.0)));
    assert_eq!(grid.to_world((ONE, 2 * ONE)), (to_fixed(110.0), to_fixed(0.0)));
    assert_eq!(grid.to_world((HALF, -HALF)), (to_fixed(105.0), to_fixed(-25.0)));
    assert_eq!(grid.to_world((1, -1)), (to_fixed(100.0) + 10, to_fixed(-20.0) - 10));
    assert_eq!(grid.to_world((i64::MAX, i64::MIN)), (i64::MAX, i64::MIN));
}

#[test]
fn corners_span_the_chunk_in_the_world() {
    let grid = Grid::new(to_fixed(100.0), to_fixed(-20.0), 16, 8, to_fixed(10.0));
    assert_eq!(
        grid.corners(),
        [
            (to_fixed(100.0), to_fixed(-20.0)),
            (to_fixed(260.0), to_fixed(60.0)),
            (to_fixed(260.0), to_fixed(-20.0)),
            (to_fixed(100.0), to_fixed(60.0)),
        ]
    );
    let far = Grid::new(i64::MAX, i64::MIN, 2, 2, -ONE);
    assert_eq!(far.corners()[1], (i64::MAX - 2 * ONE, i64::MIN));
}

#[test]
fn a_chunk_is_in_view_when_one_corner_is() {
    let grid = Grid::new(0, 0, 4, 4, ONE);
    let asked = RefCell::new(Vec::new());
    let seen = grid.in_viewport(|p: (i64, i64)| {
        asked.borrow_mut().push(p);
        p == (4 * ONE, 0)
    });
    assert!(seen);
    // the corners are asked in order, up to the first that is in view
    assert_eq!(asked.into_inner(), vec![(0, 0), (4 * ONE, 4 * ONE), (4 * ONE, 0)]);
    assert!(grid.in_viewport(|p: (i64, i64)| p == (0, 0)));
    assert!(grid.in_viewport(|p: (i64, i64)| p == (0, 4 * ONE)));
    assert!(!grid.in_viewport(|p: (i64, i64)| p == (2 * ONE, 2 * ONE)));
    assert!(!grid.in_viewport(|_p: (i64, i64)| false));
}
