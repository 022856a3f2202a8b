use speedwing::editor::{Editor, BRUSH_RANGE};
use speedwing::grid_map::GridMap;

const ONE: i64 = 65536;
const HALF: i64 = 32768;

fn to_fixed(v: f64) -> i64 {
    (v * 65536.0).round() as i64
}

#[test]
fn the_brush_reaches_ten_cells() {
    assert_eq!(BRUSH_RANGE, 10);
    let _ = Editor::new();
}

#[test]
fn raising_lifts_the_cell_under_the_cursor_most() {
    let mut map = GridMap::new(ONE, 16, HALF, true);
    map.raise(0, 0, 10, HALF);
    // at the centre the target is one: half of the way from zero
    assert_eq!(map.get(0, 0), Some(HALF));
    // five cells away the target is one half
    assert_eq!(map.get(5, 0), Some(16384));
    assert_eq!(map.get(0, -5), Some(16384));
    assert_eq!(map.get(-3, 4), Some(16384));
    // at the reach of the brush and beyond, the target is zero or less
    assert_eq!(map.get(10, 0), Some(0));
    assert_eq!(map.get(10, 10), Some(0));
    assert_eq!(map.get(-10, -10), Some(0));
    // past the window nothing is written, but the chunks of the window are there
    assert_eq!(map.get(11, 0), Some(0));
    assert_eq!(map.get(15, 15), Some(0));
    assert_eq!(map.get(-16, -16), Some(0));
    assert_eq!(map.get(16, 0), None);
    assert_eq!(map.get(-17, 0), None);
}

#[test]
fn raising_again_goes_the_same_fraction_of_what_is_left() {
    let mut map = GridMap::new(ONE, 16, HALF, true);
    map.raise(0, 0, 10, HALF);
    map.raise(0, 0, 10, HALF);
    assert_eq!(map.get(0, 0), Some(49152));
    assert_eq!(map.get(5, 0), Some(24576));
    map.raise(0, 0, 10, ONE);
    assert_eq!(map.get(0, 0), Some(ONE));
    assert_eq!(map.get(5, 0), Some(HALF));
    map.raise(0, 0, 10, 4 * ONE);
    assert_eq!(map.get(0, 0), Some(ONE));
    assert_eq!(map.get(5, 0), Some(HALF));
}

#[test]
fn raising_never_lowers_a_cell() {
    let mut map = GridMap::new(ONE, 16, HALF, true);
    map.set(9, 0, 60000);
    map.set(0, 0, 60000);
    map.raise(0, 0, 10, HALF);
    assert_eq!(map.get(9, 0), Some(60000));
    assert_eq!(map.get(0, 0), Some(60000 + (ONE - 60000) / 2));
}

#[test]
fn lowering_digs_deepest_under_the_cursor() {
    let mut map = GridMap::new(ONE, 16, HALF, true);
    for x in -16..16 {
        for y in -16..16 {
            map.set(x, y, ONE);
        }
    }
    map.lower(0, 0, 10, HALF);
    assert_eq!(map.get(0, 0), Some(HALF));
    assert_eq!(map.get(5, 0), Some(49152));
    assert_eq!(map.get(10, 0), Some(ONE));
    assert_eq!(map.get(10, 10), Some(ONE));
    assert_eq!(map.get(11, 0), Some(ONE));
    map.lower(0, 0, 10, ONE);
    assert_eq!(map.get(0, 0), Some(0));
    assert_eq!(map.get(5, 0), Some(HALF));
    assert_eq!(map.get(3, -4), Some(HALF));
}

#[test]
fn lowering_never_raises_a_cell() {
    let mut map = GridMap::new(ONE, 16, HALF, true);
    map.set(8, 0, 100);
    map.lower(0, 0, 10, ONE);
    assert_eq!(map.get(8, 0), Some(100));
    assert_eq!(map.get(0, 0), Some(0));
}

#[test]
fn the_brush_is_centred_on_the_cursor_between_cells() {
    let mut map = GridMap::new(to_fixed(10.0), 16, HALF, true);
    // the cursor stands at cell 2.5: cells 2 and 3 are both half a cell away
    map.raise(to_fixed(25.0), 0, 10, ONE);
    assert_eq!(map.get(2, 0), Some(ONE - 3276));
    assert_eq!(map.get(3, 0), Some(ONE - 3276));
    // the window is centred on the cell that holds the cursor
    assert_eq!(map.get(-8, 0), Some(0));
    assert_eq!(map.get(12, 0), Some(ONE - 62259));
    assert_eq!(map.get(13, 0), Some(0));
    assert_eq!(map.get(2, 10), map.get(3, 10));
}

#[test]
fn a_brush_of_another_size() {
    let mut map = GridMap::new(ONE, 16, HALF, true);
    map.raise(0, 0, 2, ONE);
    assert_eq!(map.get(0, 0), Some(ONE));
    assert_eq!(map.get(1, 0), Some(HALF));
    assert_eq!(map.get(2, 0), Some(0));
    assert_eq!(map.get(1, 1), Some(ONE - 46340));
    assert_eq!(map.get(3, 0), Some(0));
    let mut none = GridMap::new(ONE, 16, HALF, true);
    none.raise(0, 0, 0, ONE);
    assert_eq!(none.get(0, 0), None);
}

#[test]
fn the_brush_does_nothing_where_it_does_not_fit() {
    let mut map = GridMap::new(0, 16, HALF, true);
    map.raise(0, 0, 10, ONE);
    assert_eq!(map.get(0, 0), None);
    let mut far = GridMap::new(1, 16, HALF, true);
    far.raise(i64::MAX, 0, 10, ONE);
    assert_eq!(far.get(0, 0), None);
    let mut edge = GridMap::new(ONE, 16, HALF, true);
    edge.raise((i32::MAX as i64 - 5) * ONE, 0, 10, ONE);
    assert_eq!(edge.get(i32::MAX - 5, 0), None);
    edge.raise((i32::MAX as i64 - 10) * ONE, 0, 10, ONE);
    assert_eq!(edge.get(i32::MAX - 10, 0), Some(ONE));
    assert_eq!(edge.get(i32::MAX, 0), Some(0));
}

#[test]
fn the_mouse_raises_with_the_left_button_and_lowers_with_the_right() {
    let mut map = GridMap::new(ONE, 16, HALF, true);
    Editor::handle_mouse(&mut map, (0, 0), false, false, ONE);
    assert_eq!(map.get(0, 0), None);
    Editor::handle_mouse(&mut map, (0, 0), true, false, HALF);
    assert_eq!(map.get(0, 0), Some(HALF));
    assert_eq!(map.get(9, 0), Some(3277));
    assert_eq!(map.get(10, 0), Some(0));
    Editor::handle_mouse(&mut map, (0, 0), false, true, ONE);
    assert_eq!(map.get(0, 0), Some(0));
    // both buttons: the left one counts
    Editor::handle_mouse(&mut map, (0, 0), true, true, ONE);
    assert_eq!(map.get(0, 0), Some(ONE));
}

#[test]
fn a_stroke_marks_its_chunks_for_meshing() {
    let mut map = GridMap::new(ONE, 16, HALF, true);
    map.raise(0, 0, 10, ONE);
    let made = map.manage_meshes();
    assert_eq!(made.len(), 4);
    assert!(map.manage_meshes().is_empty());
    map.lower(20 * ONE, 20 * ONE, 3, ONE);
    let made = map.manage_meshes();
    assert_eq!(made.len(), 1);
    assert_eq!(made[0].0, (1, 1));
}
