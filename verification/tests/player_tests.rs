use speedwing::grid_map::GridMap;
use speedwing::player::{
    next_step, offset_by, scaled, slide, Player, FIRST_STEP, MARGIN, MAX_STEPS,
};

const ONE: i64 = 65536;
const HALF: i64 = 32768;

fn to_fixed(v: f64) -> i64 {
    (v * 65536.0).round() as i64
}

/// A field of spacing one that is level at `value` everywhere on the square of
/// cells from -8 up to 23.
fn level(value: i64) -> GridMap {
    let mut map = GridMap::new(ONE, 16, HALF, true);
    for x in -8..24 {
        for y in -8..24 {
            map.set(x, y, value);
        }
    }
    map
}

/// A field of spacing one that rises with x: zero up to cell 4, one from cell 12
/// on, and an eighth more with each cell between them.
fn wall() -> GridMap {
    let mut map = GridMap::new(ONE, 16, HALF, true);
    for x in -16..32 {
        for y in -16..32 {
            map.set(x, y, ((x as i64 - 4) * 8192).clamp(0, ONE));
        }
    }
    map
}

#[test]
fn constants_of_the_push_out_search() {
    assert_eq!(MARGIN, to_fixed(0.02));
    assert_eq!(FIRST_STEP, to_fixed(0.05));
    assert_eq!(MAX_STEPS, 16);
}

#[test]
fn probe_points_outline_the_body() {
    let want: Vec<(i64, i64)> = [
        (0.0, 0.0),
        (-125.0, -125.0),
        (125.0, -125.0),
        (0.0, 200.0),
        (-95.0, 25.0),
        (95.0, 25.0),
    ]
    .iter()
    .map(|p| (to_fixed(p.0), to_fixed(p.1)))
    .collect();
    assert_eq!(Player::points().to_vec(), want);
}

#[test]
fn vectors_add_and_scale_with_saturation() {
    assert_eq!(offset_by((1, 2), (10, -20)), (11, -18));
    assert_eq!(offset_by((i64::MAX, i64::MIN), (1, -1)), (i64::MAX, i64::MIN));
    assert_eq!(scaled((ONE, -3 * ONE), HALF), (HALF, -3 * HALF));
    assert_eq!(scaled((1, -1), HALF), (0, -1));
    assert_eq!(scaled((i64::MAX, i64::MIN), 2 * ONE), (i64::MAX, i64::MIN));
    assert_eq!(scaled((i64::MAX, i64::MIN), -2 * ONE), (i64::MIN, i64::MAX));
}

#[test]
fn slide_removes_the_part_along_the_normal() {
    assert_eq!(slide((3 * ONE, 5 * ONE), (ONE, 0)), (0, 5 * ONE));
    assert_eq!(slide((3 * ONE, 5 * ONE), (0, -ONE)), (3 * ONE, 0));
    assert_eq!(slide((3 * ONE, 5 * ONE), (0, 0)), (3 * ONE, 5 * ONE));
    // along the diagonal (0.6, 0.8): v = (10, 0), v.n = 6, v - 6 n = (6.4, -4.8)
    let n = (39322, 52429);
    let slid = slide((10 * ONE, 0), n);
    assert!((slid.0 - to_fixed(6.4)).abs() <= 16);
    assert!((slid.1 - to_fixed(-4.8)).abs() <= 16);
    let along = (slid.0 * n.0 + slid.1 * n.1) / ONE;
    assert!(along.abs() <= 16, "{along}");
}

#[test]
fn each_nudge_is_half_the_last_the_other_way() {
    let mut step = FIRST_STEP;
    let mut seen = vec![step];
    while step != 0 {
        step = next_step(step);
        seen.push(step);
    }
    assert_eq!(seen, vec![3277, -1638, 819, -409, 204, -102, 51, -25, 12, -6, 3, -1, 0]);
    assert!(seen.len() as u32 <= MAX_STEPS);
    assert_eq!(next_step(0), 0);
    assert_eq!(next_step(i64::MIN), 1 << 62);
    assert_eq!(next_step(i64::MAX), -(i64::MAX / 2));
}

#[test]
fn nothing_collides_with_an_empty_world() {
    let map = GridMap::new(ONE, 16, HALF, true);
    let player = Player::new();
    let offsets = Player::points().to_vec();
    assert_eq!(player.is_colliding(&map, HALF, (0, 0), &offsets), None);
    let motion = player.apply_velocity(&map, HALF, &offsets, (ONE, ONE), (ONE, -ONE), HALF);
    assert_eq!(motion.position, (ONE + HALF, HALF));
    assert_eq!(motion.velocity, (ONE, -ONE));
    assert_eq!(motion.normal, None);
    assert!(motion.settled);
}

#[test]
fn a_body_in_the_open_moves_by_its_velocity() {
    let map = wall();
    let player = Player::new();
    let offsets = vec![(0, 0), (HALF, 0), (-HALF, 0)];
    assert_eq!(map.get_world(2 * ONE, 2 * ONE), Some(0));
    assert_eq!(player.is_colliding(&map, HALF, (2 * ONE, 2 * ONE), &offsets), None);
    let motion =
        player.apply_velocity(&map, HALF, &offsets, (2 * ONE, 2 * ONE), (ONE, 2 * ONE), 6554);
    assert_eq!(motion.position, (2 * ONE + 6554, 2 * ONE + 13108));
    assert_eq!(motion.velocity, (ONE, 2 * ONE));
    assert_eq!(motion.normal, None);
    assert!(motion.settled);
}

#[test]
fn a_probe_inside_the_wall_collides_along_the_slope() {
    let map = wall();
    let player = Player::new();
    // the field is 0.5 at x = 8 and passes the margin a little further in
    assert_eq!(map.get_world(8 * ONE, 2 * ONE), Some(HALF));
    assert_eq!(player.is_colliding(&map, HALF, (8 * ONE, 2 * ONE), &vec![(0, 0)]), None);
    assert_eq!(
        player.is_colliding(&map, HALF, (8 * ONE + 10486, 2 * ONE), &vec![(0, 0)]),
        None
    );
    assert_eq!(
        player.is_colliding(&map, HALF, (8 * ONE + 10496, 2 * ONE), &vec![(0, 0)]),
        Some((ONE, 0))
    );
    // one probe inside is enough, wherever the body stands
    assert_eq!(
        player.is_colliding(&map, HALF, (5 * ONE, 2 * ONE), &vec![(0, 0), (4 * ONE, 0)]),
        Some((ONE, 0))
    );
    assert_eq!(
        player.is_colliding(&map, HALF, (5 * ONE, 2 * ONE), &vec![(0, 0), (3 * ONE, 0)]),
        None
    );
    assert_eq!(player.is_colliding(&map, HALF, (9 * ONE, 2 * ONE), &vec![]), None);
}

#[test]
fn the_threshold_moves_the_surface() {
    let map = wall();
    let player = Player::new();
    let offsets = vec![(0, 0)];
    let place = (7 * ONE, 2 * ONE);
    assert_eq!(map.get_world(place.0, place.1), Some(24576));
    assert_eq!(player.is_colliding(&map, HALF, place, &offsets), None);
    assert_eq!(player.is_colliding(&map, 16384, place, &offsets), Some((ONE, 0)));
    assert_eq!(player.is_colliding(&map, 24576 - MARGIN, place, &offsets), None);
    assert_eq!(player.is_colliding(&map, 24576 - MARGIN - 1, place, &offsets), Some((ONE, 0)));
    assert_eq!(player.is_colliding(&map, i64::MAX, place, &offsets), None);
    assert_eq!(player.is_colliding(&map, i64::MIN, place, &offsets), Some((ONE, 0)));
}

#[test]
fn normals_of_several_probes_are_averaged() {
    let mut map = GridMap::new(ONE, 16, HALF, true);
    // a field that rises with x on the right and with y at the top
    for x in -16..32 {
        for y in -16..32 {
            let v = if y >= 16 { (y as i64 - 16) * 8192 } else { (x as i64 - 4) * 8192 };
            map.set(x, y, v.clamp(0, ONE));
        }
    }
    let player = Player::new();
    let right = (10 * ONE, 2 * ONE);
    let top = (2 * ONE, 21 * ONE);
    assert_eq!(player.is_colliding(&map, HALF, right, &vec![(0, 0)]), Some((ONE, 0)));
    assert_eq!(player.is_colliding(&map, HALF, top, &vec![(0, 0)]), Some((0, ONE)));
    let both = player
        .is_colliding(&map, HALF, (0, 0), &vec![right, top])
        .unwrap();
    // the unit vector along (1, 1), rounded toward zero
    assert_eq!(both, (46340, 46340));
}

#[test]
fn a_level_field_above_the_threshold_has_no_normal_to_push_along() {
    let map = level(39322);
    let player = Player::new();
    let offsets = vec![(0, 0), (ONE, 0), (0, ONE)];
    assert_eq!(map.get_world(4 * ONE, 4 * ONE), Some(39322));
    assert_eq!(map.get_normal_world(4 * ONE, 4 * ONE), Some((0, 0)));
    assert_eq!(player.is_colliding(&map, HALF, (4 * ONE, 4 * ONE), &offsets), None);
    let motion = player.apply_velocity(&map, HALF, &offsets, (4 * ONE, 4 * ONE), (ONE, 0), ONE);
    assert_eq!(motion.position, (5 * ONE, 4 * ONE));
    assert_eq!(motion.velocity, (ONE, 0));
    assert_eq!(motion.normal, None);
}

#[test]
fn running_into_the_wall_slides_along_it() {
    let map = wall();
    let player = Player::new();
    let offsets = vec![(0, 0), (HALF, 0), (-HALF, 0), (0, HALF)];
    let start = (7 * ONE, 2 * ONE);
    let velocity = (4 * ONE, 3 * ONE);
    assert_eq!(player.is_colliding(&map, HALF, start, &offsets), None);
    let motion = player.apply_velocity(&map, HALF, &offsets, start, velocity, HALF);
    let normal = motion.normal.unwrap();
    assert_eq!(normal, (ONE, 0));
    // the part of the velocity along the normal is gone, the rest is kept
    assert_eq!(motion.velocity, (0, 3 * ONE));
    let along = (motion.velocity.0 * normal.0 + motion.velocity.1 * normal.1) / ONE;
    assert_eq!(along, 0);
    // the body was free where it started: the search settles at once, and the body
    // moves along the wall by what is left of its velocity
    assert!(motion.settled);
    assert_eq!(motion.position, (7 * ONE, 2 * ONE + 3 * HALF));
    for offset in &offsets {
        let p = offset_by(motion.position, *offset);
        assert!(map.get_world(p.0, p.1).unwrap() <= HALF + MARGIN);
    }
}

#[test]
fn a_body_inside_the_wall_is_pushed_out_against_the_normal() {
    let map = wall();
    let player = Player::new();
    let offsets = vec![(0, 0)];
    // just inside: the field passes the threshold and the margin by a hair
    let start = (8 * ONE + 10496, 2 * ONE);
    assert_eq!(player.is_colliding(&map, HALF, start, &offsets), Some((ONE, 0)));
    let motion = player.apply_velocity(&map, HALF, &offsets, start, (0, 0), ONE);
    assert_eq!(motion.normal, Some((ONE, 0)));
    assert_eq!(motion.velocity, (0, 0));
    assert!(motion.settled);
    // the first nudge is taken back and half of it made the other way
    assert_eq!(motion.position, (start.0 - FIRST_STEP - 1638, start.1));
    assert_eq!(player.is_colliding(&map, HALF, motion.position, &offsets), None);
    assert!(map.get_world(motion.position.0, motion.position.1).unwrap() <= HALF + MARGIN);
}

#[test]
fn a_body_deep_inside_the_wall_stays_inside_when_the_search_gives_up() {
    let map = wall();
    let player = Player::new();
    let offsets = vec![(0, 0)];
    let start = (10 * ONE, 2 * ONE);
    let motion = player.apply_velocity(&map, HALF, &offsets, start, (0, 0), ONE);
    assert_eq!(motion.normal, Some((ONE, 0)));
    assert!(!motion.settled);
    // the nudges shrink to nothing around a place one first step against the normal
    assert!((motion.position.0 - (start.0 - FIRST_STEP)).abs() <= 2);
    assert_eq!(motion.position.1, start.1);
    assert!(player.is_colliding(&map, HALF, motion.position, &offsets).is_some());
}

#[test]
fn the_agent_remembers_the_normal_under_it() {
    let map = wall();
    let mut player = Player::new();
    assert_eq!(player.normal, (0, 0));
    player.update_normal(&map, (8 * ONE, 2 * ONE));
    assert_eq!(player.normal, (ONE, 0));
    // where the field has no normal the last one is kept
    player.update_normal(&map, (1000 * ONE, 2 * ONE));
    assert_eq!(player.normal, (ONE, 0));
    player.update_normal(&map, (0, 2 * ONE));
    assert_eq!(player.normal, (0, 0));
}
