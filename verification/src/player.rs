//! The collision of the agent with the surface of the field: detection at
//! probe points, push-out, and sliding along the surface.

use vstd::prelude::*;
use crate::common::floor_div;
use crate::fixed::{
    div_floor_i128, is_unit, lemma_normalize_unit, normalize, sat64, saturate, spec_normalize,
};
use crate::grid_map::{GridMap, GridMapView};

verus! {

/// How far above the iso-level the field must stand at a probe point for
/// the point to count as inside the terrain: 0.02.
pub const MARGIN: i64 = 1311;

/// The length of the first nudge of the push-out search: 0.05.
pub const FIRST_STEP: i64 = 3277;

/// The largest number of nudges of one push-out search.
pub const MAX_STEPS: u32 = 16;

/// The agent: it remembers the last normal of the field under it.
pub struct Player {
    pub normal: (i64, i64),
}

/// What one frame made of the agent.
pub struct Motion {
    /// Where the agent stands after the frame.
    pub position: (i64, i64),
    /// How fast it moves after the frame.
    pub velocity: (i64, i64),
    /// The normal of the terrain that it ran into, if it ran into any.
    pub normal: Option<(i64, i64)>,
    /// Whether the push-out search ended on a place free of terrain.
    pub settled: bool,
}

/// What one frame made of the agent, as plain mathematical values.
pub struct SpecMotion {
    pub position: (int, int),
    pub velocity: (int, int),
    pub normal: Option<(int, int)>,
    pub settled: bool,
}

/// The outcome of a frame as mathematical integers.
pub open spec fn motion_view(m: Motion) -> SpecMotion {
    SpecMotion {
        position: (m.position.0 as int, m.position.1 as int),
        velocity: (m.velocity.0 as int, m.velocity.1 as int),
        normal: match m.normal {
            Some(n) => Some((n.0 as int, n.1 as int)),
            None => None,
        },
        settled: m.settled,
    }
}

/// The place `b` away from `a`, each component saturated.
pub open spec fn spec_offset(a: (int, int), b: (int, int)) -> (int, int) {
    (saturate(a.0 + b.0), saturate(a.1 + b.1))
}

/// The vector `v` times the fixed-point number `k`, rounded down and
/// saturated.
pub open spec fn spec_scaled(v: (int, int), k: int) -> (int, int) {
    (saturate(floor_div(v.0 * k, 65536)), saturate(floor_div(v.1 * k, 65536)))
}

/// The fixed-point dot product of two vectors, rounded down.
pub open spec fn spec_dot(a: (int, int), b: (int, int)) -> int {
    floor_div(a.0 * b.0 + a.1 * b.1, 65536)
}

/// The velocity `v` without its part along the normal `n`: what is left
/// slides along the surface.
pub open spec fn spec_slide(v: (int, int), n: (int, int)) -> (int, int) {
    let d = spec_dot(v, n);
    (saturate(v.0 - floor_div(d * n.0, 65536)), saturate(v.1 - floor_div(d * n.1, 65536)))
}

/// The nudge after a nudge of `step`: the other way and half as long,
/// rounded toward zero.
pub open spec fn spec_next_step(step: int) -> int {
    if step >= 0 {
        -(step / 2)
    } else {
        (-step) / 2
    }
}

/// Whether the probe point `p` of the world lies inside the terrain: the
/// field has a value there that exceeds the iso-level by more than the
/// margin.
pub open spec fn penetrates(m: GridMapView, threshold: int, p: (int, int)) -> bool {
    m.get_world(p.0, p.1) matches Some(v) && v > threshold + MARGIN
}

/// What the probe point `p` adds to the response: the normal of the field
/// there, if the point lies inside the terrain and the field has a normal
/// there.
pub open spec fn probe_normal(m: GridMapView, threshold: int, p: (int, int)) -> (int, int) {
    if penetrates(m, threshold, p) && m.get_normal_world(p.0, p.1) is Some {
        m.get_normal_world(p.0, p.1).unwrap()
    } else {
        (0, 0)
    }
}

/// The sum of what the first `n` probe points add to the response, for an
/// agent at `position` whose probe points lie at `offsets` from it.
pub open spec fn normal_sum(
    m: GridMapView,
    threshold: int,
    position: (int, int),
    offsets: Seq<(i64, i64)>,
    n: int,
) -> (int, int)
    decreases n,
{
    if n <= 0 {
        (0, 0)
    } else {
        let before = normal_sum(m, threshold, position, offsets, n - 1);
        let q = probe_normal(
            m,
            threshold,
            spec_offset(position, (offsets[n - 1].0 as int, offsets[n - 1].1 as int)),
        );
        (before.0 + q.0, before.1 + q.1)
    }
}

/// The response normal of an agent at `position`: the unit vector along
/// the sum of the normals at its penetrating probe points, if that sum is
/// not zero.
pub open spec fn spec_is_colliding(
    m: GridMapView,
    threshold: int,
    position: (int, int),
    offsets: Seq<(i64, i64)>,
) -> Option<(int, int)> {
    let s = normal_sum(m, threshold, position, offsets, offsets.len() as int);
    if s == (0int, 0int) {
        None
    } else {
        Some(spec_normalize(s.0, s.1))
    }
}

/// Where the push-out search ends that starts at `position` with the
/// nudge `step` and `steps` nudges left, and whether it ends free of
/// terrain. As long as the agent collides, the last nudge is taken back
/// and the next one, the other way and half as long, is made along the
/// normal of the place; the search gives up when the nudges are used up or
/// have shrunk to nothing.
pub open spec fn push_out(
    m: GridMapView,
    threshold: int,
    offsets: Seq<(i64, i64)>,
    position: (int, int),
    step: int,
    steps: nat,
) -> ((int, int), bool)
    decreases steps,
{
    match spec_is_colliding(m, threshold, position, offsets) {
        None => (position, true),
        Some(n) => {
            if steps == 0 || step == 0 {
                (position, false)
            } else {
                let next = spec_next_step(step);
                let back = spec_offset(position, spec_scaled(n, -step));
                push_out(
                    m,
                    threshold,
                    offsets,
                    spec_offset(back, spec_scaled(n, next)),
                    next,
                    (steps - 1) as nat,
                )
            }
        },
    }
}

/// One frame of the agent: it moves by its velocity; if that runs it into
/// the terrain, the move is taken back, the agent is pushed out, its
/// velocity loses the part along the terrain's normal, and it moves by
/// what is left.
pub open spec fn spec_apply_velocity(
    m: GridMapView,
    threshold: int,
    offsets: Seq<(i64, i64)>,
    position: (int, int),
    velocity: (int, int),
    dt: int,
) -> SpecMotion {
    let moved = spec_offset(position, spec_scaled(velocity, dt));
    match spec_is_colliding(m, threshold, moved, offsets) {
        None => SpecMotion { position: moved, velocity, normal: None, settled: true },
        Some(n) => {
            let pushed = push_out(m, threshold, offsets, position, FIRST_STEP as int, MAX_STEPS as nat);
            let slid = spec_slide(velocity, n);
            SpecMotion {
                position: spec_offset(pushed.0, spec_scaled(slid, dt)),
                velocity: slid,
                normal: Some(n),
                settled: pushed.1,
            }
        },
    }
}

/// A push-out search that ends settled ends on a place where the agent
/// does not collide.
pub proof fn lemma_push_out_settled(
    m: GridMapView,
    threshold: int,
    offsets: Seq<(i64, i64)>,
    position: (int, int),
    step: int,
    steps: nat,
)
    ensures
        push_out(m, threshold, offsets, position, step, steps).1 <==> spec_is_colliding(
            m,
            threshold,
            push_out(m, threshold, offsets, position, step, steps).0,
            offsets,
        ) is None,
    decreases steps,
{
    match spec_is_colliding(m, threshold, position, offsets) {
        None => {},
        Some(n) => {
            if steps != 0 && step != 0 {
                let next = spec_next_step(step);
                let back = spec_offset(position, spec_scaled(n, -step));
                lemma_push_out_settled(
                    m,
                    threshold,
                    offsets,
                    spec_offset(back, spec_scaled(n, next)),
                    next,
                    (steps - 1) as nat,
                );
            }
        },
    }
}

/// After sliding along a surface a velocity has next to nothing left along
/// the surface's unit normal: what is left is due to rounding alone, three
/// units in the last place and a 2^-14th of what was taken away.
pub proof fn lemma_slide_leaves_no_normal_part(v: (int, int), n: (int, int))
    requires
        is_unit(n.0, n.1),
        -65536 <= n.0 <= 65536,
        -65536 <= n.1 <= 65536,
        -0x1000_0000_0000_0000 <= v.0 <= 0x1000_0000_0000_0000,
        -0x1000_0000_0000_0000 <= v.1 <= 0x1000_0000_0000_0000,
    ensures
        ({
            let s = spec_slide(v, n);
            let taken = spec_dot(v, n);
            65536 * crate::fixed::abs(s.0 * n.0 + s.1 * n.1) <= crate::fixed::abs(taken) * (4
                * 65536 + 2) + 3 * (65536 * 65536)
        }),
{
    let one = 65536int;
    let raw = v.0 * n.0 + v.1 * n.1;
    let d = floor_div(raw, one);
    let r = raw - d * one;
    crate::common::lemma_floor_div_bounds(raw, one);
    assert(-0x1000_0000_0000_0000 * 65536 <= v.0 * n.0 <= 0x1000_0000_0000_0000 * 65536)
        by (nonlinear_arith)
        requires -0x1000_0000_0000_0000 <= v.0 <= 0x1000_0000_0000_0000, -65536 <= n.0 <= 65536;
    assert(-0x1000_0000_0000_0000 * 65536 <= v.1 * n.1 <= 0x1000_0000_0000_0000 * 65536)
        by (nonlinear_arith)
        requires -0x1000_0000_0000_0000 <= v.1 <= 0x1000_0000_0000_0000, -65536 <= n.1 <= 65536;
    assert(-0x2000_0000_0000_0000 <= d <= 0x2000_0000_0000_0000);
    let ax = floor_div(d * n.0, one);
    let ay = floor_div(d * n.1, one);
    let rx = d * n.0 - ax * one;
    let ry = d * n.1 - ay * one;
    crate::common::lemma_floor_div_bounds(d * n.0, one);
    crate::common::lemma_floor_div_bounds(d * n.1, one);
    assert(-0x2000_0000_0000_0000 * 65536 <= d * n.0 <= 0x2000_0000_0000_0000 * 65536)
        by (nonlinear_arith)
        requires -0x2000_0000_0000_0000 <= d <= 0x2000_0000_0000_0000, -65536 <= n.0 <= 65536;
    assert(-0x2000_0000_0000_0000 * 65536 <= d * n.1 <= 0x2000_0000_0000_0000 * 65536)
        by (nonlinear_arith)
        requires -0x2000_0000_0000_0000 <= d <= 0x2000_0000_0000_0000, -65536 <= n.1 <= 65536;
    assert(-0x2000_0000_0000_0001 <= ax <= 0x2000_0000_0000_0000);
    assert(-0x2000_0000_0000_0001 <= ay <= 0x2000_0000_0000_0000);
    let s = spec_slide(v, n);
    assert(s.0 == v.0 - ax && s.1 == v.1 - ay);
    let left = s.0 * n.0 + s.1 * n.1;
    let nn = n.0 * n.0 + n.1 * n.1;
    let e = one * one - nn;
    assert(0 <= e < 4 * one + 2);
    // one * left == d * e + r * one + (rx * n.0 + ry * n.1), step by step
    let px = ax * n.0;
    let py = ay * n.1;
    assert(left == raw - px - py) by (nonlinear_arith)
        requires
            left == (v.0 - ax) * n.0 + (v.1 - ay) * n.1,
            raw == v.0 * n.0 + v.1 * n.1,
            px == ax * n.0,
            py == ay * n.1,
    ;
    let mx = d * (n.0 * n.0);
    let my = d * (n.1 * n.1);
    assert(one * px == mx - rx * n.0) by (nonlinear_arith)
        requires px == ax * n.0, rx == d * n.0 - ax * one, mx == d * (n.0 * n.0);
    assert(one * py == my - ry * n.1) by (nonlinear_arith)
        requires py == ay * n.1, ry == d * n.1 - ay * one, my == d * (n.1 * n.1);
    assert(d * e == d * (one * one) - mx - my) by (nonlinear_arith)
        requires
            e == one * one - (n.0 * n.0 + n.1 * n.1),
            mx == d * (n.0 * n.0),
            my == d * (n.1 * n.1),
    ;
    assert(one * raw == d * (one * one) + r * one) by (nonlinear_arith)
        requires r == raw - d * one;
    assert(one * left == one * raw - one * px - one * py) by (nonlinear_arith)
        requires left == raw - px - py;
    assert(one * left == d * e + r * one + (rx * n.0 + ry * n.1));
    let a = crate::fixed::abs(d);
    assert(-(a * (4 * one + 2)) <= d * e <= a * (4 * one + 2)) by (nonlinear_arith)
        requires 0 <= e < 4 * one + 2, a == d || a == -d, a >= 0;
    assert(-(one * one) <= rx * n.0 <= one * one) by (nonlinear_arith)
        requires 0 <= rx < one, -one <= n.0 <= one;
    assert(-(one * one) <= ry * n.1 <= one * one) by (nonlinear_arith)
        requires 0 <= ry < one, -one <= n.1 <= one;
    assert(0 <= r * one <= one * one) by (nonlinear_arith)
        requires 0 <= r < one, one > 0;
    assert(one * one == 65536 * 65536);
    assert(4 * one + 2 == 4 * 65536 + 2);
    let al = crate::fixed::abs(left);
    assert(one * al == one * left || one * al == -(one * left)) by (nonlinear_arith)
        requires al == left || al == -left;
}

/// Each nudge is shorter than the one before, until none is left.
pub proof fn lemma_next_step_shrinks(step: int)
    ensures
        step != 0 ==> crate::fixed::abs(spec_next_step(step)) < crate::fixed::abs(step),
        step == 0 ==> spec_next_step(step) == 0,
        step > 0 ==> spec_next_step(step) <= 0,
        step < 0 ==> spec_next_step(step) >= 0,
{
}

/// The place `b` away from `a`.
pub fn offset_by(a: (i64, i64), b: (i64, i64)) -> (r: (i64, i64))
    ensures
        (r.0 as int, r.1 as int) == spec_offset((a.0 as int, a.1 as int), (b.0 as int, b.1 as int)),
{
    (sat64(a.0 as i128 + b.0 as i128), sat64(a.1 as i128 + b.1 as i128))
}

/// The product of two 64-bit integers fits 128 bits, with room to add two
/// of them.
proof fn lemma_product_fits(a: int, b: int)
    requires
        -0x8000_0000_0000_0000 <= a <= 0x8000_0000_0000_0000,
        -0x8000_0000_0000_0000 <= b <= 0x8000_0000_0000_0000,
    ensures
        -0x4000_0000_0000_0000_0000_0000_0000_0000 <= a * b
            <= 0x4000_0000_0000_0000_0000_0000_0000_0000,
{
    assert(-0x4000_0000_0000_0000_0000_0000_0000_0000 <= a * b
        <= 0x4000_0000_0000_0000_0000_0000_0000_0000) by (nonlinear_arith)
        requires
            -0x8000_0000_0000_0000 <= a <= 0x8000_0000_0000_0000,
            -0x8000_0000_0000_0000 <= b <= 0x8000_0000_0000_0000,
    ;
}

/// A vector times a fixed-point number.
pub fn scaled(v: (i64, i64), k: i64) -> (r: (i64, i64))
    ensures
        (r.0 as int, r.1 as int) == spec_scaled((v.0 as int, v.1 as int), k as int),
{
    proof {
        lemma_product_fits(v.0 as int, k as int);
        lemma_product_fits(v.1 as int, k as int);
    }
    (
        sat64(div_floor_i128(v.0 as i128 * k as i128, 65536)),
        sat64(div_floor_i128(v.1 as i128 * k as i128, 65536)),
    )
}

/// A velocity without its part along a normal.
pub fn slide(v: (i64, i64), n: (i64, i64)) -> (r: (i64, i64))
    requires
        -65536 <= n.0 <= 65536,
        -65536 <= n.1 <= 65536,
    ensures
        (r.0 as int, r.1 as int) == spec_slide((v.0 as int, v.1 as int), (n.0 as int, n.1 as int)),
{
    assert(-0x8000_0000_0000_0000_0000 <= v.0 * n.0 <= 0x8000_0000_0000_0000_0000)
        by (nonlinear_arith)
        requires -0x8000_0000_0000_0000 <= v.0 <= 0x8000_0000_0000_0000, -65536 <= n.0 <= 65536;
    assert(-0x8000_0000_0000_0000_0000 <= v.1 * n.1 <= 0x8000_0000_0000_0000_0000)
        by (nonlinear_arith)
        requires -0x8000_0000_0000_0000 <= v.1 <= 0x8000_0000_0000_0000, -65536 <= n.1 <= 65536;
    let d = div_floor_i128(v.0 as i128 * n.0 as i128 + v.1 as i128 * n.1 as i128, 65536);
    assert(-0x1_0000_0000_0000_0000 <= d <= 0x1_0000_0000_0000_0000);
    assert(-0x1_0000_0000_0000_0000_0000 <= d * n.0 <= 0x1_0000_0000_0000_0000_0000)
        by (nonlinear_arith)
        requires -0x1_0000_0000_0000_0000 <= d <= 0x1_0000_0000_0000_0000, -65536 <= n.0 <= 65536;
    assert(-0x1_0000_0000_0000_0000_0000 <= d * n.1 <= 0x1_0000_0000_0000_0000_0000)
        by (nonlinear_arith)
        requires -0x1_0000_0000_0000_0000 <= d <= 0x1_0000_0000_0000_0000, -65536 <= n.1 <= 65536;
    (
        sat64(v.0 as i128 - div_floor_i128(d * n.0 as i128, 65536)),
        sat64(v.1 as i128 - div_floor_i128(d * n.1 as i128, 65536)),
    )
}

/// The nudge after a nudge of `step`.
pub fn next_step(step: i64) -> (r: i64)
    ensures
        r == spec_next_step(step as int),
{
    if step >= 0 {
        -(step / 2)
    } else if step == i64::MIN {
        0x4000_0000_0000_0000
    } else {
        (-step) / 2
    }
}

impl Player {
    /// An agent that has met no terrain yet.
    pub fn new() -> (p: Player)
        ensures
            p.normal == (0i64, 0i64),
    {
        Player { normal: (0, 0) }
    }

    /// The probe points of the agent's outline, relative to its body.
    pub fn points() -> (p: [(i64, i64); 6])
        ensures
            p@ == seq![
                (0i64, 0i64),
                (-8192000i64, -8192000i64),
                (8192000i64, -8192000i64),
                (0i64, 13107200i64),
                (-6225920i64, 1638400i64),
                (6225920i64, 1638400i64),
            ],
    {
        [
            (0, 0),
            (-8192000, -8192000),
            (8192000, -8192000),
            (0, 13107200),
            (-6225920, 1638400),
            (6225920, 1638400),
        ]
    }

    /// Takes the normal of the field at `position` as the agent's normal,
    /// where the field has one there.
    pub fn update_normal(&mut self, grid_map: &GridMap, position: (i64, i64))
        requires
            grid_map.wf(),
        ensures
            match grid_map@.get_normal_world(position.0 as int, position.1 as int) {
                Some(n) => (final(self).normal.0 as int, final(self).normal.1 as int) == n,
                None => final(self).normal == old(self).normal,
            },
    {
        if let Some(normal) = grid_map.get_normal_world(position.0, position.1) {
            self.normal = normal;
        }
    }

    /// The response normal of the agent at `position`, whose probe points
    /// lie at `offsets` from it; `None` where it does not collide.
    pub fn is_colliding(
        &self,
        grid_map: &GridMap,
        threshold: i64,
        position: (i64, i64),
        offsets: &Vec<(i64, i64)>,
    ) -> (r: Option<(i64, i64)>)
        requires
            grid_map.wf(),
        ensures
            match r {
                Some(n) => Some((n.0 as int, n.1 as int)),
                None => None,
            } == spec_is_colliding(
                grid_map@,
                threshold as int,
                (position.0 as int, position.1 as int),
                offsets@,
            ),
            r matches Some(n) ==> is_unit(n.0 as int, n.1 as int) && -65536 <= n.0 <= 65536 && -65536
                <= n.1 <= 65536,
    {
        let mut sum_x: i128 = 0;
        let mut sum_y: i128 = 0;
        let mut i: usize = 0;
        while i < offsets.len()
            invariant
                grid_map.wf(),
                i <= offsets.len(),
                (sum_x as int, sum_y as int) == normal_sum(
                    grid_map@,
                    threshold as int,
                    (position.0 as int, position.1 as int),
                    offsets@,
                    i as int,
                ),
                -65536 * i <= sum_x <= 65536 * i,
                -65536 * i <= sum_y <= 65536 * i,
            decreases offsets.len() - i,
        {
            let point = offset_by(position, offsets[i]);
            let inside = match grid_map.get_world(point.0, point.1) {
                Some(v) => v - MARGIN > threshold,
                None => false,
            };
            if inside {
                if let Some(normal) = grid_map.get_normal_world(point.0, point.1) {
                    sum_x = sum_x + normal.0 as i128;
                    sum_y = sum_y + normal.1 as i128;
                }
            }
            i = i + 1;
        }
        if sum_x == 0 && sum_y == 0 {
            None
        } else {
            proof {
                lemma_normalize_unit(sum_x as int, sum_y as int);
            }
            Some(normalize(sum_x, sum_y))
        }
    }

    /// One frame of the agent under the iso-level `threshold`: from
    /// `position` with `velocity` over the time `dt`.
    pub fn apply_velocity(
        &self,
        grid_map: &GridMap,
        threshold: i64,
        offsets: &Vec<(i64, i64)>,
        position: (i64, i64),
        velocity: (i64, i64),
        dt: i64,
    ) -> (r: Motion)
        requires
            grid_map.wf(),
        ensures
            motion_view(r) == spec_apply_velocity(
                grid_map@,
                threshold as int,
                offsets@,
                (position.0 as int, position.1 as int),
                (velocity.0 as int, velocity.1 as int),
                dt as int,
            ),
    {
        let moved = offset_by(position, scaled(velocity, dt));
        match self.is_colliding(grid_map, threshold, moved, offsets) {
            None => Motion { position: moved, velocity, normal: None, settled: true },
            Some(normal) => {
                let mut place = position;
                let mut step = FIRST_STEP;
                let mut left = MAX_STEPS;
                let mut settled = false;
                let ghost start = (position.0 as int, position.1 as int);
                loop
                    invariant_except_break
                        grid_map.wf(),
                        !settled,
                        -FIRST_STEP <= step <= FIRST_STEP,
                        push_out(
                            grid_map@,
                            threshold as int,
                            offsets@,
                            (place.0 as int, place.1 as int),
                            step as int,
                            left as nat,
                        ) == push_out(
                            grid_map@,
                            threshold as int,
                            offsets@,
                            start,
                            FIRST_STEP as int,
                            MAX_STEPS as nat,
                        ),
                    ensures
                        ((place.0 as int, place.1 as int), settled) == push_out(
                            grid_map@,
                            threshold as int,
                            offsets@,
                            start,
                            FIRST_STEP as int,
                            MAX_STEPS as nat,
                        ),
                    decreases left,
                {
                    match self.is_colliding(grid_map, threshold, place, offsets) {
                        None => {
                            settled = true;
                            break ;
                        },
                        Some(n) => {
                            if left == 0 || step == 0 {
                                break ;
                            }
                            let next = next_step(step);
                            let back = offset_by(place, scaled(n, -step));
                            place = offset_by(back, scaled(n, next));
                            step = next;
                            left = left - 1;
                        },
                    }
                }
                let slid = slide(velocity, normal);
                Motion {
                    position: offset_by(place, scaled(slid, dt)),
                    velocity: slid,
                    normal: Some(normal),
                    settled,
                }
            },
        }
    }
}

} // verus!
