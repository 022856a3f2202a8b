//! The brush that raises and lowers the terrain.

use vstd::prelude::*;
use crate::common::{div_floor_wide, floor_div, lemma_floor_div_bounds};
use crate::contour::value_or_zero;
use crate::fixed::{div_floor_i128, int_sqrt, isqrt, sat64, saturate};
use crate::grid_map::{GridMap, GridMapView, is_coord, spec_to_grid};

verus! {

/// The reach of the editor's brush, in cells.
pub const BRUSH_RANGE: u16 = 10;

/// The terrain editor.
pub struct Editor {}

/// The distance, in cells in fixed point and rounded down, from the point
/// `(gx, gy)`, given in cells in fixed point, to the world cell `(cx, cy)`.
pub open spec fn brush_distance(gx: int, gy: int, cx: int, cy: int) -> int {
    int_sqrt((cx * 65536 - gx) * (cx * 65536 - gx) + (cy * 65536 - gy) * (cy * 65536 - gy))
}

/// The value that the brush pulls a cell toward: for raising, one at the
/// centre of the brush falling to zero at its reach; for lowering, zero at
/// the centre rising to one at its reach.
pub open spec fn brush_target(distance: int, radius: int, raise: bool) -> int {
    if raise {
        65536 - distance / radius
    } else {
        distance / radius
    }
}

/// The value of a cell after one stroke of the brush: from `value` the
/// fraction `rate` of the way to the target, where the target lies above
/// it for raising or below it for lowering.
pub open spec fn brush_value(value: int, distance: int, radius: int, rate: int, raise: bool) -> int {
    let target = brush_target(distance, radius, raise);
    let goal = if raise {
        if target > value {
            target
        } else {
            value
        }
    } else {
        if target < value {
            target
        } else {
            value
        }
    };
    saturate(value + floor_div((goal - value) * rate, 65536))
}

/// The world cell that is the `n`th of the brush's window: the window is
/// the square of cells up to `radius` away from the cell `(rx, ry)`, gone
/// through column by column.
pub open spec fn brush_cell(rx: int, ry: int, radius: int, n: int) -> (int, int) {
    (rx + n / (2 * radius + 1) - radius, ry + n % (2 * radius + 1) - radius)
}

/// Whether the brush at the point `(gx, gy)` has all of its window among
/// the world cells.
pub open spec fn brush_fits(gx: int, gy: int, radius: int) -> bool {
    &&& radius > 0
    &&& is_coord(floor_div(gx, 65536) - radius)
    &&& is_coord(floor_div(gx, 65536) + radius)
    &&& is_coord(floor_div(gy, 65536) - radius)
    &&& is_coord(floor_div(gy, 65536) + radius)
}

/// The field after the brush at the point `(gx, gy)` went over the first
/// `n` cells of its window: each was set to its value after the stroke, a
/// cell in no chunk counting as zero. The values are those that the cells
/// held in `m`, before the stroke.
pub open spec fn brushed(
    m: GridMapView,
    gx: int,
    gy: int,
    radius: int,
    rate: int,
    raise: bool,
    n: int,
) -> GridMapView
    decreases n,
{
    if n <= 0 {
        m
    } else {
        let c = brush_cell(floor_div(gx, 65536), floor_div(gy, 65536), radius, n - 1);
        brushed(m, gx, gy, radius, rate, raise, n - 1).set(
            c.0,
            c.1,
            brush_value(
                value_or_zero(m.get(c.0, c.1)),
                brush_distance(gx, gy, c.0, c.1),
                radius,
                rate,
                raise,
            ),
        )
    }
}

/// The field after one stroke of the brush at the world position
/// `(wx, wy)`; the same field where it has no spacing or the brush does
/// not fit among the world cells.
pub open spec fn spec_brush(
    m: GridMapView,
    wx: int,
    wy: int,
    radius: int,
    rate: int,
    raise: bool,
) -> GridMapView {
    let gx = spec_to_grid(wx, m.scale);
    let gy = spec_to_grid(wy, m.scale);
    if m.scale != 0 && brush_fits(gx, gy, radius) {
        brushed(m, gx, gy, radius, rate, raise, (2 * radius + 1) * (2 * radius + 1))
    } else {
        m
    }
}

/// The field after the editor handled the mouse at the world position
/// `(wx, wy)`: raised there where the left button is down, else lowered
/// where the right one is, else the same.
pub open spec fn spec_handle_mouse(
    m: GridMapView,
    wx: int,
    wy: int,
    left: bool,
    right: bool,
    rate: int,
) -> GridMapView {
    if left {
        spec_brush(m, wx, wy, BRUSH_RANGE as int, rate, true)
    } else if right {
        spec_brush(m, wx, wy, BRUSH_RANGE as int, rate, false)
    } else {
        m
    }
}

/// The place of a cell in the window gives back its column and row.
proof fn lemma_window_index(x: int, y: int, side: int)
    requires
        0 <= x,
        0 <= y < side,
    ensures
        (x * side + y) / side == x,
        (x * side + y) % side == y,
        (x + 1) * side == x * side + side,
        0 <= x * side,
{
    assert((x + 1) * side == x * side + side && 0 <= x * side) by (nonlinear_arith)
        requires 0 <= x, 0 < side;
    vstd::arithmetic::div_mod::lemma_fundamental_div_mod_converse(x * side + y, side, x, y);
}

/// The distance from a point to a world cell of the brush's window.
fn distance_to_cell(gx: i64, gy: i64, cx: i32, cy: i32) -> (d: i64)
    requires
        -0x2_0000_0000 <= cx * 65536 - gx <= 0x2_0000_0000,
        -0x2_0000_0000 <= cy * 65536 - gy <= 0x2_0000_0000,
    ensures
        d == brush_distance(gx as int, gy as int, cx as int, cy as int),
        0 <= d <= 0x4_0000_0000,
{
    let dx = cx as i64 * 65536 - gx;
    let dy = cy as i64 * 65536 - gy;
    assert(0 <= dx * dx <= 0x2_0000_0000 * 0x2_0000_0000) by (nonlinear_arith)
        requires -0x2_0000_0000 <= dx <= 0x2_0000_0000;
    assert(0 <= dy * dy <= 0x2_0000_0000 * 0x2_0000_0000) by (nonlinear_arith)
        requires -0x2_0000_0000 <= dy <= 0x2_0000_0000;
    let s = (dx as i128 * dx as i128 + dy as i128 * dy as i128) as u128;
    let d = isqrt(s);
    proof {
        if d > 0x4_0000_0000 {
            assert(d * d > 0x4_0000_0000 * 0x4_0000_0000) by (nonlinear_arith)
                requires d > 0x4_0000_0000;
        }
    }
    d as i64
}

/// The value of a cell after one stroke of the brush.
fn stroke(value: i64, distance: i64, radius: u16, rate: i64, raise: bool) -> (r: i64)
    requires
        radius > 0,
        0 <= value <= 65536,
        0 <= distance <= 0x4_0000_0000,
    ensures
        r == brush_value(value as int, distance as int, radius as int, rate as int, raise),
{
    let part = distance / radius as i64;
    assert(0 <= part <= distance) by {
        lemma_floor_div_bounds(distance as int, radius as int);
    }
    let target = if raise { 65536 - part } else { part };
    let goal = if raise {
        if target > value { target } else { value }
    } else {
        if target < value { target } else { value }
    };
    assert(-0x4_0000_0000_0000_0000_0000_0000 <= (goal - value) * rate
        <= 0x4_0000_0000_0000_0000_0000_0000) by (nonlinear_arith)
        requires
            -0x8_0000_0000 <= goal - value <= 0x8_0000_0000,
            -0x8000_0000_0000_0000 <= rate <= 0x8000_0000_0000_0000,
    ;
    let delta = div_floor_i128((goal - value) as i128 * rate as i128, 65536);
    sat64(value as i128 + delta)
}

impl GridMap {
    /// One stroke of the brush at the world position `(wx, wy)`: every
    /// cell up to `radius` cells away in x and in y moves the fraction
    /// `rate` of the way toward the brush's target, up if `raise` and
    /// down if not. Chunks that the window touches are made where they
    /// were not there.
    pub fn brush(&mut self, wx: i64, wy: i64, radius: u16, rate: i64, raise: bool)
        requires
            old(self).wf(),
        ensures
            final(self).wf(),
            final(self)@ == spec_brush(
                old(self)@,
                wx as int,
                wy as int,
                radius as int,
                rate as int,
                raise,
            ),
    {
        if radius == 0 {
            return ;
        }
        let (gx, gy) = match (self.to_grid(wx), self.to_grid(wy)) {
            (Some(gx), Some(gy)) => (gx, gy),
            _ => {
                return ;
            },
        };
        let rx = div_floor_wide(gx, 65536);
        let ry = div_floor_wide(gy, 65536);
        proof {
            lemma_floor_div_bounds(gx as int, 65536);
            lemma_floor_div_bounds(gy as int, 65536);
        }
        let r = radius as i64;
        if rx - r < -0x8000_0000 || rx + r > 0x7fff_ffff || ry - r < -0x8000_0000 || ry + r
            > 0x7fff_ffff {
            return ;
        }
        let side = 2 * r + 1;
        let mut values: Vec<i64> = Vec::new();
        let mut x: i64 = 0;
        while x < side
            invariant
                self.wf(),
                self@ == old(self)@,
                0 <= x <= side,
                side == 2 * r + 1,
                r == radius,
                radius > 0,
                is_coord(rx - r),
                is_coord(rx + r),
                is_coord(ry - r),
                is_coord(ry + r),
                values.len() == x * side,
                forall|n: int| 0 <= n < values.len() ==> 0 <= #[trigger] values[n] <= 65536,
                forall|n: int|
                    0 <= n < values.len() ==> #[trigger] values[n] == value_or_zero(
                        self@.get(
                            brush_cell(rx as int, ry as int, r as int, n).0,
                            brush_cell(rx as int, ry as int, r as int, n).1,
                        ),
                    ),
            decreases side - x,
        {
            let mut y: i64 = 0;
            while y < side
                invariant
                    self.wf(),
                    self@ == old(self)@,
                    0 <= x < side,
                    0 <= y <= side,
                    side == 2 * r + 1,
                    r == radius,
                    radius > 0,
                    is_coord(rx - r),
                    is_coord(rx + r),
                    is_coord(ry - r),
                    is_coord(ry + r),
                    values.len() == x * side + y,
                    forall|n: int| 0 <= n < values.len() ==> 0 <= #[trigger] values[n] <= 65536,
                    forall|n: int|
                        0 <= n < values.len() ==> #[trigger] values[n] == value_or_zero(
                            self@.get(
                                brush_cell(rx as int, ry as int, r as int, n).0,
                                brush_cell(rx as int, ry as int, r as int, n).1,
                            ),
                        ),
                decreases side - y,
            {
                proof {
                    lemma_window_index(x as int, y as int, side as int);
                }
                let value = match self.get((rx + x - r) as i32, (ry + y - r) as i32) {
                    Some(v) => v,
                    None => 0,
                };
                values.push(value);
                y = y + 1;
            }
            proof {
                lemma_window_index(x as int, 0, side as int);
            }
            x = x + 1;
        }
        let ghost total = side * side;
        let mut x: i64 = 0;
        while x < side
            invariant
                self.wf(),
                0 <= x <= side,
                side == 2 * r + 1,
                r == radius,
                radius > 0,
                rx == floor_div(gx as int, 65536),
                ry == floor_div(gy as int, 65536),
                is_coord(rx - r),
                is_coord(rx + r),
                is_coord(ry - r),
                is_coord(ry + r),
                values.len() == side * side,
                forall|n: int|
                    0 <= n < values.len() ==> #[trigger] values[n] == value_or_zero(
                        old(self)@.get(
                            brush_cell(rx as int, ry as int, r as int, n).0,
                            brush_cell(rx as int, ry as int, r as int, n).1,
                        ),
                    ),
                forall|n: int| 0 <= n < values.len() ==> 0 <= #[trigger] values[n] <= 65536,
                self@ == brushed(
                    old(self)@,
                    gx as int,
                    gy as int,
                    r as int,
                    rate as int,
                    raise,
                    x * side,
                ),
            decreases side - x,
        {
            let mut y: i64 = 0;
            while y < side
                invariant
                    self.wf(),
                    0 <= x < side,
                    0 <= y <= side,
                    side == 2 * r + 1,
                    r == radius,
                    radius > 0,
                    rx == floor_div(gx as int, 65536),
                    ry == floor_div(gy as int, 65536),
                    is_coord(rx - r),
                    is_coord(rx + r),
                    is_coord(ry - r),
                    is_coord(ry + r),
                    values.len() == side * side,
                    forall|n: int|
                        0 <= n < values.len() ==> #[trigger] values[n] == value_or_zero(
                            old(self)@.get(
                                brush_cell(rx as int, ry as int, r as int, n).0,
                                brush_cell(rx as int, ry as int, r as int, n).1,
                            ),
                        ),
                    forall|n: int| 0 <= n < values.len() ==> 0 <= #[trigger] values[n] <= 65536,
                    self@ == brushed(
                        old(self)@,
                        gx as int,
                        gy as int,
                        r as int,
                        rate as int,
                        raise,
                        x * side + y,
                    ),
                decreases side - y,
            {
                proof {
                    lemma_window_index(x as int, y as int, side as int);
                    assert(0 <= x * side && x * side + y < side * side && side * side <= 0x4_0000_0000)
                        by (nonlinear_arith)
                        requires 0 <= x < side, 0 <= y < side, side <= 0x2_0000;
                }
                let cx = (rx + x - r) as i32;
                let cy = (ry + y - r) as i32;
                let value = values[(x * side + y) as usize];
                let d = distance_to_cell(gx, gy, cx, cy);
                self.set(cx, cy, stroke(value, d, radius, rate, raise));
                y = y + 1;
            }
            proof {
                lemma_window_index(x as int, 0, side as int);
            }
            x = x + 1;
        }
    }

    /// Raises the terrain under the brush at the world position
    /// `(wx, wy)`.
    pub fn raise(&mut self, wx: i64, wy: i64, radius: u16, rate: i64)
        requires
            old(self).wf(),
        ensures
            final(self).wf(),
            final(self)@ == spec_brush(
                old(self)@,
                wx as int,
                wy as int,
                radius as int,
                rate as int,
                true,
            ),
    {
        self.brush(wx, wy, radius, rate, true)
    }

    /// Lowers the terrain under the brush at the world position
    /// `(wx, wy)`.
    pub fn lower(&mut self, wx: i64, wy: i64, radius: u16, rate: i64)
        requires
            old(self).wf(),
        ensures
            final(self).wf(),
            final(self)@ == spec_brush(
                old(self)@,
                wx as int,
                wy as int,
                radius as int,
                rate as int,
                false,
            ),
    {
        self.brush(wx, wy, radius, rate, false)
    }
}

impl Editor {
    /// An editor.
    pub fn new() -> Editor {
        Editor {  }
    }

    /// Works the terrain with the brush at the world position `cursor`:
    /// raises it while the left button is down, else lowers it while the
    /// right one is, at `rate` of the way per call.
    pub fn handle_mouse(grid_map: &mut GridMap, cursor: (i64, i64), left: bool, right: bool, rate: i64)
        requires
            old(grid_map).wf(),
        ensures
            final(grid_map).wf(),
            final(grid_map)@ == spec_handle_mouse(
                old(grid_map)@,
                cursor.0 as int,
                cursor.1 as int,
                left,
                right,
                rate as int,
            ),
    {
        if left {
            grid_map.raise(cursor.0, cursor.1, BRUSH_RANGE, rate);
        } else if right {
            grid_map.lower(cursor.0, cursor.1, BRUSH_RANGE, rate);
        }
    }
}

} // verus!
