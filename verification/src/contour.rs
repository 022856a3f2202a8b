//! Marching squares on one cell: the sixteen cases, where the edges are
//! crossed, and the triangles and contour pieces of each case.

use vstd::prelude::*;
use crate::common::floor_div;
use crate::fixed::{clamp_unit, div_floor_i128};

verus! {

/// A point in fixed-point coordinates.
pub type Point = (i64, i64);

/// A piece of contour line, from its first point to its second.
pub type Segment = (Point, Point);

/// A triangle of solid terrain, its corners in counter-clockwise order.
pub type Triangle = (Point, Point, Point);

/// A point as a pair of mathematical integers.
pub type SpecPoint = (int, int);

/// A piece of contour line between two such points.
pub type SpecSegment = (SpecPoint, SpecPoint);

/// A triangle of three such points.
pub type SpecTriangle = (SpecPoint, SpecPoint, SpecPoint);

/// A point as mathematical integers.
pub open spec fn point_view(p: Point) -> SpecPoint {
    (p.0 as int, p.1 as int)
}

/// A piece of contour line as mathematical integers.
pub open spec fn segment_view(s: Segment) -> SpecSegment {
    (point_view(s.0), point_view(s.1))
}

/// A triangle as mathematical integers.
pub open spec fn triangle_view(t: Triangle) -> SpecTriangle {
    (point_view(t.0), point_view(t.1), point_view(t.2))
}

/// A list of pieces of contour line as mathematical integers.
pub open spec fn segments_view(s: Seq<Segment>) -> Seq<SpecSegment> {
    Seq::new(s.len(), |i: int| segment_view(s[i]))
}

/// A list of triangles as mathematical integers.
pub open spec fn triangles_view(s: Seq<Triangle>) -> Seq<SpecTriangle> {
    Seq::new(s.len(), |i: int| triangle_view(s[i]))
}

/// The four corners and the four edge crossings of one cell. Corners run
/// counter-clockwise from the cell's own sample; crossing `i` lies on the
/// edge from corner `i` to the next.
pub struct Frame {
    pub c0: SpecPoint,
    pub c1: SpecPoint,
    pub c2: SpecPoint,
    pub c3: SpecPoint,
    pub e0: SpecPoint,
    pub e1: SpecPoint,
    pub e2: SpecPoint,
    pub e3: SpecPoint,
}

/// Whether a sample is there and lies above the threshold.
pub open spec fn inside(v: Option<i64>, threshold: int) -> bool {
    v matches Some(s) && s > threshold
}

/// The value of a sample, zero for one that is not there.
pub open spec fn value_or_zero(v: Option<i64>) -> int {
    match v {
        Some(s) => s as int,
        None => 0,
    }
}

/// The case of a cell: one bit for each sample that is inside, the cell's
/// own sample lowest, then its neighbour in x, in y, and across.
pub open spec fn case_code(b0: bool, b1: bool, b2: bool, b3: bool) -> int {
    (if b0 { 1int } else { 0 }) + (if b1 { 2int } else { 0 }) + (if b2 { 4int } else { 0 }) + (if b3 {
        8int
    } else {
        0
    })
}

/// How far along the edge from a sample of value `a` to one of value `b`
/// the field passes `threshold`, as a fraction of the edge between zero
/// and one. Where both samples are equal the crossing stands at the far
/// end if the threshold is above them, else at the near end.
pub open spec fn spec_edge_ratio(threshold: int, a: int, b: int) -> int {
    if a == b {
        if threshold > a {
            65536
        } else {
            0
        }
    } else {
        clamp_unit(floor_div((threshold - a) * 65536, b - a))
    }
}

/// Where an edge is crossed: by linear interpolation when `smooth`, else
/// at its midpoint.
pub open spec fn spec_crossing(threshold: int, smooth: bool, a: int, b: int) -> int {
    if smooth {
        spec_edge_ratio(threshold, a, b)
    } else {
        32768
    }
}

/// The frame of the cell at `(x, y)`, in units of cells, whose edges are
/// crossed at the fractions `r0` to `r3`.
pub open spec fn spec_frame(x: int, y: int, r0: int, r1: int, r2: int, r3: int) -> Frame {
    Frame {
        c0: (x * 65536, y * 65536),
        c1: ((x + 1) * 65536, y * 65536),
        c2: ((x + 1) * 65536, (y + 1) * 65536),
        c3: (x * 65536, (y + 1) * 65536),
        e0: (x * 65536 + r0, y * 65536),
        e1: ((x + 1) * 65536, y * 65536 + r1),
        e2: (x * 65536 + r2, (y + 1) * 65536),
        e3: (x * 65536, y * 65536 + r3),
    }
}

/// The triangles that fill the solid part of a cell of case `code`.
pub open spec fn spec_case_triangles(code: int, f: Frame) -> Seq<SpecTriangle> {
    if code == 1 {
        seq![(f.e0, f.e3, f.c0)]
    } else if code == 2 {
        seq![(f.e0, f.c1, f.e1)]
    } else if code == 4 {
        seq![(f.e3, f.e2, f.c3)]
    } else if code == 8 {
        seq![(f.e1, f.c2, f.e2)]
    } else if code == 7 {
        seq![(f.c0, f.c1, f.e1), (f.c0, f.e1, f.e2), (f.c0, f.e2, f.c3)]
    } else if code == 11 {
        seq![(f.c1, f.c2, f.e2), (f.c1, f.e2, f.e3), (f.c1, f.e3, f.c0)]
    } else if code == 13 {
        seq![(f.c3, f.c0, f.e0), (f.c3, f.e0, f.e1), (f.c3, f.e1, f.c2)]
    } else if code == 14 {
        seq![(f.c2, f.c3, f.e3), (f.c2, f.e3, f.e0), (f.c2, f.e0, f.c1)]
    } else if code == 3 {
        seq![(f.c0, f.c1, f.e1), (f.c0, f.e1, f.e3)]
    } else if code == 12 {
        seq![(f.e1, f.c2, f.c3), (f.e1, f.c3, f.e3)]
    } else if code == 5 {
        seq![(f.c0, f.e0, f.e2), (f.c0, f.e2, f.c3)]
    } else if code == 10 {
        seq![(f.c1, f.c2, f.e2), (f.c1, f.e2, f.e0)]
    } else if code == 9 {
        seq![(f.c0, f.e0, f.e3), (f.e1, f.c2, f.e2)]
    } else if code == 6 {
        seq![(f.c1, f.e1, f.e0), (f.c3, f.e3, f.e2)]
    } else if code == 15 {
        seq![(f.c0, f.c1, f.c2), (f.c0, f.c2, f.c3)]
    } else {
        seq![]
    }
}

/// The piece of contour line that runs through a cell of case `code`.
pub open spec fn spec_case_segment(code: int, f: Frame) -> Option<SpecSegment> {
    if code == 1 || code == 14 {
        Some((f.e0, f.e3))
    } else if code == 2 || code == 13 {
        Some((f.e0, f.e1))
    } else if code == 4 || code == 11 {
        Some((f.e2, f.e3))
    } else if code == 8 || code == 7 {
        Some((f.e1, f.e2))
    } else if code == 3 || code == 12 {
        Some((f.e1, f.e3))
    } else if code == 5 || code == 10 {
        Some((f.e0, f.e2))
    } else if code == 9 {
        Some((f.c1, f.c3))
    } else if code == 6 {
        Some((f.c0, f.c2))
    } else {
        None
    }
}

/// The number of samples of a case that are inside.
pub open spec fn corners_inside(code: int) -> int {
    (code % 2) + (code / 2 % 2) + (code / 4 % 2) + (code / 8 % 2)
}

/// Whether the two samples of a case that are inside lie across the cell
/// from each other.
pub open spec fn is_saddle(code: int) -> bool {
    code == 6 || code == 9
}

/// The number of triangles a cell with `inside` samples inside is filled
/// with: one for a single corner, two for an edge, a saddle or a full
/// cell, three for all but one corner, none for an empty cell.
pub open spec fn triangle_count(inside: int) -> int {
    if inside == 1 {
        1
    } else if inside == 2 {
        2
    } else if inside == 3 {
        3
    } else if inside == 4 {
        2
    } else {
        0
    }
}

/// Twice the signed area of a triangle, positive for corners in
/// counter-clockwise order.
pub open spec fn double_area(t: SpecTriangle) -> int {
    (t.1.0 - t.0.0) * (t.2.1 - t.0.1) - (t.1.1 - t.0.1) * (t.2.0 - t.0.0)
}

/// The sum of the doubled areas of some triangles.
pub open spec fn total_double_area(ts: Seq<SpecTriangle>) -> int
    decreases ts.len(),
{
    if ts.len() == 0 {
        0
    } else {
        total_double_area(ts.drop_last()) + double_area(ts.last())
    }
}

/// Whether a point lies in the closed cell at the origin.
pub open spec fn in_unit_cell(p: SpecPoint) -> bool {
    0 <= p.0 <= 65536 && 0 <= p.1 <= 65536
}

/// The frame of the cell at the origin with every edge crossed at its
/// midpoint.
pub open spec fn midpoint_frame() -> Frame {
    spec_frame(0, 0, 32768, 32768, 32768, 32768)
}

/// Twice the area of the solid part of a cell whose edges are crossed at
/// their midpoints, in units of an eighth of the cell: a corner is one
/// eighth, an edge a half, all but a corner seven eighths.
pub open spec fn solid_eighths(code: int) -> int {
    let n = corners_inside(code);
    if n == 1 {
        1
    } else if n == 2 {
        if is_saddle(code) {
            2
        } else {
            4
        }
    } else if n == 3 {
        7
    } else if n == 4 {
        8
    } else {
        0
    }
}

/// Whether the triangles of a case, with edges crossed at their
/// midpoints, lie in the cell and run counter-clockwise around an area
/// that is not zero.
pub open spec fn case_in_cell(code: int) -> bool {
    forall|i: int|
        0 <= i < spec_case_triangles(code, midpoint_frame()).len() ==> {
            let t = #[trigger] spec_case_triangles(code, midpoint_frame())[i];
            &&& in_unit_cell(t.0)
            &&& in_unit_cell(t.1)
            &&& in_unit_cell(t.2)
            &&& double_area(t) > 0
        }
}

/// Every one of the sixteen cases has the number of triangles that the
/// number of its inside samples calls for.
pub proof fn lemma_case_triangle_count(code: int, f: Frame)
    requires
        0 <= code < 16,
    ensures
        spec_case_triangles(code, f).len() == triangle_count(corners_inside(code)),
        spec_case_triangles(code, f).len() <= 3,
{
}

/// A case holds a piece of contour line unless the cell is empty or full.
pub proof fn lemma_case_segment_some(code: int, f: Frame)
    requires
        0 <= code < 16,
    ensures
        spec_case_segment(code, f) is Some <==> 0 < code < 15,
{
}

/// Whether the triangles of a case, with edges crossed at their
/// midpoints, add up to the solid part of the case.
pub open spec fn case_fills_solid(code: int) -> bool {
    total_double_area(spec_case_triangles(code, midpoint_frame())) == solid_eighths(code) * (32768
        * 32768)
}

/// With edges crossed at their midpoints, the triangles of every case lie
/// in the cell, run counter-clockwise around an area that is not zero, and
/// add up to the solid part of the case.
pub proof fn lemma_case_triangles_in_cell(code: int)
    requires
        0 <= code < 16,
    ensures
        case_in_cell(code),
        case_fills_solid(code),
{
    if code < 4 {
        lemma_cases_in_cell_0_to_3();
    } else if code < 8 {
        lemma_cases_in_cell_4_to_7();
    } else if code < 12 {
        lemma_cases_in_cell_8_to_11();
    } else {
        lemma_cases_in_cell_12_to_15();
    }
}

proof fn lemma_cases_in_cell_0_to_3()
    ensures
        case_in_cell(0) && case_fills_solid(0),
        case_in_cell(1) && case_fills_solid(1),
        case_in_cell(2) && case_fills_solid(2),
        case_in_cell(3) && case_fills_solid(3),
{
    assert(case_in_cell(0) && case_fills_solid(0)) by (nonlinear_arith) {
        reveal_with_fuel(total_double_area, 4);
    }
    assert(case_in_cell(1) && case_fills_solid(1)) by (nonlinear_arith) {
        reveal_with_fuel(total_double_area, 4);
    }
    assert(case_in_cell(2) && case_fills_solid(2)) by (nonlinear_arith) {
        reveal_with_fuel(total_double_area, 4);
    }
    assert(case_in_cell(3) && case_fills_solid(3)) by (nonlinear_arith) {
        reveal_with_fuel(total_double_area, 4);
    }
}

proof fn lemma_cases_in_cell_4_to_7()
    ensures
        case_in_cell(4) && case_fills_solid(4),
        case_in_cell(5) && case_fills_solid(5),
        case_in_cell(6) && case_fills_solid(6),
        case_in_cell(7) && case_fills_solid(7),
{
    assert(case_in_cell(4) && case_fills_solid(4)) by (nonlinear_arith) {
        reveal_with_fuel(total_double_area, 4);
    }
    assert(case_in_cell(5) && case_fills_solid(5)) by (nonlinear_arith) {
        reveal_with_fuel(total_double_area, 4);
    }
    assert(case_in_cell(6) && case_fills_solid(6)) by (nonlinear_arith) {
        reveal_with_fuel(total_double_area, 4);
    }
    assert(case_in_cell(7) && case_fills_solid(7)) by (nonlinear_arith) {
        reveal_with_fuel(total_double_area, 4);
    }
}

proof fn lemma_cases_in_cell_8_to_11()
    ensures
        case_in_cell(8) && case_fills_solid(8),
        case_in_cell(9) && case_fills_solid(9),
        case_in_cell(10) && case_fills_solid(10),
        case_in_cell(11) && case_fills_solid(11),
{
    assert(case_in_cell(8) && case_fills_solid(8)) by (nonlinear_arith) {
        reveal_with_fuel(total_double_area, 4);
    }
    assert(case_in_cell(9) && case_fills_solid(9)) by (nonlinear_arith) {
        reveal_with_fuel(total_double_area, 4);
    }
    assert(case_in_cell(10) && case_fills_solid(10)) by (nonlinear_arith) {
        reveal_with_fuel(total_double_area, 4);
    }
    assert(case_in_cell(11) && case_fills_solid(11)) by (nonlinear_arith) {
        reveal_with_fuel(total_double_area, 4);
    }
}

proof fn lemma_cases_in_cell_12_to_15()
    ensures
        case_in_cell(12) && case_fills_solid(12),
        case_in_cell(13) && case_fills_solid(13),
        case_in_cell(14) && case_fills_solid(14),
        case_in_cell(15) && case_fills_solid(15),
{
    assert(case_in_cell(12) && case_fills_solid(12)) by (nonlinear_arith) {
        reveal_with_fuel(total_double_area, 4);
    }
    assert(case_in_cell(13) && case_fills_solid(13)) by (nonlinear_arith) {
        reveal_with_fuel(total_double_area, 4);
    }
    assert(case_in_cell(14) && case_fills_solid(14)) by (nonlinear_arith) {
        reveal_with_fuel(total_double_area, 4);
    }
    assert(case_in_cell(15) && case_fills_solid(15)) by (nonlinear_arith) {
        reveal_with_fuel(total_double_area, 4);
    }
}

/// With edges crossed at their midpoints, the solid part of a case and
/// the solid part of the opposite case together have the area of the cell,
/// unless the case is a saddle.
pub proof fn lemma_case_and_opposite_fill(code: int)
    requires
        0 <= code < 16,
        !is_saddle(code),
    ensures
        solid_eighths(code) + solid_eighths(15 - code) == 8,
        total_double_area(spec_case_triangles(code, midpoint_frame())) + total_double_area(
            spec_case_triangles(15 - code, midpoint_frame()),
        ) == 2 * (65536 * 65536),
{
    lemma_case_triangles_in_cell(code);
    lemma_case_triangles_in_cell(15 - code);
    let a = solid_eighths(code);
    let b = solid_eighths(15 - code);
    assert(a + b == 8);
    assert(a * (32768 * 32768) + b * (32768 * 32768) == 2 * (65536 * 65536)) by (nonlinear_arith)
        requires a + b == 8;
}

/// The triangles of the cell at `(x, y)` whose four samples are `s0` (its
/// own), `s1` (next in x), `s2` (next in y) and `s3` (across).
pub open spec fn spec_cell_triangles(
    threshold: int,
    smooth: bool,
    x: int,
    y: int,
    s0: Option<i64>,
    s1: Option<i64>,
    s2: Option<i64>,
    s3: Option<i64>,
) -> Seq<SpecTriangle> {
    spec_case_triangles(
        case_code(
            inside(s0, threshold),
            inside(s1, threshold),
            inside(s2, threshold),
            inside(s3, threshold),
        ),
        spec_cell_frame(threshold, smooth, x, y, s0, s1, s2, s3),
    )
}

/// The piece of contour line in the cell at `(x, y)` with the samples `s0`
/// to `s3`.
pub open spec fn spec_cell_segment(
    threshold: int,
    smooth: bool,
    x: int,
    y: int,
    s0: Option<i64>,
    s1: Option<i64>,
    s2: Option<i64>,
    s3: Option<i64>,
) -> Option<SpecSegment> {
    spec_case_segment(
        case_code(
            inside(s0, threshold),
            inside(s1, threshold),
            inside(s2, threshold),
            inside(s3, threshold),
        ),
        spec_cell_frame(threshold, smooth, x, y, s0, s1, s2, s3),
    )
}

/// The frame of the cell at `(x, y)` with the samples `s0` to `s3`, a
/// sample that is not there counting as zero.
pub open spec fn spec_cell_frame(
    threshold: int,
    smooth: bool,
    x: int,
    y: int,
    s0: Option<i64>,
    s1: Option<i64>,
    s2: Option<i64>,
    s3: Option<i64>,
) -> Frame {
    let v0 = value_or_zero(s0);
    let v1 = value_or_zero(s1);
    let v2 = value_or_zero(s2);
    let v3 = value_or_zero(s3);
    spec_frame(
        x,
        y,
        spec_crossing(threshold, smooth, v0, v1),
        spec_crossing(threshold, smooth, v1, v3),
        spec_crossing(threshold, smooth, v2, v3),
        spec_crossing(threshold, smooth, v0, v2),
    )
}

/// Whether a sample is there and lies above the threshold.
pub fn is_inside(v: Option<i64>, threshold: i64) -> (b: bool)
    ensures
        b == inside(v, threshold as int),
{
    match v {
        Some(s) => s > threshold,
        None => false,
    }
}

/// The case of a cell from what is known of its four samples.
pub fn classify(b0: bool, b1: bool, b2: bool, b3: bool) -> (code: u8)
    ensures
        code == case_code(b0, b1, b2, b3),
        code < 16,
{
    let mut code: u8 = 0;
    if b0 {
        code = code + 1;
    }
    if b1 {
        code = code + 2;
    }
    if b2 {
        code = code + 4;
    }
    if b3 {
        code = code + 8;
    }
    code
}

/// How far along an edge the field passes the threshold.
pub fn edge_ratio(threshold: i64, a: i64, b: i64) -> (r: u32)
    ensures
        r == spec_edge_ratio(threshold as int, a as int, b as int),
        r <= 65536,
{
    if a == b {
        if threshold > a {
            65536
        } else {
            0
        }
    } else {
        let n = (threshold as i128 - a as i128) * 65536;
        let d = b as i128 - a as i128;
        let q = if d > 0 {
            div_floor_i128(n, d)
        } else {
            div_floor_i128(-n, -d)
        };
        if q < 0 {
            0
        } else if q > 65536 {
            65536
        } else {
            q as u32
        }
    }
}

/// Where an edge is crossed.
pub fn crossing(threshold: i64, smooth: bool, a: i64, b: i64) -> (r: u32)
    ensures
        r == spec_crossing(threshold as int, smooth, a as int, b as int),
        r <= 65536,
{
    if smooth {
        edge_ratio(threshold, a, b)
    } else {
        32768
    }
}

/// The triangles of a cell of case `code` at `(x, y)` whose edges are
/// crossed at the fractions `r0` to `r3`.
pub fn case_triangles(code: u8, x: u32, y: u32, r0: u32, r1: u32, r2: u32, r3: u32) -> (out: Vec<
    Triangle,
>)
    ensures
        triangles_view(out@) == spec_case_triangles(
            code as int,
            spec_frame(x as int, y as int, r0 as int, r1 as int, r2 as int, r3 as int),
        ),
        out.len() <= 3,
{
    let bx: i64 = x as i64 * 65536;
    let by: i64 = y as i64 * 65536;
    let c0: Point = (bx, by);
    let c1: Point = (bx + 65536, by);
    let c2: Point = (bx + 65536, by + 65536);
    let c3: Point = (bx, by + 65536);
    let e0: Point = (bx + r0 as i64, by);
    let e1: Point = (bx + 65536, by + r1 as i64);
    let e2: Point = (bx + r2 as i64, by + 65536);
    let e3: Point = (bx, by + r3 as i64);
    let out = match code {
        1 => vec![(e0, e3, c0)],
        2 => vec![(e0, c1, e1)],
        4 => vec![(e3, e2, c3)],
        8 => vec![(e1, c2, e2)],
        7 => vec![(c0, c1, e1), (c0, e1, e2), (c0, e2, c3)],
        11 => vec![(c1, c2, e2), (c1, e2, e3), (c1, e3, c0)],
        13 => vec![(c3, c0, e0), (c3, e0, e1), (c3, e1, c2)],
        14 => vec![(c2, c3, e3), (c2, e3, e0), (c2, e0, c1)],
        3 => vec![(c0, c1, e1), (c0, e1, e3)],
        12 => vec![(e1, c2, c3), (e1, c3, e3)],
        5 => vec![(c0, e0, e2), (c0, e2, c3)],
        10 => vec![(c1, c2, e2), (c1, e2, e0)],
        9 => vec![(c0, e0, e3), (e1, c2, e2)],
        6 => vec![(c1, e1, e0), (c3, e3, e2)],
        15 => vec![(c0, c1, c2), (c0, c2, c3)],
        _ => Vec::new(),
    };
    proof {
        assert(triangles_view(out@) =~= spec_case_triangles(
            code as int,
            spec_frame(x as int, y as int, r0 as int, r1 as int, r2 as int, r3 as int),
        ));
    }
    out
}

/// The piece of contour line in a cell of case `code` at `(x, y)` whose
/// edges are crossed at the fractions `r0` to `r3`.
pub fn case_segment(code: u8, x: u32, y: u32, r0: u32, r1: u32, r2: u32, r3: u32) -> (out: Option<
    Segment,
>)
    ensures
        match out {
            Some(s) => Some(segment_view(s)),
            None => None,
        } == spec_case_segment(
            code as int,
            spec_frame(x as int, y as int, r0 as int, r1 as int, r2 as int, r3 as int),
        ),
{
    let bx: i64 = x as i64 * 65536;
    let by: i64 = y as i64 * 65536;
    let c0: Point = (bx, by);
    let c1: Point = (bx + 65536, by);
    let c2: Point = (bx + 65536, by + 65536);
    let c3: Point = (bx, by + 65536);
    let e0: Point = (bx + r0 as i64, by);
    let e1: Point = (bx + 65536, by + r1 as i64);
    let e2: Point = (bx + r2 as i64, by + 65536);
    let e3: Point = (bx, by + r3 as i64);
    match code {
        1 | 14 => Some((e0, e3)),
        2 | 13 => Some((e0, e1)),
        4 | 11 => Some((e2, e3)),
        8 | 7 => Some((e1, e2)),
        3 | 12 => Some((e1, e3)),
        5 | 10 => Some((e0, e2)),
        9 => Some((c1, c3)),
        6 => Some((c0, c2)),
        _ => None,
    }
}

/// The triangles of the cell at `(x, y)` from its four samples.
pub fn cell_triangles(
    threshold: i64,
    smooth: bool,
    x: u32,
    y: u32,
    s0: Option<i64>,
    s1: Option<i64>,
    s2: Option<i64>,
    s3: Option<i64>,
) -> (out: Vec<Triangle>)
    ensures
        triangles_view(out@) == spec_cell_triangles(
            threshold as int,
            smooth,
            x as int,
            y as int,
            s0,
            s1,
            s2,
            s3,
        ),
        out.len() <= 3,
{
    let code = classify(
        is_inside(s0, threshold),
        is_inside(s1, threshold),
        is_inside(s2, threshold),
        is_inside(s3, threshold),
    );
    let v0 = s0.unwrap_or(0);
    let v1 = s1.unwrap_or(0);
    let v2 = s2.unwrap_or(0);
    let v3 = s3.unwrap_or(0);
    let r0 = crossing(threshold, smooth, v0, v1);
    let r1 = crossing(threshold, smooth, v1, v3);
    let r2 = crossing(threshold, smooth, v2, v3);
    let r3 = crossing(threshold, smooth, v0, v2);
    case_triangles(code, x, y, r0, r1, r2, r3)
}

/// The piece of contour line in the cell at `(x, y)` from its four
/// samples.
pub fn cell_segment(
    threshold: i64,
    smooth: bool,
    x: u32,
    y: u32,
    s0: Option<i64>,
    s1: Option<i64>,
    s2: Option<i64>,
    s3: Option<i64>,
) -> (out: Option<Segment>)
    ensures
        match out {
            Some(s) => Some(segment_view(s)),
            None => None,
        } == spec_cell_segment(threshold as int, smooth, x as int, y as int, s0, s1, s2, s3),
{
    let code = classify(
        is_inside(s0, threshold),
        is_inside(s1, threshold),
        is_inside(s2, threshold),
        is_inside(s3, threshold),
    );
    let v0 = s0.unwrap_or(0);
    let v1 = s1.unwrap_or(0);
    let v2 = s2.unwrap_or(0);
    let v3 = s3.unwrap_or(0);
    let r0 = crossing(threshold, smooth, v0, v1);
    let r1 = crossing(threshold, smooth, v1, v3);
    let r2 = crossing(threshold, smooth, v2, v3);
    let r3 = crossing(threshold, smooth, v0, v2);
    case_segment(code, x, y, r0, r1, r2, r3)
}

} // verus!
