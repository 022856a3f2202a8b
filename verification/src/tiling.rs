//! The triangles of the sixteen cases do not overlap, and a case and its
//! opposite tile the cell.

use vstd::prelude::*;
use crate::contour::{
    case_in_cell, is_saddle, lemma_case_and_opposite_fill, lemma_case_triangles_in_cell,
    midpoint_frame, spec_case_triangles, SpecPoint, SpecTriangle, total_double_area,
};

verus! {

/// Whether the point `p` lies on the outer side of the edge from `a` to
/// `b` of a counter-clockwise triangle, or on the edge's line.
pub open spec fn outside_edge(a: SpecPoint, b: SpecPoint, p: SpecPoint) -> bool {
    (b.0 - a.0) * (p.1 - a.1) - (b.1 - a.1) * (p.0 - a.0) <= 0
}

/// Whether an edge of the counter-clockwise triangle `s` has all of `t` on
/// its outer side.
pub open spec fn an_edge_separates(s: SpecTriangle, t: SpecTriangle) -> bool {
    ||| (outside_edge(s.0, s.1, t.0) && outside_edge(s.0, s.1, t.1) && outside_edge(s.0, s.1, t.2))
    ||| (outside_edge(s.1, s.2, t.0) && outside_edge(s.1, s.2, t.1) && outside_edge(s.1, s.2, t.2))
    ||| (outside_edge(s.2, s.0, t.0) && outside_edge(s.2, s.0, t.1) && outside_edge(s.2, s.0, t.2))
}

/// Whether two counter-clockwise triangles share no inner point: a line
/// through an edge of one of them has the other on its far side.
pub open spec fn apart(s: SpecTriangle, t: SpecTriangle) -> bool {
    an_edge_separates(s, t) || an_edge_separates(t, s)
}

/// Whether no triangle of case `a` overlaps a later triangle of case `b`,
/// or any other triangle of it where the cases differ, with edges crossed
/// at their midpoints.
pub open spec fn cases_apart(a: int, b: int) -> bool {
    forall|i: int, j: int|
        0 <= i < spec_case_triangles(a, midpoint_frame()).len() && 0 <= j < spec_case_triangles(
            b,
            midpoint_frame(),
        ).len() && (a != b || i < j) ==> apart(
            #[trigger] spec_case_triangles(a, midpoint_frame())[i],
            #[trigger] spec_case_triangles(b, midpoint_frame())[j],
        )
}

/// The triangle with the given corners, in units of half a cell.
pub open spec fn halves(ax: int, ay: int, bx: int, by: int, cx: int, cy: int) -> SpecTriangle {
    ((ax * 32768, ay * 32768), (bx * 32768, by * 32768), (cx * 32768, cy * 32768))
}

proof fn lemma_case_3_apart()
    ensures
        cases_apart(3, 3),
{
    let ts = spec_case_triangles(3, midpoint_frame());
    assert(apart(ts[0], ts[1])) by (nonlinear_arith)
        requires ts[0] == halves(0, 0, 2, 0, 2, 1), ts[1] == halves(0, 0, 2, 1, 0, 1);
}

proof fn lemma_case_5_apart()
    ensures
        cases_apart(5, 5),
{
    let ts = spec_case_triangles(5, midpoint_frame());
    assert(apart(ts[0], ts[1])) by (nonlinear_arith)
        requires ts[0] == halves(0, 0, 1, 0, 1, 2), ts[1] == halves(0, 0, 1, 2, 0, 2);
}

proof fn lemma_case_6_apart()
    ensures
        cases_apart(6, 6),
{
    let ts = spec_case_triangles(6, midpoint_frame());
    assert(apart(ts[0], ts[1])) by (nonlinear_arith)
        requires ts[0] == halves(2, 0, 2, 1, 1, 0), ts[1] == halves(0, 2, 0, 1, 1, 2);
}

proof fn lemma_case_7_apart()
    ensures
        cases_apart(7, 7),
{
    let ts = spec_case_triangles(7, midpoint_frame());
    assert(apart(ts[0], ts[1])) by (nonlinear_arith)
        requires ts[0] == halves(0, 0, 2, 0, 2, 1), ts[1] == halves(0, 0, 2, 1, 1, 2);
    assert(apart(ts[0], ts[2])) by (nonlinear_arith)
        requires ts[0] == halves(0, 0, 2, 0, 2, 1), ts[2] == halves(0, 0, 1, 2, 0, 2);
    assert(apart(ts[1], ts[2])) by (nonlinear_arith)
        requires ts[1] == halves(0, 0, 2, 1, 1, 2), ts[2] == halves(0, 0, 1, 2, 0, 2);
}

proof fn lemma_case_9_apart()
    ensures
        cases_apart(9, 9),
{
    let ts = spec_case_triangles(9, midpoint_frame());
    assert(apart(ts[0], ts[1])) by (nonlinear_arith)
        requires ts[0] == halves(0, 0, 1, 0, 0, 1), ts[1] == halves(2, 1, 2, 2, 1, 2);
}

proof fn lemma_case_10_apart()
    ensures
        cases_apart(10, 10),
{
    let ts = spec_case_triangles(10, midpoint_frame());
    assert(apart(ts[0], ts[1])) by (nonlinear_arith)
        requires ts[0] == halves(2, 0, 2, 2, 1, 2), ts[1] == halves(2, 0, 1, 2, 1, 0);
}

proof fn lemma_case_11_apart()
    ensures
        cases_apart(11, 11),
{
    let ts = spec_case_triangles(11, midpoint_frame());
    assert(apart(ts[0], ts[1])) by (nonlinear_arith)
        requires ts[0] == halves(2, 0, 2, 2, 1, 2), ts[1] == halves(2, 0, 1, 2, 0, 1);
    assert(apart(ts[0], ts[2])) by (nonlinear_arith)
        requires ts[0] == halves(2, 0, 2, 2, 1, 2), ts[2] == halves(2, 0, 0, 1, 0, 0);
    assert(apart(ts[1], ts[2])) by (nonlinear_arith)
        requires ts[1] == halves(2, 0, 1, 2, 0, 1), ts[2] == halves(2, 0, 0, 1, 0, 0);
}

proof fn lemma_case_12_apart()
    ensures
        cases_apart(12, 12),
{
    let ts = spec_case_triangles(12, midpoint_frame());
    assert(apart(ts[0], ts[1])) by (nonlinear_arith)
        requires ts[0] == halves(2, 1, 2, 2, 0, 2), ts[1] == halves(2, 1, 0, 2, 0, 1);
}

proof fn lemma_case_13_apart()
    ensures
        cases_apart(13, 13),
{
    let ts = spec_case_triangles(13, midpoint_frame());
    assert(apart(ts[0], ts[1])) by (nonlinear_arith)
        requires ts[0] == halves(0, 2, 0, 0, 1, 0), ts[1] == halves(0, 2, 1, 0, 2, 1);
    assert(apart(ts[0], ts[2])) by (nonlinear_arith)
        requires ts[0] == halves(0, 2, 0, 0, 1, 0), ts[2] == halves(0, 2, 2, 1, 2, 2);
    assert(apart(ts[1], ts[2])) by (nonlinear_arith)
        requires ts[1] == halves(0, 2, 1, 0, 2, 1), ts[2] == halves(0, 2, 2, 1, 2, 2);
}

proof fn lemma_case_14_apart()
    ensures
        cases_apart(14, 14),
{
    let ts = spec_case_triangles(14, midpoint_frame());
    assert(apart(ts[0], ts[1])) by (nonlinear_arith)
        requires ts[0] == halves(2, 2, 0, 2, 0, 1), ts[1] == halves(2, 2, 0, 1, 1, 0);
    assert(apart(ts[0], ts[2])) by (nonlinear_arith)
        requires ts[0] == halves(2, 2, 0, 2, 0, 1), ts[2] == halves(2, 2, 1, 0, 2, 0);
    assert(apart(ts[1], ts[2])) by (nonlinear_arith)
        requires ts[1] == halves(2, 2, 0, 1, 1, 0), ts[2] == halves(2, 2, 1, 0, 2, 0);
}

proof fn lemma_case_15_apart()
    ensures
        cases_apart(15, 15),
{
    let ts = spec_case_triangles(15, midpoint_frame());
    assert(apart(ts[0], ts[1])) by (nonlinear_arith)
        requires ts[0] == halves(0, 0, 2, 0, 2, 2), ts[1] == halves(0, 0, 2, 2, 0, 2);
}

proof fn lemma_cases_1_and_14_apart()
    ensures
        cases_apart(1, 14),
        cases_apart(14, 1),
{
    let ts = spec_case_triangles(1, midpoint_frame());
    let us = spec_case_triangles(14, midpoint_frame());
    assert(apart(ts[0], us[0])) by (nonlinear_arith)
        requires ts[0] == halves(1, 0, 0, 1, 0, 0), us[0] == halves(2, 2, 0, 2, 0, 1);
    assert(apart(ts[0], us[1])) by (nonlinear_arith)
        requires ts[0] == halves(1, 0, 0, 1, 0, 0), us[1] == halves(2, 2, 0, 1, 1, 0);
    assert(apart(ts[0], us[2])) by (nonlinear_arith)
        requires ts[0] == halves(1, 0, 0, 1, 0, 0), us[2] == halves(2, 2, 1, 0, 2, 0);
}

proof fn lemma_cases_2_and_13_apart()
    ensures
        cases_apart(2, 13),
        cases_apart(13, 2),
{
    let ts = spec_case_triangles(2, midpoint_frame());
    let us = spec_case_triangles(13, midpoint_frame());
    assert(apart(ts[0], us[0])) by (nonlinear_arith)
        requires ts[0] == halves(1, 0, 2, 0, 2, 1), us[0] == halves(0, 2, 0, 0, 1, 0);
    assert(apart(ts[0], us[1])) by (nonlinear_arith)
        requires ts[0] == halves(1, 0, 2, 0, 2, 1), us[1] == halves(0, 2, 1, 0, 2, 1);
    assert(apart(ts[0], us[2])) by (nonlinear_arith)
        requires ts[0] == halves(1, 0, 2, 0, 2, 1), us[2] == halves(0, 2, 2, 1, 2, 2);
}

proof fn lemma_cases_3_and_12_apart()
    ensures
        cases_apart(3, 12),
        cases_apart(12, 3),
{
    let ts = spec_case_triangles(3, midpoint_frame());
    let us = spec_case_triangles(12, midpoint_frame());
    assert(apart(ts[0], us[0])) by (nonlinear_arith)
        requires ts[0] == halves(0, 0, 2, 0, 2, 1), us[0] == halves(2, 1, 2, 2, 0, 2);
    assert(apart(ts[0], us[1])) by (nonlinear_arith)
        requires ts[0] == halves(0, 0, 2, 0, 2, 1), us[1] == halves(2, 1, 0, 2, 0, 1);
    assert(apart(ts[1], us[0])) by (nonlinear_arith)
        requires ts[1] == halves(0, 0, 2, 1, 0, 1), us[0] == halves(2, 1, 2, 2, 0, 2);
    assert(apart(ts[1], us[1])) by (nonlinear_arith)
        requires ts[1] == halves(0, 0, 2, 1, 0, 1), us[1] == halves(2, 1, 0, 2, 0, 1);
}

proof fn lemma_cases_4_and_11_apart()
    ensures
        cases_apart(4, 11),
        cases_apart(11, 4),
{
    let ts = spec_case_triangles(4, midpoint_frame());
    let us = spec_case_triangles(11, midpoint_frame());
    assert(apart(ts[0], us[0])) by (nonlinear_arith)
        requires ts[0] == halves(0, 1, 1, 2, 0, 2), us[0] == halves(2, 0, 2, 2, 1, 2);
    assert(apart(ts[0], us[1])) by (nonlinear_arith)
        requires ts[0] == halves(0, 1, 1, 2, 0, 2), us[1] == halves(2, 0, 1, 2, 0, 1);
    assert(apart(ts[0], us[2])) by (nonlinear_arith)
        requires ts[0] == halves(0, 1, 1, 2, 0, 2), us[2] == halves(2, 0, 0, 1, 0, 0);
}

proof fn lemma_cases_5_and_10_apart()
    ensures
        cases_apart(5, 10),
        cases_apart(10, 5),
{
    let ts = spec_case_triangles(5, midpoint_frame());
    let us = spec_case_triangles(10, midpoint_frame());
    assert(apart(ts[0], us[0])) by (nonlinear_arith)
        requires ts[0] == halves(0, 0, 1, 0, 1, 2), us[0] == halves(2, 0, 2, 2, 1, 2);
    assert(apart(ts[0], us[1])) by (nonlinear_arith)
        requires ts[0] == halves(0, 0, 1, 0, 1, 2), us[1] == halves(2, 0, 1, 2, 1, 0);
    assert(apart(ts[1], us[0])) by (nonlinear_arith)
        requires ts[1] == halves(0, 0, 1, 2, 0, 2), us[0] == halves(2, 0, 2, 2, 1, 2);
    assert(apart(ts[1], us[1])) by (nonlinear_arith)
        requires ts[1] == halves(0, 0, 1, 2, 0, 2), us[1] == halves(2, 0, 1, 2, 1, 0);
}

proof fn lemma_cases_7_and_8_apart()
    ensures
        cases_apart(7, 8),
        cases_apart(8, 7),
{
    let ts = spec_case_triangles(7, midpoint_frame());
    let us = spec_case_triangles(8, midpoint_frame());
    assert(apart(ts[0], us[0])) by (nonlinear_arith)
        requires ts[0] == halves(0, 0, 2, 0, 2, 1), us[0] == halves(2, 1, 2, 2, 1, 2);
    assert(apart(ts[1], us[0])) by (nonlinear_arith)
        requires ts[1] == halves(0, 0, 2, 1, 1, 2), us[0] == halves(2, 1, 2, 2, 1, 2);
    assert(apart(ts[2], us[0])) by (nonlinear_arith)
        requires ts[2] == halves(0, 0, 1, 2, 0, 2), us[0] == halves(2, 1, 2, 2, 1, 2);
}

/// With edges crossed at their midpoints, no two triangles of a case
/// overlap.
pub proof fn lemma_case_triangles_apart(code: int)
    requires
        0 <= code < 16,
    ensures
        cases_apart(code, code),
{
    if code == 3 {
        lemma_case_3_apart();
    } else if code == 5 {
        lemma_case_5_apart();
    } else if code == 6 {
        lemma_case_6_apart();
    } else if code == 7 {
        lemma_case_7_apart();
    } else if code == 9 {
        lemma_case_9_apart();
    } else if code == 10 {
        lemma_case_10_apart();
    } else if code == 11 {
        lemma_case_11_apart();
    } else if code == 12 {
        lemma_case_12_apart();
    } else if code == 13 {
        lemma_case_13_apart();
    } else if code == 14 {
        lemma_case_14_apart();
    } else if code == 15 {
        lemma_case_15_apart();
    }
}

/// With edges crossed at their midpoints, a case and its opposite tile the
/// cell, unless the case is a saddle: the triangles of both lie in the
/// cell, no two of them overlap, and together they have the area of the
/// cell.
pub proof fn lemma_case_and_opposite_tile(code: int)
    requires
        0 <= code < 16,
        !is_saddle(code),
    ensures
        case_in_cell(code),
        case_in_cell(15 - code),
        cases_apart(code, code),
        cases_apart(15 - code, 15 - code),
        cases_apart(code, 15 - code),
        total_double_area(spec_case_triangles(code, midpoint_frame())) + total_double_area(
            spec_case_triangles(15 - code, midpoint_frame()),
        ) == 2 * (65536 * 65536),
{
    lemma_case_triangles_in_cell(code);
    lemma_case_triangles_in_cell(15 - code);
    lemma_case_triangles_apart(code);
    lemma_case_triangles_apart(15 - code);
    lemma_case_and_opposite_fill(code);
    if code == 1 || code == 14 {
        lemma_cases_1_and_14_apart();
    } else if code == 2 || code == 13 {
        lemma_cases_2_and_13_apart();
    } else if code == 3 || code == 12 {
        lemma_cases_3_and_12_apart();
    } else if code == 4 || code == 11 {
        lemma_cases_4_and_11_apart();
    } else if code == 5 || code == 10 {
        lemma_cases_5_and_10_apart();
    } else if code == 7 || code == 8 {
        lemma_cases_7_and_8_apart();
    }
}

} // verus!
