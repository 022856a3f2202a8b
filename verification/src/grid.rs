//! A chunk of the field: storage, generation from noise, sampling across the
//! borders to its neighbours, contours, triangles and mesh buffers.

use vstd::prelude::*;
use crate::common::{div_floor_wide, floor_div, lemma_floor_div_bounds};
use crate::contour::{
    cell_segment, cell_triangles, lemma_case_triangle_count, Segment, segment_view, segments_view,
    spec_cell_frame, spec_cell_segment, spec_cell_triangles, SpecPoint, SpecSegment, SpecTriangle,
    Triangle, triangle_view, triangles_view,
};
use crate::fixed::{
    bilinear, clamp01, clamp_unit, div_floor_i128, lemma_bilinear_between, sat64, saturate,
    spec_bilinear,
};

verus! {

/// The largest number of cells along one side of a chunk: with at most
/// nine vertices to a cell, the mesh of a chunk this large still fits
/// 32-bit indices.
pub const MAX_SIDE: u32 = 21845;

/// One square tile of the scalar field: `width` by `height` cells, each a
/// fixed-point value between zero and one, stored row by row.
pub struct Grid {
    x: i64,
    y: i64,
    width: u32,
    height: u32,
    spacing: i64,
    data: Vec<i64>,
    meshed: bool,
    changed: bool,
}

/// The buffers of one chunk's mesh: for every corner of every triangle a
/// position, a colour, an index and the shading scalar.
pub struct MeshAttributes {
    pub positions: Vec<[i64; 3]>,
    pub colours: Vec<[i64; 4]>,
    pub indices: Vec<u32>,
    pub vs: Vec<i64>,
}

/// What a chunk holds, as plain mathematical values.
pub struct GridView {
    pub x: int,
    pub y: int,
    pub width: int,
    pub height: int,
    pub spacing: int,
    pub cells: Seq<i64>,
    pub meshed: bool,
    pub changed: bool,
}

impl GridView {
    /// Every cell is there and holds a value of the unit interval.
    pub open spec fn wf(self) -> bool {
        &&& 0 <= self.width <= MAX_SIDE
        &&& 0 <= self.height <= MAX_SIDE
        &&& self.cells.len() == self.width * self.height
        &&& forall|i: int| 0 <= i < self.cells.len() ==> 0 <= #[trigger] self.cells[i] <= 65536
    }

    /// Whether `(x, y)` is a cell of the chunk.
    pub open spec fn contains(self, x: int, y: int) -> bool {
        0 <= x < self.width && 0 <= y < self.height
    }

    /// The value of cell `(x, y)`, if the chunk has such a cell.
    pub open spec fn get(self, x: int, y: int) -> Option<i64> {
        if self.contains(x, y) {
            Some(self.cells[y * self.width + x])
        } else {
            None
        }
    }

    /// The chunk after cell `(x, y)` took the value `v`, held to the unit
    /// interval; the same chunk where it has no such cell.
    pub open spec fn set(self, x: int, y: int, v: int) -> GridView {
        if self.contains(x, y) {
            GridView {
                cells: self.cells.update(y * self.width + x, clamp_unit(v) as i64),
                changed: true,
                ..self
            }
        } else {
            self
        }
    }
}

/// The neighbours that a chunk is stitched to, as plain values: the one
/// across the corner, the one next in x and the one next in y.
pub type BridgesView = Option<(Option<GridView>, Option<GridView>, Option<GridView>)>;

/// What a neighbour holds, where there is one.
pub open spec fn neighbour_view(g: Option<&Grid>) -> Option<GridView> {
    match g {
        Some(g) => Some(g@),
        None => None,
    }
}

/// What the neighbours hold.
pub open spec fn bridges_view(bridges: Option<[Option<&Grid>; 3]>) -> BridgesView {
    match bridges {
        Some(b) => Some((neighbour_view(b[0]), neighbour_view(b[1]), neighbour_view(b[2]))),
        None => None,
    }
}

/// Every neighbour that is there is a well-formed chunk.
pub open spec fn bridges_wf(bridges: BridgesView) -> bool {
    bridges matches Some(b) ==> {
        &&& b.0 matches Some(g) ==> g.wf()
        &&& b.1 matches Some(g) ==> g.wf()
        &&& b.2 matches Some(g) ==> g.wf()
    }
}

impl GridView {
    /// The value of cell `(x, y)`, read from a neighbour where the cell
    /// lies past the far edge of this chunk: from the neighbour across the
    /// corner where it lies past both edges and that neighbour is there,
    /// else from the neighbour next in x, else from the one next in y.
    pub open spec fn get_bridge(self, x: int, y: int, bridges: BridgesView) -> Option<i64> {
        if self.contains(x, y) {
            self.get(x, y)
        } else {
            match bridges {
                None => None,
                Some(b) => {
                    if x >= self.width && y >= self.height && b.0 is Some {
                        b.0.unwrap().get(x - self.width, y - self.height)
                    } else if x >= self.width && b.1 is Some {
                        b.1.unwrap().get(x - self.width, y)
                    } else if y >= self.height && b.2 is Some {
                        b.2.unwrap().get(x, y - self.height)
                    } else {
                        None
                    }
                },
            }
        }
    }

    /// The field at the point `(x, y)`, given in cells in fixed point: the
    /// bilinear blend of the four samples around it, where all four are
    /// there.
    pub open spec fn gets_bridge(self, x: int, y: int, bridges: BridgesView) -> Option<int> {
        let x0 = floor_div(x, 65536);
        let y0 = floor_div(y, 65536);
        let v00 = self.get_bridge(x0, y0, bridges);
        let v10 = self.get_bridge(x0 + 1, y0, bridges);
        let v01 = self.get_bridge(x0, y0 + 1, bridges);
        let v11 = self.get_bridge(x0 + 1, y0 + 1, bridges);
        if v00 is Some && v10 is Some && v01 is Some && v11 is Some {
            Some(
                spec_bilinear(
                    v00.unwrap() as int,
                    v10.unwrap() as int,
                    v01.unwrap() as int,
                    v11.unwrap() as int,
                    x - x0 * 65536,
                    y - y0 * 65536,
                ),
            )
        } else {
            None
        }
    }
}

impl GridView {
    /// The triangles of the cell at `(x, y)`, whose far samples may come
    /// from the neighbours.
    pub open spec fn cell_triangles(
        self,
        threshold: int,
        smooth: bool,
        bridges: BridgesView,
        x: int,
        y: int,
    ) -> Seq<SpecTriangle> {
        spec_cell_triangles(
            threshold,
            smooth,
            x,
            y,
            self.get_bridge(x, y, bridges),
            self.get_bridge(x + 1, y, bridges),
            self.get_bridge(x, y + 1, bridges),
            self.get_bridge(x + 1, y + 1, bridges),
        )
    }

    /// The triangles of the first `n` cells of the walk that goes through
    /// the chunk column by column, each column from its first cell up.
    pub open spec fn triangles_upto(
        self,
        threshold: int,
        smooth: bool,
        bridges: BridgesView,
        n: int,
    ) -> Seq<SpecTriangle>
        decreases n,
    {
        if n <= 0 {
            Seq::empty()
        } else {
            self.triangles_upto(threshold, smooth, bridges, n - 1) + self.cell_triangles(
                threshold,
                smooth,
                bridges,
                (n - 1) / self.height,
                (n - 1) % self.height,
            )
        }
    }

    /// The triangles of the solid part of the chunk.
    pub open spec fn triangles(self, threshold: int, smooth: bool, bridges: BridgesView) -> Seq<
        SpecTriangle,
    > {
        self.triangles_upto(threshold, smooth, bridges, self.width * self.height)
    }

    /// The piece of contour line in the cell at `(x, y)`, from samples of
    /// this chunk alone.
    pub open spec fn cell_segment(self, threshold: int, smooth: bool, x: int, y: int) -> Option<
        SpecSegment,
    > {
        spec_cell_segment(
            threshold,
            smooth,
            x,
            y,
            self.get(x, y),
            self.get(x + 1, y),
            self.get(x, y + 1),
            self.get(x + 1, y + 1),
        )
    }

    /// The contour line through the first `n` cells of the walk through
    /// the cells that have all four samples in the chunk, column by column.
    pub open spec fn segments_upto(self, threshold: int, smooth: bool, n: int) -> Seq<SpecSegment>
        decreases n,
    {
        if n <= 0 {
            Seq::empty()
        } else {
            let before = self.segments_upto(threshold, smooth, n - 1);
            match self.cell_segment(
                threshold,
                smooth,
                (n - 1) / (self.height - 1),
                (n - 1) % (self.height - 1),
            ) {
                Some(s) => before.push(s),
                None => before,
            }
        }
    }

    /// The contour line of the chunk.
    pub open spec fn segments(self, threshold: int, smooth: bool) -> Seq<SpecSegment> {
        if self.width >= 1 && self.height >= 1 {
            self.segments_upto(threshold, smooth, (self.width - 1) * (self.height - 1))
        } else {
            Seq::empty()
        }
    }
}

/// The place in the world of a point given in cells in fixed point along
/// one axis, for a chunk that starts at `origin` with `spacing` between
/// its cells.
pub open spec fn spec_to_world(origin: int, spacing: int, p: int) -> int {
    saturate(origin + floor_div(p * spacing, 65536))
}

/// The place in the world of the far edge of a chunk of `cells` cells
/// along one axis.
pub open spec fn spec_far_edge(origin: int, spacing: int, cells: int) -> int {
    saturate(origin + cells * spacing)
}

/// Corner `j` of a list of triangles, three corners to a triangle.
pub open spec fn corner(ts: Seq<SpecTriangle>, j: int) -> SpecPoint {
    let t = ts[j / 3];
    if j % 3 == 0 {
        t.0
    } else if j % 3 == 1 {
        t.1
    } else {
        t.2
    }
}

/// The shading scalar of a vertex: how far the field at the vertex stands
/// above the threshold, as a fraction of the way from the threshold to
/// one, rounded down; zero where the field has no value at the vertex or
/// the threshold is one.
pub open spec fn spec_shade(sample: Option<int>, threshold: int) -> int {
    match sample {
        Some(v) => if threshold == 65536 {
            0
        } else {
            saturate(floor_div((v - threshold) * 65536, 65536 - threshold))
        },
        None => 0,
    }
}

/// Whether the buffers `m` hold the mesh of the triangles `ts` of the chunk
/// `g`: corner `j` of the list at place `j`, flat at depth zero, in grey,
/// with `j` as its index and its shading scalar.
pub open spec fn is_mesh_of(
    m: MeshAttributes,
    ts: Seq<SpecTriangle>,
    g: GridView,
    threshold: int,
    bridges: BridgesView,
) -> bool {
    &&& m.positions.len() == 3 * ts.len()
    &&& m.colours.len() == 3 * ts.len()
    &&& m.indices.len() == 3 * ts.len()
    &&& m.vs.len() == 3 * ts.len()
    &&& forall|j: int|
        0 <= j < 3 * ts.len() ==> {
            &&& (#[trigger] m.positions[j])[0] == corner(ts, j).0
            &&& m.positions[j][1] == corner(ts, j).1
            &&& m.positions[j][2] == 0
        }
    &&& forall|j: int|
        0 <= j < 3 * ts.len() ==> {
            &&& (#[trigger] m.colours[j])[0] == 32768
            &&& m.colours[j][1] == 32768
            &&& m.colours[j][2] == 32768
            &&& m.colours[j][3] == 65536
        }
    &&& forall|j: int| 0 <= j < 3 * ts.len() ==> #[trigger] m.indices[j] == j
    &&& forall|j: int|
        0 <= j < 3 * ts.len() ==> #[trigger] m.vs[j] == spec_shade(
            g.gets_bridge(corner(ts, j).0, corner(ts, j).1, bridges),
            threshold,
        )
}

/// A noise value between minus one and one turned into a field value:
/// moved to the range from zero to one, squared so that low values
/// prevail, and held to the unit interval.
pub open spec fn spec_shape(v: int) -> int {
    let moved = floor_div(v + 65536, 2);
    clamp_unit(floor_div(moved * moved, 65536))
}

/// The place in noise space of a cell with index `i` along one axis:
/// `i` steps of `scale` from `offset`, saturated.
pub open spec fn spec_sample_coord(i: int, scale: int, offset: int) -> int {
    saturate(i * scale + offset)
}

/// Whether cell `(i, j)` of `g` holds a value that `noise` gave for the
/// cell's place in noise space, shaped into the unit interval.
pub open spec fn cell_from_noise<F: Fn(i64, i64) -> i64>(
    noise: F,
    g: GridView,
    scale: int,
    offset: (int, int),
    i: int,
    j: int,
) -> bool {
    exists|v: i64|
        #[trigger] noise.ensures(
            (
                spec_sample_coord(i, scale, offset.0) as i64,
                spec_sample_coord(j, scale, offset.1) as i64,
            ),
            v,
        ) && g.get(i, j) == Some(spec_shape(v as int) as i64)
}

/// A cell read after a write holds the written value, held to the unit
/// interval, if it is the cell that was written, and else what it held
/// before.
pub proof fn lemma_get_after_set(g: GridView, x: int, y: int, v: int, a: int, b: int)
    requires
        g.wf(),
    ensures
        g.set(x, y, v).wf(),
        g.set(x, y, v).get(a, b) == (if a == x && b == y && g.contains(x, y) {
            Some(clamp_unit(v) as i64)
        } else {
            g.get(a, b)
        }),
{
    if g.contains(x, y) {
        lemma_cell_index(g.width, g.height, x, y);
        if g.contains(a, b) {
            lemma_cell_index(g.width, g.height, a, b);
            if b * g.width + a == y * g.width + x {
                assert(a == x && b == y) by (nonlinear_arith)
                    requires b * g.width + a == y * g.width + x, 0 <= a < g.width, 0 <= x
                        < g.width;
            }
        }
    }
}

/// The position in the walk of a cell gives back its column and its place
/// in the column.
pub proof fn lemma_walk_index(x: int, y: int, height: int)
    requires
        0 <= x,
        0 <= y < height,
    ensures
        (x * height + y) / height == x,
        (x * height + y) % height == y,
        (x + 1) * height == x * height + height,
        0 <= x * height,
{
    assert((x + 1) * height == x * height + height && 0 <= x * height) by (nonlinear_arith)
        requires 0 <= x, 0 < height;
    vstd::arithmetic::div_mod::lemma_fundamental_div_mod_converse(x * height + y, height, x, y);
}

/// The triangles of two lists put together, as plain values, are those of
/// the first followed by those of the second.
pub proof fn lemma_triangles_view_concat(a: Seq<Triangle>, b: Seq<Triangle>)
    ensures
        triangles_view(a + b) == triangles_view(a) + triangles_view(b),
{
    assert(triangles_view(a + b) =~= triangles_view(a) + triangles_view(b));
}

/// The first `n` cells of the walk hold at most three triangles each.
pub proof fn lemma_triangles_len(
    g: GridView,
    threshold: int,
    smooth: bool,
    bridges: BridgesView,
    n: int,
)
    requires
        0 <= n,
    ensures
        g.triangles_upto(threshold, smooth, bridges, n).len() <= 3 * n,
    decreases n,
{
    if n > 0 {
        lemma_triangles_len(g, threshold, smooth, bridges, n - 1);
        let x = (n - 1) / g.height;
        let y = (n - 1) % g.height;
        let code = crate::contour::case_code(
            crate::contour::inside(g.get_bridge(x, y, bridges), threshold),
            crate::contour::inside(g.get_bridge(x + 1, y, bridges), threshold),
            crate::contour::inside(g.get_bridge(x, y + 1, bridges), threshold),
            crate::contour::inside(g.get_bridge(x + 1, y + 1, bridges), threshold),
        );
        lemma_case_triangle_count(
            code,
            spec_cell_frame(
                threshold,
                smooth,
                x,
                y,
                g.get_bridge(x, y, bridges),
                g.get_bridge(x + 1, y, bridges),
                g.get_bridge(x, y + 1, bridges),
                g.get_bridge(x + 1, y + 1, bridges),
            ),
        );
    }
}

/// A sample read through the bridges is a value of the unit interval, and
/// there is none at a negative coordinate or past two chunks' width.
pub proof fn lemma_get_bridge_bounds(g: GridView, x: int, y: int, bridges: BridgesView)
    requires
        g.wf(),
        bridges_wf(bridges),
    ensures
        g.get_bridge(x, y, bridges) matches Some(v) ==> 0 <= v <= 65536 && 0 <= x < 2 * MAX_SIDE
            && 0 <= y < 2 * MAX_SIDE,
{
    if g.get_bridge(x, y, bridges) is Some {
        if g.contains(x, y) {
            lemma_cell_index(g.width, g.height, x, y);
        } else {
            let b = bridges.unwrap();
            if x >= g.width && y >= g.height && b.0 is Some {
                let n = b.0.unwrap();
                lemma_cell_index(n.width, n.height, x - g.width, y - g.height);
            } else if x >= g.width && b.1 is Some {
                let n = b.1.unwrap();
                lemma_cell_index(n.width, n.height, x - g.width, y);
            } else {
                let n = b.2.unwrap();
                lemma_cell_index(n.width, n.height, x, y - g.height);
            }
        }
    }
}

/// A chunk has at most `MAX_SIDE` squared cells.
pub proof fn lemma_cell_count(width: int, height: int)
    requires
        0 <= width <= MAX_SIDE,
        0 <= height <= MAX_SIDE,
    ensures
        0 <= width * height <= 477204025,
{
    assert(0 <= width * height <= 21845 * 21845) by (nonlinear_arith)
        requires 0 <= width <= 21845, 0 <= height <= 21845;
}

/// The index of a cell lies inside the storage of its chunk.
pub proof fn lemma_cell_index(width: int, height: int, x: int, y: int)
    requires
        0 <= x < width,
        0 <= y < height,
    ensures
        0 <= y * width + x < width * height,
        y * width >= 0,
{
    assert(y * width + x < width * height && y * width >= 0) by (nonlinear_arith)
        requires 0 <= x < width, 0 <= y < height;
}

impl View for Grid {
    type V = GridView;

    closed spec fn view(&self) -> GridView {
        GridView {
            x: self.x as int,
            y: self.y as int,
            width: self.width as int,
            height: self.height as int,
            spacing: self.spacing as int,
            cells: self.data@,
            meshed: self.meshed,
            changed: self.changed,
        }
    }
}

/// A noise value turned into a field value.
pub fn shape(v: i64) -> (r: i64)
    ensures
        r == spec_shape(v as int),
{
    let moved = div_floor_i128(v as i128 + 65536, 2);
    proof {
        lemma_floor_div_bounds(v + 65536, 2);
    }
    assert(0 <= moved * moved <= 0x4000_0000_0001_0000 * 0x4000_0000_0001_0000)
        by (nonlinear_arith)
        requires -0x4000_0000_0001_0000 <= moved <= 0x4000_0000_0001_0000;
    let squared = div_floor_i128(moved * moved, 65536);
    if squared < 0 {
        0
    } else if squared > 65536 {
        65536
    } else {
        squared as i64
    }
}

/// The place in noise space of the cell with index `i` along one axis.
pub fn sample_coord(i: u32, scale: i64, offset: i64) -> (r: i64)
    ensures
        r == spec_sample_coord(i as int, scale as int, offset as int),
{
    assert(-0x8000_0000_0000_0000_0000_0000 <= i * scale <= 0x8000_0000_0000_0000_0000_0000)
        by (nonlinear_arith)
        requires 0 <= i <= 0xffff_ffff, -0x8000_0000_0000_0000 <= scale <= 0x8000_0000_0000_0000;
    sat64(i as i128 * scale as i128 + offset as i128)
}

impl Grid {
    /// The invariant of a chunk.
    pub open spec fn wf(&self) -> bool {
        self@.wf()
    }

    /// A chunk of zeros with its first cell at world position `(x, y)`.
    pub fn new(x: i64, y: i64, width: u32, height: u32, spacing: i64) -> (g: Grid)
        requires
            width <= MAX_SIDE,
            height <= MAX_SIDE,
        ensures
            g.wf(),
            g@.x == x,
            g@.y == y,
            g@.width == width,
            g@.height == height,
            g@.spacing == spacing,
            !g@.meshed,
            !g@.changed,
            forall|i: int| 0 <= i < g@.cells.len() ==> g@.cells[i] == 0,
    {
        proof {
            lemma_cell_count(width as int, height as int);
        }
        let n = (width as u64 * height as u64) as usize;
        Grid { x, y, width, height, spacing, data: vec![0i64; n], meshed: false, changed: false }
    }

    /// The number of cells along x.
    pub fn width(&self) -> (w: u32)
        ensures
            w == self@.width,
    {
        self.width
    }

    /// The number of cells along y.
    pub fn height(&self) -> (h: u32)
        ensures
            h == self@.height,
    {
        self.height
    }

    /// The world position of the first cell.
    pub fn origin(&self) -> (p: (i64, i64))
        ensures
            p.0 == self@.x,
            p.1 == self@.y,
    {
        (self.x, self.y)
    }

    /// The distance in the world from one cell to the next.
    pub fn spacing(&self) -> (s: i64)
        ensures
            s == self@.spacing,
    {
        self.spacing
    }

    /// The place in the world of the point `p` of this chunk, given in
    /// cells in fixed point.
    pub fn to_world(&self, p: (i64, i64)) -> (w: (i64, i64))
        ensures
            w.0 == spec_to_world(self@.x, self@.spacing, p.0 as int),
            w.1 == spec_to_world(self@.y, self@.spacing, p.1 as int),
    {
        assert(-0x4000_0000_0000_0000_0000_0000_0000_0000 <= p.0 * self.spacing
            <= 0x4000_0000_0000_0000_0000_0000_0000_0000) by (nonlinear_arith)
            requires
                -0x8000_0000_0000_0000 <= p.0 <= 0x8000_0000_0000_0000,
                -0x8000_0000_0000_0000 <= self.spacing <= 0x8000_0000_0000_0000,
        ;
        assert(-0x4000_0000_0000_0000_0000_0000_0000_0000 <= p.1 * self.spacing
            <= 0x4000_0000_0000_0000_0000_0000_0000_0000) by (nonlinear_arith)
            requires
                -0x8000_0000_0000_0000 <= p.1 <= 0x8000_0000_0000_0000,
                -0x8000_0000_0000_0000 <= self.spacing <= 0x8000_0000_0000_0000,
        ;
        (
            sat64(self.x as i128 + div_floor_i128(p.0 as i128 * self.spacing as i128, 65536)),
            sat64(self.y as i128 + div_floor_i128(p.1 as i128 * self.spacing as i128, 65536)),
        )
    }

    /// The four corners of the chunk in the world: the first cell, the
    /// corner across, the one next in x and the one next in y.
    pub open spec fn spec_corners(&self) -> Seq<(i64, i64)> {
        let near = (self@.x as i64, self@.y as i64);
        let far = (
            spec_far_edge(self@.x, self@.spacing, self@.width) as i64,
            spec_far_edge(self@.y, self@.spacing, self@.height) as i64,
        );
        seq![near, far, (far.0, near.1), (near.0, far.1)]
    }

    /// The four corners of the chunk in the world.
    pub fn corners(&self) -> (c: [(i64, i64); 4])
        ensures
            c@ == self.spec_corners(),
    {
        assert(-0x8000_0000_0000_0000_0000_0000 <= self.width * self.spacing
            <= 0x8000_0000_0000_0000_0000_0000) by (nonlinear_arith)
            requires
                0 <= self.width <= 0xffff_ffff,
                -0x8000_0000_0000_0000 <= self.spacing <= 0x8000_0000_0000_0000,
        ;
        assert(-0x8000_0000_0000_0000_0000_0000 <= self.height * self.spacing
            <= 0x8000_0000_0000_0000_0000_0000) by (nonlinear_arith)
            requires
                0 <= self.height <= 0xffff_ffff,
                -0x8000_0000_0000_0000 <= self.spacing <= 0x8000_0000_0000_0000,
        ;
        let far_x = sat64(self.x as i128 + self.width as i128 * self.spacing as i128);
        let far_y = sat64(self.y as i128 + self.height as i128 * self.spacing as i128);
        let c = [(self.x, self.y), (far_x, far_y), (far_x, self.y), (self.x, far_y)];
        assert(c@ =~= self.spec_corners());
        c
    }

    /// Whether the chunk may be in view: whether `visible` holds of one of
    /// its four corners, asked in the order of `corners` until one is.
    pub fn in_viewport<F: Fn((i64, i64)) -> bool>(&self, visible: F) -> (seen: bool)
        requires
            forall|p: (i64, i64)| visible.requires((p,)),
        ensures
            seen ==> exists|i: int|
                0 <= i < 4 && visible.ensures((#[trigger] self.spec_corners()[i],), true),
            !seen ==> forall|i: int|
                0 <= i < 4 ==> visible.ensures((#[trigger] self.spec_corners()[i],), false),
    {
        let c = self.corners();
        assert(c@ =~= self.spec_corners());
        visible(c[0]) || visible(c[1]) || visible(c[2]) || visible(c[3])
    }

    /// Whether a cell was written since the flag was last cleared.
    pub fn changed(&self) -> (c: bool)
        ensures
            c == self@.changed,
    {
        self.changed
    }

    /// Whether a mesh was made of this chunk.
    pub fn meshed(&self) -> (m: bool)
        ensures
            m == self@.meshed,
    {
        self.meshed
    }

    /// Records that the chunk's mesh stands for its cells as they are now.
    pub fn mark_meshed(&mut self)
        ensures
            final(self)@ == (GridView { meshed: true, changed: false, ..old(self)@ }),
    {
        self.meshed = true;
        self.changed = false;
    }

    /// The value of cell `(x, y)`; `None` outside the chunk.
    pub fn get(&self, x: u32, y: u32) -> (r: Option<i64>)
        requires
            self.wf(),
        ensures
            r == self@.get(x as int, y as int),
            r matches Some(v) ==> 0 <= v <= 65536,
    {
        if x < self.width && y < self.height {
            proof {
                lemma_cell_index(self.width as int, self.height as int, x as int, y as int);
                lemma_cell_count(self.width as int, self.height as int);
            }
            let i = (y as u64 * self.width as u64 + x as u64) as usize;
            Some(self.data[i])
        } else {
            None
        }
    }

    /// Writes `v`, held to the unit interval, to cell `(x, y)` and marks
    /// the chunk as changed; does nothing outside the chunk.
    pub fn set(&mut self, x: u32, y: u32, v: i64)
        requires
            old(self).wf(),
        ensures
            final(self).wf(),
            final(self)@ == old(self)@.set(x as int, y as int, v as int),
    {
        if x < self.width && y < self.height {
            proof {
                lemma_cell_index(self.width as int, self.height as int, x as int, y as int);
                lemma_cell_count(self.width as int, self.height as int);
            }
            let i = (y as u64 * self.width as u64 + x as u64) as usize;
            self.data[i] = clamp01(v);
            self.changed = true;
        }
    }

    /// The value of cell `(x, y)`, read from one of up to three neighbours
    /// where the cell lies past the far edge of this chunk.
    pub fn get_bridge(&self, x: u32, y: u32, bridges: &Option<[Option<&Grid>; 3]>) -> (r: Option<
        i64,
    >)
        requires
            self.wf(),
            bridges_wf(bridges_view(*bridges)),
        ensures
            r == self@.get_bridge(x as int, y as int, bridges_view(*bridges)),
            r matches Some(v) ==> 0 <= v <= 65536,
    {
        match self.get(x, y) {
            Some(v) => Some(v),
            None => {
                let Some(bridges) = bridges else {
                    return None;
                };
                if x >= self.width && y >= self.height {
                    if let Some(grid) = &bridges[0] {
                        return grid.get(x - self.width, y - self.height);
                    }
                }
                if x >= self.width {
                    if let Some(grid) = &bridges[1] {
                        return grid.get(x - self.width, y);
                    }
                }
                if y >= self.height {
                    if let Some(grid) = &bridges[2] {
                        return grid.get(x, y - self.height);
                    }
                }
                None
            },
        }
    }

    /// The field at the point `(x, y)` of this chunk, given in cells in
    /// fixed point, blended from the four samples around it.
    pub fn gets_bridge(&self, x: i64, y: i64, bridges: &Option<[Option<&Grid>; 3]>) -> (r: Option<
        i64,
    >)
        requires
            self.wf(),
            bridges_wf(bridges_view(*bridges)),
        ensures
            match r {
                Some(v) => Some(v as int),
                None => None,
            } == self@.gets_bridge(x as int, y as int, bridges_view(*bridges)),
            r matches Some(v) ==> 0 <= v <= 65536,
    {
        let x0 = div_floor_wide(x, 65536);
        let y0 = div_floor_wide(y, 65536);
        proof {
            lemma_floor_div_bounds(x as int, 65536);
            lemma_floor_div_bounds(y as int, 65536);
            lemma_get_bridge_bounds(self@, x0 as int, y0 as int, bridges_view(*bridges));
            lemma_get_bridge_bounds(self@, x0 + 1, y0 as int, bridges_view(*bridges));
            lemma_get_bridge_bounds(self@, x0 as int, y0 + 1, bridges_view(*bridges));
            lemma_get_bridge_bounds(self@, x0 + 1, y0 + 1, bridges_view(*bridges));
        }
        if x0 < 0 || y0 < 0 || x0 >= 0xffff || y0 >= 0xffff {
            return None;
        }
        let tx = (x - x0 * 65536) as u16;
        let ty = (y - y0 * 65536) as u16;
        let cx = x0 as u32;
        let cy = y0 as u32;
        let v00 = self.get_bridge(cx, cy, bridges);
        let v10 = self.get_bridge(cx + 1, cy, bridges);
        let v01 = self.get_bridge(cx, cy + 1, bridges);
        let v11 = self.get_bridge(cx + 1, cy + 1, bridges);
        match (v00, v10, v01, v11) {
            (Some(a), Some(b), Some(c), Some(d)) => {
                proof {
                    lemma_bilinear_between(
                        a as int,
                        b as int,
                        c as int,
                        d as int,
                        tx as int,
                        ty as int,
                        0,
                        65536,
                    );
                }
                Some(bilinear(a as i32, b as i32, c as i32, d as i32, tx, ty))
            },
            _ => None,
        }
    }

    /// The contour line of the chunk at the iso-level `threshold`, one
    /// piece for each cell that it runs through.
    pub fn gen_segments(&self, threshold: i64, smooth: bool) -> (out: Vec<Segment>)
        requires
            self.wf(),
        ensures
            segments_view(out@) == self@.segments(threshold as int, smooth),
    {
        let mut segments: Vec<Segment> = Vec::new();
        if self.width == 0 || self.height == 0 {
            return segments;
        }
        let columns = self.width - 1;
        let rows = self.height - 1;
        let mut x: u32 = 0;
        while x < columns
            invariant
                self.wf(),
                x <= columns,
                columns == self.width - 1,
                rows == self.height - 1,
                segments_view(segments@) == self@.segments_upto(threshold as int, smooth, x * rows),
            decreases columns - x,
        {
            let mut y: u32 = 0;
            while y < rows
                invariant
                    self.wf(),
                    x < columns,
                    y <= rows,
                    columns == self.width - 1,
                    rows == self.height - 1,
                    segments_view(segments@) == self@.segments_upto(
                        threshold as int,
                        smooth,
                        x * rows + y,
                    ),
                decreases rows - y,
            {
                let s0 = self.get(x, y);
                let s1 = self.get(x + 1, y);
                let s2 = self.get(x, y + 1);
                let s3 = self.get(x + 1, y + 1);
                let ghost before = segments@;
                proof {
                    lemma_walk_index(x as int, y as int, rows as int);
                }
                if let Some(segment) = cell_segment(threshold, smooth, x, y, s0, s1, s2, s3) {
                    segments.push(segment);
                    assert(segments_view(segments@) =~= segments_view(before).push(
                        segment_view(segment),
                    ));
                }
                y = y + 1;
            }
            proof {
                if rows > 0 {
                    lemma_walk_index(x as int, 0, rows as int);
                } else {
                    assert(x * rows == 0 && (x + 1) * rows == 0) by (nonlinear_arith)
                        requires rows == 0;
                }
            }
            x = x + 1;
        }
        segments
    }

    /// The triangles that fill the solid part of the chunk at the
    /// iso-level `threshold`, cell by cell; the cells of the last column
    /// and row reach into the neighbours.
    pub fn gen_triangles(
        &self,
        threshold: i64,
        smooth: bool,
        bridges: &Option<[Option<&Grid>; 3]>,
    ) -> (out: Vec<Triangle>)
        requires
            self.wf(),
            bridges_wf(bridges_view(*bridges)),
        ensures
            triangles_view(out@) == self@.triangles(
                threshold as int,
                smooth,
                bridges_view(*bridges),
            ),
            out.len() <= 3 * (self@.width * self@.height),
    {
        let mut triangles: Vec<Triangle> = Vec::new();
        let mut x: u32 = 0;
        proof {
            lemma_cell_count(self.width as int, self.height as int);
        }
        while x < self.width
            invariant
                self.wf(),
                bridges_wf(bridges_view(*bridges)),
                x <= self.width,
                triangles_view(triangles@) == self@.triangles_upto(
                    threshold as int,
                    smooth,
                    bridges_view(*bridges),
                    x * self.height,
                ),
            decreases self.width - x,
        {
            let mut y: u32 = 0;
            while y < self.height
                invariant
                    self.wf(),
                    bridges_wf(bridges_view(*bridges)),
                    x < self.width,
                    y <= self.height,
                    triangles_view(triangles@) == self@.triangles_upto(
                        threshold as int,
                        smooth,
                        bridges_view(*bridges),
                        x * self.height + y,
                    ),
                decreases self.height - y,
            {
                let s0 = self.get_bridge(x, y, bridges);
                let s1 = self.get_bridge(x + 1, y, bridges);
                let s2 = self.get_bridge(x, y + 1, bridges);
                let s3 = self.get_bridge(x + 1, y + 1, bridges);
                let mut cell = cell_triangles(threshold, smooth, x, y, s0, s1, s2, s3);
                proof {
                    lemma_walk_index(x as int, y as int, self.height as int);
                    lemma_triangles_view_concat(triangles@, cell@);
                }
                triangles.append(&mut cell);
                y = y + 1;
            }
            proof {
                if self.height > 0 {
                    lemma_walk_index(x as int, 0, self.height as int);
                } else {
                    assert(x * self.height == 0 && (x + 1) * self.height == 0) by (nonlinear_arith)
                        requires self.height == 0;
                }
            }
            x = x + 1;
        }
        proof {
            lemma_triangles_len(
                self@,
                threshold as int,
                smooth,
                bridges_view(*bridges),
                self@.width * self@.height,
            );
            assert(triangles_view(triangles@).len() == triangles@.len());
        }
        triangles
    }

    /// The shading scalar of the vertex at `(x, y)`.
    pub fn shade(&self, x: i64, y: i64, threshold: i64, bridges: &Option<[Option<&Grid>; 3]>) -> (r:
        i64)
        requires
            self.wf(),
            bridges_wf(bridges_view(*bridges)),
        ensures
            r == spec_shade(
                self@.gets_bridge(x as int, y as int, bridges_view(*bridges)),
                threshold as int,
            ),
    {
        match self.gets_bridge(x, y, bridges) {
            Some(v) => {
                if threshold == 65536 {
                    0
                } else {
                    let n = (v as i128 - threshold as i128) * 65536;
                    let d = 65536 - threshold as i128;
                    if d > 0 {
                        sat64(div_floor_i128(n, d))
                    } else {
                        sat64(div_floor_i128(-n, -d))
                    }
                }
            },
            None => 0,
        }
    }

    /// The mesh of the solid part of the chunk at the iso-level
    /// `threshold`.
    pub fn gen_attributes(
        &self,
        threshold: i64,
        smooth: bool,
        bridges: &Option<[Option<&Grid>; 3]>,
    ) -> (m: MeshAttributes)
        requires
            self.wf(),
            bridges_wf(bridges_view(*bridges)),
        ensures
            is_mesh_of(
                m,
                self@.triangles(threshold as int, smooth, bridges_view(*bridges)),
                self@,
                threshold as int,
                bridges_view(*bridges),
            ),
    {
        let mut positions: Vec<[i64; 3]> = Vec::new();
        let mut colours: Vec<[i64; 4]> = Vec::new();
        let mut indices: Vec<u32> = Vec::new();
        let mut vs: Vec<i64> = Vec::new();
        let triangles = self.gen_triangles(threshold, smooth, bridges);
        let ghost ts = self@.triangles(threshold as int, smooth, bridges_view(*bridges));
        proof {
            lemma_cell_count(self.width as int, self.height as int);
            assert(ts.len() == triangles.len());
        }
        let mut i: usize = 0;
        while i < triangles.len()
            invariant
                self.wf(),
                bridges_wf(bridges_view(*bridges)),
                i <= triangles.len(),
                triangles.len() <= 3 * 477204025,
                triangles_view(triangles@) == ts,
                is_mesh_of(
                    MeshAttributes { positions, colours, indices, vs },
                    ts.subrange(0, i as int),
                    self@,
                    threshold as int,
                    bridges_view(*bridges),
                ),
            decreases triangles.len() - i,
        {
            let triangle = triangles[i];
            let ghost before = MeshAttributes { positions, colours, indices, vs };
            let ghost done = ts.subrange(0, i as int);
            let ghost next = ts.subrange(0, i + 1);
            assert(triangle_view(triangle) == ts[i as int]);
            positions.push([triangle.0.0, triangle.0.1, 0]);
            positions.push([triangle.1.0, triangle.1.1, 0]);
            positions.push([triangle.2.0, triangle.2.1, 0]);
            let c: [i64; 4] = [32768, 32768, 32768, 65536];
            colours.push(c);
            colours.push(c);
            colours.push(c);
            let k = i as u32;
            indices.push(k * 3);
            indices.push(k * 3 + 1);
            indices.push(k * 3 + 2);
            vs.push(self.shade(triangle.0.0, triangle.0.1, threshold, bridges));
            vs.push(self.shade(triangle.1.0, triangle.1.1, threshold, bridges));
            vs.push(self.shade(triangle.2.0, triangle.2.1, threshold, bridges));
            proof {
                let after = MeshAttributes { positions, colours, indices, vs };
                assert forall|j: int| 0 <= j < 3 * next.len() implies corner(next, j) == (if j < 3
                    * i {
                    corner(done, j)
                } else if j == 3 * i {
                    ts[i as int].0
                } else if j == 3 * i + 1 {
                    ts[i as int].1
                } else {
                    ts[i as int].2
                }) by {
                    assert(next[j / 3] == ts[j / 3]);
                    if j < 3 * i {
                        assert(done[j / 3] == ts[j / 3]);
                    }
                }
                assert(is_mesh_of(
                    after,
                    next,
                    self@,
                    threshold as int,
                    bridges_view(*bridges),
                ));
            }
            i = i + 1;
        }
        proof {
            assert(ts.subrange(0, i as int) == ts);
        }
        MeshAttributes { positions, colours, indices, vs }
    }

    /// Fills every cell from `noise`, a source of values between minus one
    /// and one: the cell `(i, j)` from the noise at `scale` times `(i, j)`
    /// plus `offset`, shaped into the unit interval.
    pub fn generate<F: Fn(i64, i64) -> i64>(&mut self, noise: F, scale: i64, offset: (i64, i64))
        requires
            old(self).wf(),
            forall|a: i64, b: i64| noise.requires((a, b)),
        ensures
            final(self).wf(),
            final(self)@.x == old(self)@.x,
            final(self)@.y == old(self)@.y,
            final(self)@.width == old(self)@.width,
            final(self)@.height == old(self)@.height,
            final(self)@.spacing == old(self)@.spacing,
            final(self)@.meshed == old(self)@.meshed,
            final(self)@.changed == (old(self)@.changed || (old(self)@.width > 0 && old(
                self,
            )@.height > 0)),
            forall|i: int, j: int|
                final(self)@.contains(i, j) ==> #[trigger] cell_from_noise(
                    noise,
                    final(self)@,
                    scale as int,
                    (offset.0 as int, offset.1 as int),
                    i,
                    j,
                ),
    {
        let ghost off = (offset.0 as int, offset.1 as int);
        let mut x: u32 = 0;
        while x < self.width
            invariant
                self.wf(),
                forall|a: i64, b: i64| noise.requires((a, b)),
                off == (offset.0 as int, offset.1 as int),
                x <= self.width,
                self@.x == old(self)@.x,
                self@.y == old(self)@.y,
                self@.width == old(self)@.width,
                self@.height == old(self)@.height,
                self@.spacing == old(self)@.spacing,
                self@.meshed == old(self)@.meshed,
                self@.changed == (old(self)@.changed || (x > 0 && self@.height > 0)),
                forall|i: int, j: int|
                    0 <= i < x && 0 <= j < self@.height ==> #[trigger] cell_from_noise(
                        noise,
                        self@,
                        scale as int,
                        off,
                        i,
                        j,
                    ),
            decreases self.width - x,
        {
            let mut y: u32 = 0;
            while y < self.height
                invariant
                    self.wf(),
                    forall|a: i64, b: i64| noise.requires((a, b)),
                    off == (offset.0 as int, offset.1 as int),
                    x < self.width,
                    y <= self.height,
                    self@.x == old(self)@.x,
                    self@.y == old(self)@.y,
                    self@.width == old(self)@.width,
                    self@.height == old(self)@.height,
                    self@.spacing == old(self)@.spacing,
                    self@.meshed == old(self)@.meshed,
                    self@.changed == (old(self)@.changed || ((x > 0 || y > 0) && self@.height
                        > 0)),
                    forall|i: int, j: int|
                        (0 <= i < x && 0 <= j < self@.height) || (i == x && 0 <= j < y)
                            ==> #[trigger] cell_from_noise(noise, self@, scale as int, off, i, j),
                decreases self.height - y,
            {
                let v = noise(sample_coord(x, scale, offset.0), sample_coord(y, scale, offset.1));
                let ghost before = self@;
                let shaped = shape(v);
                self.set(x, y, shaped);
                proof {
                    assert forall|i: int, j: int|
                        (0 <= i < x && 0 <= j < self@.height) || (i == x && 0 <= j < y + 1)
                            implies #[trigger] cell_from_noise(
                        noise,
                        self@,
                        scale as int,
                        off,
                        i,
                        j,
                    ) by {
                        lemma_get_after_set(before, x as int, y as int, shaped as int, i, j);
                        if i == x && j == y {
                            assert(noise.ensures(
                                (
                                    spec_sample_coord(i, scale as int, off.0) as i64,
                                    spec_sample_coord(j, scale as int, off.1) as i64,
                                ),
                                v,
                            ));
                        } else {
                            assert(cell_from_noise(noise, before, scale as int, off, i, j));
                        }
                    }
                }
                y = y + 1;
            }
            x = x + 1;
        }
    }
}

} // verus!
