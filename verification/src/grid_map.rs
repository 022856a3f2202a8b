//! The field: chunks under their chunk coordinates, addressed by world cells
//! and world positions, with sampling, normals and the upkeep of meshes.

use vstd::prelude::*;
use bevy::platform::collections::HashMap;
use bevy::platform::hash::FixedHasher;
use crate::common::{
    chunk_coord, div_floor_wide, floor_div, lemma_floor_div_bounds, local_coord, split_cell,
};
use crate::contour::{value_or_zero, SpecTriangle};
use crate::fixed::{
    bilinear, bilinear_num, clamp_unit, div_floor_i128, is_unit,
    lemma_bilinear_at_corner_and_midpoint, lemma_bilinear_between, lemma_normalize_unit, normalize,
    sat64, saturate, spec_bilinear, spec_bilinear_num, spec_normalize,
};
use crate::grid::{
    bridges_view, bridges_wf, BridgesView, cell_from_noise, Grid, GridView, is_mesh_of, MAX_SIDE,
    MeshAttributes,
};

verus! {

/// `HashMap` of `bevy::platform::collections`, held as it is: nothing of
/// its inside is known here.
#[verifier::external_type_specification]
#[verifier::external_body]
#[verifier::reject_recursive_types(K)]
#[verifier::reject_recursive_types(V)]
#[verifier::reject_recursive_types(S)]
pub struct ExHashMap<K, V, S>(HashMap<K, V, S>);

/// `FixedHasher` of `bevy::platform::hash`, the hasher that the table is
/// made with.
#[verifier::external_type_specification]
#[verifier::external_body]
pub struct ExFixedHasher(FixedHasher);

/// The chunks that a table holds, each under its chunk coordinates.
pub uninterp spec fn chunks(table: HashMap<(i32, i32), Grid>) -> Map<(i32, i32), Grid>;

/// `HashMap::new` of `bevy::platform::collections`: a table that holds
/// nothing.
#[verifier::external_body]
fn table_new() -> (table: HashMap<(i32, i32), Grid>)
    ensures
        chunks(table) =~= Map::empty(),
{
    HashMap::new()
}

/// `HashMap::get`: the chunk stored under `key`, if there is one.
#[verifier::external_body]
fn table_get(table: &HashMap<(i32, i32), Grid>, key: (i32, i32)) -> (found: Option<&Grid>)
    ensures
        found matches Some(g) ==> chunks(*table).contains_key(key) && *g == chunks(*table)[key],
        found is None ==> !chunks(*table).contains_key(key),
{
    table.get(&key)
}

/// `HashMap::get_mut`: the chunk stored under `key`, if there is one, to be
/// changed in place; nothing else in the table changes.
#[verifier::external_body]
fn table_get_mut(table: &mut HashMap<(i32, i32), Grid>, key: (i32, i32)) -> (found: Option<
    &mut Grid,
>)
    ensures
        found matches Some(g) ==> chunks(*old(table)).contains_key(key) && *g == chunks(
            *old(table),
        )[key] && chunks(*final(table)) == chunks(*old(table)).insert(key, *final(g)),
        found is None ==> !chunks(*old(table)).contains_key(key) && chunks(*final(table))
            == chunks(*old(table)),
{
    table.get_mut(&key)
}

/// `HashMap::insert`: afterwards `key` stands for `chunk`, and what it
/// stood for before is handed back.
#[verifier::external_body]
fn table_insert(table: &mut HashMap<(i32, i32), Grid>, key: (i32, i32), chunk: Grid) -> (before:
    Option<Grid>)
    ensures
        chunks(*final(table)) == chunks(*old(table)).insert(key, chunk),
        before matches Some(g) ==> chunks(*old(table)).contains_key(key) && g == chunks(
            *old(table),
        )[key],
        before is None ==> !chunks(*old(table)).contains_key(key),
{
    table.insert(key, chunk)
}

/// `HashMap::keys`: every key of the table once, in no stated order.
#[verifier::external_body]
fn table_keys(table: &HashMap<(i32, i32), Grid>) -> (keys: Vec<(i32, i32)>)
    ensures
        keys@.no_duplicates(),
        forall|k: (i32, i32)| keys@.contains(k) <==> chunks(*table).contains_key(k),
{
    table.keys().copied().collect()
}

/// The sparse field: chunks of `grid_size` by `grid_size` cells under
/// their chunk coordinates, `scale` apart from cell to cell.
pub struct GridMap {
    scale: i64,
    grid_size: u32,
    grids: HashMap<(i32, i32), Grid>,
    threshold: i64,
    smooth: bool,
}

/// What the field holds, as plain mathematical values.
pub struct GridMapView {
    pub scale: int,
    pub grid_size: int,
    pub threshold: int,
    pub smooth: bool,
    pub chunks: Map<(int, int), GridView>,
}

/// Whether `c` is a chunk coordinate or a world cell index: a 32-bit
/// signed integer.
pub open spec fn is_coord(c: int) -> bool {
    i32::MIN <= c <= i32::MAX
}

/// The world position of the first cell of chunk `c` along one axis.
pub open spec fn spec_chunk_origin(c: int, scale: int, size: int) -> int {
    saturate(c * scale * size)
}

impl GridMapView {
    /// Every chunk lies under coordinates of 32 bits, has the field's size
    /// and spacing and stands at its place in the world.
    pub open spec fn wf(self) -> bool {
        &&& 1 <= self.grid_size <= MAX_SIDE
        &&& forall|k: (int, int)| #[trigger]
            self.chunks.contains_key(k) ==> {
                &&& is_coord(k.0)
                &&& is_coord(k.1)
                &&& self.chunk_fits(k, self.chunks[k])
            }
    }

    /// Whether `g` can stand as the chunk at `k`.
    pub open spec fn chunk_fits(self, k: (int, int), g: GridView) -> bool {
        &&& g.wf()
        &&& g.width == self.grid_size
        &&& g.height == self.grid_size
        &&& g.spacing == self.scale
        &&& g.x == spec_chunk_origin(k.0, self.scale, self.grid_size)
        &&& g.y == spec_chunk_origin(k.1, self.scale, self.grid_size)
    }

    /// The chunk at `k`, if there is one.
    pub open spec fn chunk(self, k: (int, int)) -> Option<GridView> {
        if self.chunks.contains_key(k) {
            Some(self.chunks[k])
        } else {
            None
        }
    }

    /// The value of the world cell `(x, y)`: that of its cell in its
    /// chunk, if the chunk is there.
    pub open spec fn get(self, x: int, y: int) -> Option<i64> {
        let k = (chunk_coord(x, self.grid_size), chunk_coord(y, self.grid_size));
        if is_coord(x) && is_coord(y) && self.chunks.contains_key(k) {
            self.chunks[k].get(local_coord(x, self.grid_size), local_coord(y, self.grid_size))
        } else {
            None
        }
    }

    /// A fresh chunk for the coordinates `k`: all zeros, neither meshed
    /// nor changed.
    pub open spec fn fresh_chunk(self, k: (int, int)) -> GridView {
        GridView {
            x: spec_chunk_origin(k.0, self.scale, self.grid_size),
            y: spec_chunk_origin(k.1, self.scale, self.grid_size),
            width: self.grid_size,
            height: self.grid_size,
            spacing: self.scale,
            cells: Seq::new((self.grid_size * self.grid_size) as nat, |i: int| 0i64),
            meshed: false,
            changed: false,
        }
    }

    /// The chunk at `k`, or a fresh one where there is none.
    pub open spec fn chunk_or_fresh(self, k: (int, int)) -> GridView {
        if self.chunks.contains_key(k) {
            self.chunks[k]
        } else {
            self.fresh_chunk(k)
        }
    }

    /// The field after the world cell `(x, y)` took the value `v`, held to
    /// the unit interval, in a chunk that is made first where it was not
    /// there.
    pub open spec fn set(self, x: int, y: int, v: int) -> GridMapView {
        let k = (chunk_coord(x, self.grid_size), chunk_coord(y, self.grid_size));
        GridMapView {
            chunks: self.chunks.insert(
                k,
                self.chunk_or_fresh(k).set(
                    local_coord(x, self.grid_size),
                    local_coord(y, self.grid_size),
                    v,
                ),
            ),
            ..self
        }
    }
}

/// A place of the world, given in fixed point, in units of cells of a
/// field with `scale` between its cells.
pub open spec fn spec_to_grid(w: int, scale: int) -> int {
    floor_div(w * 65536, scale)
}

impl GridMapView {
    /// The field at the point `(x, y)`, given in cells in fixed point: the
    /// bilinear blend of the four world cells around it, where all four
    /// are there.
    pub open spec fn gets(self, x: int, y: int) -> Option<int> {
        let x0 = floor_div(x, 65536);
        let y0 = floor_div(y, 65536);
        let v00 = self.get(x0, y0);
        let v10 = self.get(x0 + 1, y0);
        let v01 = self.get(x0, y0 + 1);
        let v11 = self.get(x0 + 1, y0 + 1);
        if v00 is Some && v10 is Some && v01 is Some && v11 is Some {
            Some(
                spec_bilinear(
                    v00.unwrap() as int,
                    v10.unwrap() as int,
                    v01.unwrap() as int,
                    v11.unwrap() as int,
                    x - x0 * 65536,
                    y - y0 * 65536,
                ),
            )
        } else {
            None
        }
    }

    /// The field at the world position `(x, y)`.
    pub open spec fn get_world(self, x: int, y: int) -> Option<int> {
        if self.scale == 0 {
            None
        } else {
            self.gets(spec_to_grid(x, self.scale), spec_to_grid(y, self.scale))
        }
    }

    /// The slope of the field at the world cell `(x, y)`: the difference
    /// of its two neighbours in x and of its two neighbours in y, where
    /// all four are there.
    pub open spec fn gradient(self, x: int, y: int) -> Option<(int, int)> {
        let east = self.get(x + 1, y);
        let west = self.get(x - 1, y);
        let north = self.get(x, y + 1);
        let south = self.get(x, y - 1);
        if east is Some && west is Some && north is Some && south is Some {
            Some((east.unwrap() - west.unwrap(), north.unwrap() - south.unwrap()))
        } else {
            None
        }
    }

    /// The slope of the field at the point `(x, y)`, given in cells in
    /// fixed point, times 2^32: the bilinear blend of the slopes at the
    /// four world cells around it, where all four have one.
    pub open spec fn slope(self, x: int, y: int) -> Option<(int, int)> {
        let x0 = floor_div(x, 65536);
        let y0 = floor_div(y, 65536);
        let g00 = self.gradient(x0, y0);
        let g10 = self.gradient(x0 + 1, y0);
        let g01 = self.gradient(x0, y0 + 1);
        let g11 = self.gradient(x0 + 1, y0 + 1);
        if g00 is Some && g10 is Some && g01 is Some && g11 is Some {
            Some(
                (
                    spec_bilinear_num(
                        g00.unwrap().0,
                        g10.unwrap().0,
                        g01.unwrap().0,
                        g11.unwrap().0,
                        x - x0 * 65536,
                        y - y0 * 65536,
                    ),
                    spec_bilinear_num(
                        g00.unwrap().1,
                        g10.unwrap().1,
                        g01.unwrap().1,
                        g11.unwrap().1,
                        x - x0 * 65536,
                        y - y0 * 65536,
                    ),
                ),
            )
        } else {
            None
        }
    }

    /// The unit vector along the slope of the field at the point `(x, y)`,
    /// given in cells in fixed point; the zero vector where the field is
    /// level.
    pub open spec fn get_normal(self, x: int, y: int) -> Option<(int, int)> {
        match self.slope(x, y) {
            Some(s) => Some(spec_normalize(s.0, s.1)),
            None => None,
        }
    }

    /// The unit vector along the slope of the field at the world position
    /// `(x, y)`.
    pub open spec fn get_normal_world(self, x: int, y: int) -> Option<(int, int)> {
        if self.scale == 0 {
            None
        } else {
            self.get_normal(spec_to_grid(x, self.scale), spec_to_grid(y, self.scale))
        }
    }
}

/// A world cell that is there holds a value of the unit interval.
pub proof fn lemma_get_unit(m: GridMapView, x: int, y: int)
    requires
        m.wf(),
    ensures
        m.get(x, y) matches Some(v) ==> 0 <= v <= 65536,
{
    if m.get(x, y) is Some {
        let k = (chunk_coord(x, m.grid_size), chunk_coord(y, m.grid_size));
        assert(m.chunks.contains_key(k));
        let g = m.chunks[k];
        crate::grid::lemma_cell_index(
            g.width,
            g.height,
            local_coord(x, m.grid_size),
            local_coord(y, m.grid_size),
        );
    }
}

/// A world cell read after a write holds the written value, held to the
/// unit interval, if it is the cell that was written; any other cell holds
/// what it held before, where a cell in no chunk counts as zero.
pub proof fn lemma_field_get_after_set(m: GridMapView, x: int, y: int, v: int, a: int, b: int)
    requires
        m.wf(),
        is_coord(x),
        is_coord(y),
    ensures
        m.set(x, y, v).wf(),
        m.set(x, y, v).get(x, y) == Some(clamp_unit(v) as i64),
        (a != x || b != y) ==> value_or_zero(m.set(x, y, v).get(a, b)) == value_or_zero(m.get(a, b)),
{
    let size = m.grid_size;
    let k = (chunk_coord(x, size), chunk_coord(y, size));
    let lx = local_coord(x, size);
    let ly = local_coord(y, size);
    lemma_floor_div_bounds(x, size);
    lemma_floor_div_bounds(y, size);
    let before = m.chunk_or_fresh(k);
    crate::grid::lemma_cell_count(size, size);
    assert(before.wf() && m.chunk_fits(k, before)) by {
        if !m.chunks.contains_key(k) {
            assert(before.cells.len() == size * size);
        }
    }
    crate::grid::lemma_get_after_set(before, lx, ly, v, lx, ly);
    let after = m.set(x, y, v);
    assert(after.chunks[k] == before.set(lx, ly, v));
    assert forall|j: (int, int)| #[trigger] after.chunks.contains_key(j) implies is_coord(j.0)
        && is_coord(j.1) && after.chunk_fits(j, after.chunks[j]) by {
        if j != k {
            assert(m.chunks.contains_key(j));
        }
    }
    if a != x || b != y {
        let ka = (chunk_coord(a, size), chunk_coord(b, size));
        let la = local_coord(a, size);
        let lb = local_coord(b, size);
        lemma_floor_div_bounds(a, size);
        lemma_floor_div_bounds(b, size);
        if is_coord(a) && is_coord(b) {
            if ka == k {
                assert(la != lx || lb != ly);
                crate::grid::lemma_get_after_set(before, lx, ly, v, la, lb);
                if !m.chunks.contains_key(k) {
                    crate::grid::lemma_cell_index(size, size, la, lb);
                }
            } else {
                assert(after.chunks.contains_key(ka) == m.chunks.contains_key(ka));
            }
        }
    }
}

/// Chunks side by side continue one field of noise: with chunk `chunk`
/// generated at the offset `chunk`, the cell at `local` inside it is asked
/// of the noise at `scale` times its world cell index, as long as that
/// stays in range.
pub proof fn lemma_noise_continues_across_chunks(chunk: int, local: int, size: int, scale: int)
    requires
        0 < size,
        is_coord(chunk),
        -0x8000_0000_0000 <= chunk * size <= 0x7fff_ffff_ffff,
        i64::MIN <= chunk * size * scale <= i64::MAX,
        i64::MIN <= crate::common::world_cell(chunk, local, size) * scale <= i64::MAX,
    ensures
        crate::grid::spec_sample_coord(
            local,
            scale,
            spec_chunk_offset(chunk * 65536, size, scale),
        ) == crate::common::world_cell(chunk, local, size) * scale,
{
    let turns = chunk * 65536 * size;
    assert(turns == (chunk * size) * 65536) by (nonlinear_arith)
        requires turns == chunk * 65536 * size;
    assert(saturate(turns) == turns);
    assert(turns * scale == (chunk * size * scale) * 65536) by (nonlinear_arith)
        requires turns == (chunk * size) * 65536;
    assert(floor_div(turns * scale, 65536) == chunk * size * scale);
    assert((chunk * size + local) * scale == chunk * size * scale + local * scale)
        by (nonlinear_arith);
}

/// Sampling is exact at the cells and even between them: the field at a
/// world cell is the value stored there, and halfway to the next cell in x
/// or in y it is the mean of the two, rounded down.
pub proof fn lemma_sample_at_cell_and_midpoint(m: GridMapView, x: int, y: int)
    requires
        m.wf(),
    ensures
        m.gets(x * 65536, y * 65536) matches Some(v) ==> m.get(x, y) == Some(v as i64),
        m.gets(x * 65536 + 32768, y * 65536) matches Some(v) ==> v == floor_div(
            m.get(x, y).unwrap() + m.get(x + 1, y).unwrap(),
            2,
        ),
        m.gets(x * 65536, y * 65536 + 32768) matches Some(v) ==> v == floor_div(
            m.get(x, y).unwrap() + m.get(x, y + 1).unwrap(),
            2,
        ),
{
    lemma_get_unit(m, x, y);
    assert(floor_div(x * 65536, 65536) == x);
    assert(floor_div(y * 65536, 65536) == y);
    assert(floor_div(x * 65536 + 32768, 65536) == x);
    assert(floor_div(y * 65536 + 32768, 65536) == y);
    if m.get(x, y) is Some && m.get(x + 1, y) is Some && m.get(x, y + 1) is Some && m.get(
        x + 1,
        y + 1,
    ) is Some {
        lemma_bilinear_at_corner_and_midpoint(
            m.get(x, y).unwrap() as int,
            m.get(x + 1, y).unwrap() as int,
            m.get(x, y + 1).unwrap() as int,
            m.get(x + 1, y + 1).unwrap() as int,
        );
    }
}

/// A normal of the field is the zero vector only where the slope is
/// exactly zero, and as long as one, within rounding, everywhere else.
pub proof fn lemma_normal_unit_or_zero(m: GridMapView, x: int, y: int)
    requires
        m.get_normal(x, y) is Some,
    ensures
        m.slope(x, y) is Some,
        m.slope(x, y).unwrap() == (0int, 0int) <==> m.get_normal(x, y).unwrap() == (0int, 0int),
        m.slope(x, y).unwrap() != (0int, 0int) ==> is_unit(
            m.get_normal(x, y).unwrap().0,
            m.get_normal(x, y).unwrap().1,
        ),
{
    let s = m.slope(x, y).unwrap();
    lemma_normalize_unit(s.0, s.1);
}

/// The place in noise space of the first cell of a chunk that lies
/// `offset` chunks from the origin along one axis, for chunks of `size`
/// cells and `scale` of noise space between cells.
pub open spec fn spec_chunk_offset(offset: int, size: int, scale: int) -> int {
    saturate(floor_div(saturate(offset * size) * scale, 65536))
}

/// Whether the chunk `after` is the chunk `before` with every cell filled
/// from `noise`.
pub open spec fn is_generated<F: Fn(i64, i64) -> i64>(
    noise: F,
    before: GridView,
    after: GridView,
    scale: int,
    offset: (int, int),
) -> bool {
    &&& after.wf()
    &&& after.x == before.x
    &&& after.y == before.y
    &&& after.width == before.width
    &&& after.height == before.height
    &&& after.spacing == before.spacing
    &&& after.meshed == before.meshed
    &&& after.changed == (before.changed || (before.width > 0 && before.height > 0))
    &&& forall|i: int, j: int|
        after.contains(i, j) ==> #[trigger] cell_from_noise(noise, after, scale, offset, i, j)
}

/// Whether a chunk is to be meshed: it has no mesh yet, or a cell of it
/// was written since its mesh was made.
pub open spec fn needs_mesh(g: GridView) -> bool {
    !g.meshed || g.changed
}

/// A chunk whose mesh stands for its cells as they are.
pub open spec fn meshed_chunk(g: GridView) -> GridView {
    GridView { meshed: true, changed: false, ..g }
}

impl GridMapView {
    /// The three neighbours that the chunk at `k` is stitched to: across
    /// the corner, next in x, next in y.
    pub open spec fn bridges(self, k: (int, int)) -> BridgesView {
        Some(
            (
                self.chunk((k.0 + 1, k.1 + 1)),
                self.chunk((k.0 + 1, k.1)),
                self.chunk((k.0, k.1 + 1)),
            ),
        )
    }

    /// The triangles of the chunk at `k` at the field's iso-level,
    /// stitched to its neighbours.
    pub open spec fn chunk_triangles(self, k: (int, int)) -> Seq<SpecTriangle> {
        self.chunks[k].triangles(self.threshold, self.smooth, self.bridges(k))
    }

    /// The field once every chunk has an up-to-date mesh.
    pub open spec fn after_meshing(self) -> GridMapView {
        GridMapView {
            chunks: Map::new(
                |k: (int, int)| self.chunks.contains_key(k),
                |k: (int, int)| meshed_chunk(self.chunks[k]),
            ),
            ..self
        }
    }

    /// Whether `m` is the mesh of the chunk at `k`.
    pub open spec fn is_chunk_mesh(self, k: (int, int), m: MeshAttributes) -> bool {
        is_mesh_of(m, self.chunk_triangles(k), self.chunks[k], self.threshold, self.bridges(k))
    }
}

/// Whether the first `n` entries of `list` lie under the coordinates `k`.
pub open spec fn listed(list: Seq<((i32, i32), MeshAttributes)>, n: int, k: (int, int)) -> bool {
    exists|i: int| 0 <= i < n && (#[trigger] list[i]).0.0 == k.0 && list[i].0.1 == k.1
}

/// What a table holds, as plain values under integer coordinates.
pub open spec fn table_view(table: Map<(i32, i32), Grid>) -> Map<(int, int), GridView> {
    Map::new(
        |k: (int, int)| is_coord(k.0) && is_coord(k.1) && table.contains_key((k.0 as i32, k.1 as i32)),
        |k: (int, int)| table[(k.0 as i32, k.1 as i32)]@,
    )
}

/// Putting a chunk into a table puts its view into the table's view.
pub proof fn lemma_table_view_insert(table: Map<(i32, i32), Grid>, key: (i32, i32), g: Grid)
    ensures
        table_view(table.insert(key, g)) == table_view(table).insert(
            (key.0 as int, key.1 as int),
            g@,
        ),
{
    let a = table_view(table.insert(key, g));
    let b = table_view(table).insert((key.0 as int, key.1 as int), g@);
    assert forall|k: (int, int)| a.contains_key(k) <==> b.contains_key(k) by {
        if is_coord(k.0) && is_coord(k.1) {
            let kk = (k.0 as i32, k.1 as i32);
            assert(kk == key <==> k == (key.0 as int, key.1 as int));
        }
    }
    assert forall|k: (int, int)| a.contains_key(k) implies a[k] == b[k] by {
        let kk = (k.0 as i32, k.1 as i32);
        assert(kk == key <==> k == (key.0 as int, key.1 as int));
    }
    assert(a =~= b);
}

impl View for GridMap {
    type V = GridMapView;

    closed spec fn view(&self) -> GridMapView {
        GridMapView {
            scale: self.scale as int,
            grid_size: self.grid_size as int,
            threshold: self.threshold as int,
            smooth: self.smooth,
            chunks: table_view(chunks(self.grids)),
        }
    }
}

impl GridMap {
    /// The invariant of the field.
    pub open spec fn wf(&self) -> bool {
        self@.wf()
    }

    /// A field without chunks.
    pub fn new(scale: i64, grid_size: u32, threshold: i64, smooth: bool) -> (m: GridMap)
        requires
            1 <= grid_size <= MAX_SIDE,
        ensures
            m.wf(),
            m@.scale == scale,
            m@.grid_size == grid_size,
            m@.threshold == threshold,
            m@.smooth == smooth,
            m@.chunks =~= Map::empty(),
    {
        GridMap { scale, grid_size, grids: table_new(), threshold, smooth }
    }

    /// The distance in the world from one cell to the next.
    pub fn scale(&self) -> (s: i64)
        ensures
            s == self@.scale,
    {
        self.scale
    }

    /// The number of cells along one side of a chunk.
    pub fn grid_size(&self) -> (n: u32)
        ensures
            n == self@.grid_size,
    {
        self.grid_size
    }

    /// The iso-level at which meshes are made.
    pub fn threshold(&self) -> (t: i64)
        ensures
            t == self@.threshold,
    {
        self.threshold
    }

    /// Whether edges are crossed by interpolation.
    pub fn smooth(&self) -> (s: bool)
        ensures
            s == self@.smooth,
    {
        self.smooth
    }

    /// The coordinates of every chunk, each once, in no stated order.
    pub fn coords(&self) -> (keys: Vec<(i32, i32)>)
        ensures
            keys@.no_duplicates(),
            forall|k: (i32, i32)|
                keys@.contains(k) <==> self@.chunks.contains_key((k.0 as int, k.1 as int)),
    {
        let keys = table_keys(&self.grids);
        proof {
            assert forall|k: (i32, i32)| keys@.contains(k) <==> self@.chunks.contains_key(
                (k.0 as int, k.1 as int),
            ) by {
                assert(((k.0 as int) as i32, (k.1 as int) as i32) == k);
            }
        }
        keys
    }

    /// The chunk at the chunk coordinates `(x, y)`, if there is one.
    pub fn chunk(&self, x: i32, y: i32) -> (r: Option<&Grid>)
        requires
            self.wf(),
        ensures
            crate::grid::neighbour_view(r) == self@.chunk((x as int, y as int)),
            r matches Some(g) ==> g.wf(),
    {
        let r = table_get(&self.grids, (x, y));
        proof {
            if r is Some {
                assert(self@.chunks.contains_key((x as int, y as int)));
            }
        }
        r
    }

    /// The world position of the first cell of chunk `c` along one axis.
    fn chunk_origin(&self, c: i32) -> (r: i64)
        requires
            self.wf(),
        ensures
            r == spec_chunk_origin(c as int, self@.scale, self@.grid_size),
    {
        assert(-0x4000_0000_0000_0000_0000_0000 <= c * self.scale <= 0x4000_0000_0000_0000_0000_0000)
            by (nonlinear_arith)
            requires
                -0x8000_0000 <= c <= 0x8000_0000,
                -0x8000_0000_0000_0000 <= self.scale <= 0x8000_0000_0000_0000,
        ;
        let p = c as i128 * self.scale as i128;
        assert(-0x4000_0000_0000_0000_0000_0000_0000 <= p * self.grid_size
            <= 0x4000_0000_0000_0000_0000_0000_0000) by (nonlinear_arith)
            requires
                -0x4000_0000_0000_0000_0000_0000 <= p <= 0x4000_0000_0000_0000_0000_0000,
                0 <= self.grid_size <= 0x1_0000,
        ;
        sat64(p * self.grid_size as i128)
    }

    /// A chunk of zeros for the chunk coordinates `(x, y)`.
    fn create_grid(&self, x: i32, y: i32) -> (g: Grid)
        requires
            self.wf(),
        ensures
            g@ == self@.fresh_chunk((x as int, y as int)),
            self@.chunk_fits((x as int, y as int), g@),
    {
        let g = Grid::new(
            self.chunk_origin(x),
            self.chunk_origin(y),
            self.grid_size,
            self.grid_size,
            self.scale,
        );
        proof {
            crate::grid::lemma_cell_count(self.grid_size as int, self.grid_size as int);
            assert(g@.cells =~= self@.fresh_chunk((x as int, y as int)).cells);
        }
        g
    }

    /// The value of the world cell `(x, y)`; `None` where no chunk holds
    /// it.
    pub fn get(&self, x: i32, y: i32) -> (r: Option<i64>)
        requires
            self.wf(),
        ensures
            r == self@.get(x as int, y as int),
            r matches Some(v) ==> 0 <= v <= 65536,
    {
        let (gx, lx) = split_cell(x, self.grid_size);
        let (gy, ly) = split_cell(y, self.grid_size);
        match table_get(&self.grids, (gx, gy)) {
            Some(grid) => {
                assert(self@.chunks.contains_key((gx as int, gy as int)));
                grid.get(lx, ly)
            },
            None => None,
        }
    }

    /// Writes `v`, held to the unit interval, to the world cell `(x, y)`,
    /// in a chunk that is made first where it was not there.
    pub fn set(&mut self, x: i32, y: i32, v: i64)
        requires
            old(self).wf(),
        ensures
            final(self).wf(),
            final(self)@ == old(self)@.set(x as int, y as int, v as int),
    {
        let (gx, lx) = split_cell(x, self.grid_size);
        let (gy, ly) = split_cell(y, self.grid_size);
        let ghost k = (gx as int, gy as int);
        if table_get(&self.grids, (gx, gy)).is_none() {
            let grid = self.create_grid(gx, gy);
            proof {
                lemma_table_view_insert(chunks(self.grids), (gx, gy), grid);
            }
            let _ = table_insert(&mut self.grids, (gx, gy), grid);
        }
        assert(self@.chunks[k] == old(self)@.chunk_or_fresh(k));
        assert(self@.chunks =~= old(self)@.chunks.insert(k, old(self)@.chunk_or_fresh(k)));
        let ghost mid = chunks(self.grids);
        match table_get_mut(&mut self.grids, (gx, gy)) {
            Some(grid) => {
                grid.set(lx, ly, v);
                proof {
                    lemma_table_view_insert(mid, (gx, gy), *final(grid));
                    crate::grid::lemma_get_after_set(
                        old(self)@.chunk_or_fresh(k),
                        lx as int,
                        ly as int,
                        v as int,
                        0,
                        0,
                    );
                }
            },
            None => {},
        }
        assert(self@.chunks =~= old(self)@.set(x as int, y as int, v as int).chunks);
    }

    /// The field at the point `(x, y)`, given in cells in fixed point.
    pub fn gets(&self, x: i64, y: i64) -> (r: Option<i64>)
        requires
            self.wf(),
        ensures
            match r {
                Some(v) => Some(v as int),
                None => None,
            } == self@.gets(x as int, y as int),
            r matches Some(v) ==> 0 <= v <= 65536,
    {
        let x0 = div_floor_wide(x, 65536);
        let y0 = div_floor_wide(y, 65536);
        proof {
            lemma_floor_div_bounds(x as int, 65536);
            lemma_floor_div_bounds(y as int, 65536);
        }
        if x0 < -0x8000_0000 || x0 >= 0x7fff_ffff || y0 < -0x8000_0000 || y0 >= 0x7fff_ffff {
            return None;
        }
        let tx = (x - x0 * 65536) as u16;
        let ty = (y - y0 * 65536) as u16;
        let cx = x0 as i32;
        let cy = y0 as i32;
        let v00 = self.get(cx, cy);
        let v10 = self.get(cx + 1, cy);
        let v01 = self.get(cx, cy + 1);
        let v11 = self.get(cx + 1, cy + 1);
        match (v00, v10, v01, v11) {
            (Some(a), Some(b), Some(c), Some(d)) => {
                proof {
                    lemma_bilinear_between(
                        a as int,
                        b as int,
                        c as int,
                        d as int,
                        tx as int,
                        ty as int,
                        0,
                        65536,
                    );
                }
                Some(bilinear(a as i32, b as i32, c as i32, d as i32, tx, ty))
            },
            _ => None,
        }
    }

    /// A place of the world in units of cells; `None` where the field has
    /// no spacing or the place lies beyond all cells.
    pub(crate) fn to_grid(&self, w: i64) -> (r: Option<i64>)
        ensures
            self@.scale != 0 ==> (match r {
                Some(g) => g == spec_to_grid(w as int, self@.scale),
                None => !is_coord(floor_div(spec_to_grid(w as int, self@.scale), 65536)),
            }),
            self@.scale == 0 ==> r is None,
    {
        if self.scale == 0 {
            return None;
        }
        let n = w as i128 * 65536;
        let q = if self.scale > 0 {
            div_floor_i128(n, self.scale as i128)
        } else {
            div_floor_i128(-n, -(self.scale as i128))
        };
        if q < -0x8000_0000_0000_0000 || q > 0x7fff_ffff_ffff_ffff {
            None
        } else {
            Some(q as i64)
        }
    }

    /// The field at the world position `(x, y)`; `None` where one of the
    /// four cells around it is in no chunk.
    pub fn get_world(&self, x: i64, y: i64) -> (r: Option<i64>)
        requires
            self.wf(),
        ensures
            match r {
                Some(v) => Some(v as int),
                None => None,
            } == self@.get_world(x as int, y as int),
            r matches Some(v) ==> 0 <= v <= 65536,
    {
        match (self.to_grid(x), self.to_grid(y)) {
            (Some(gx), Some(gy)) => self.gets(gx, gy),
            _ => None,
        }
    }

    /// The slope of the field at the world cell `(x, y)`.
    fn gradient(&self, x: i32, y: i32) -> (r: Option<(i32, i32)>)
        requires
            self.wf(),
        ensures
            match r {
                Some(g) => Some((g.0 as int, g.1 as int)),
                None => None,
            } == self@.gradient(x as int, y as int),
            r matches Some(g) ==> -65536 <= g.0 <= 65536 && -65536 <= g.1 <= 65536,
    {
        if x == i32::MIN || x == i32::MAX || y == i32::MIN || y == i32::MAX {
            return None;
        }
        match (self.get(x + 1, y), self.get(x - 1, y), self.get(x, y + 1), self.get(x, y - 1)) {
            (Some(east), Some(west), Some(north), Some(south)) => Some(
                ((east - west) as i32, (north - south) as i32),
            ),
            _ => None,
        }
    }

    /// The unit vector along the slope of the field at the point `(x, y)`,
    /// given in cells in fixed point.
    pub fn get_normal(&self, x: i64, y: i64) -> (r: Option<(i64, i64)>)
        requires
            self.wf(),
        ensures
            match r {
                Some(n) => Some((n.0 as int, n.1 as int)),
                None => None,
            } == self@.get_normal(x as int, y as int),
            r matches Some(n) ==> (n == (0i64, 0i64) || is_unit(n.0 as int, n.1 as int)) && -65536
                <= n.0 <= 65536 && -65536 <= n.1 <= 65536,
    {
        let x0 = div_floor_wide(x, 65536);
        let y0 = div_floor_wide(y, 65536);
        proof {
            lemma_floor_div_bounds(x as int, 65536);
            lemma_floor_div_bounds(y as int, 65536);
        }
        if x0 < -0x8000_0000 || x0 >= 0x7fff_ffff || y0 < -0x8000_0000 || y0 >= 0x7fff_ffff {
            return None;
        }
        let tx = (x - x0 * 65536) as u16;
        let ty = (y - y0 * 65536) as u16;
        let cx = x0 as i32;
        let cy = y0 as i32;
        let g00 = self.gradient(cx, cy);
        let g10 = self.gradient(cx + 1, cy);
        let g01 = self.gradient(cx, cy + 1);
        let g11 = self.gradient(cx + 1, cy + 1);
        match (g00, g10, g01, g11) {
            (Some(a), Some(b), Some(c), Some(d)) => {
                let nx = bilinear_num(a.0, b.0, c.0, d.0, tx, ty);
                let ny = bilinear_num(a.1, b.1, c.1, d.1, tx, ty);
                proof {
                    lemma_normalize_unit(nx as int, ny as int);
                }
                Some(normalize(nx, ny))
            },
            _ => None,
        }
    }

    /// The unit vector along the slope of the field at the world position
    /// `(x, y)`; `None` where one of the cells around it is in no chunk.
    pub fn get_normal_world(&self, x: i64, y: i64) -> (r: Option<(i64, i64)>)
        requires
            self.wf(),
        ensures
            match r {
                Some(n) => Some((n.0 as int, n.1 as int)),
                None => None,
            } == self@.get_normal_world(x as int, y as int),
            r matches Some(n) ==> (n == (0i64, 0i64) || is_unit(n.0 as int, n.1 as int)) && -65536
                <= n.0 <= 65536 && -65536 <= n.1 <= 65536,
    {
        match (self.to_grid(x), self.to_grid(y)) {
            (Some(gx), Some(gy)) => self.get_normal(gx, gy),
            _ => None,
        }
    }

    /// The place in noise space of the first cell of a chunk that lies
    /// `offset` chunks from the origin along one axis.
    fn chunk_offset(&self, offset: i64, scale: i64) -> (r: i64)
        requires
            self.wf(),
        ensures
            r == spec_chunk_offset(offset as int, self@.grid_size, scale as int),
    {
        assert(-0x8000_0000_0000_0000_0000 <= offset * self.grid_size <= 0x8000_0000_0000_0000_0000)
            by (nonlinear_arith)
            requires
                -0x8000_0000_0000_0000 <= offset <= 0x8000_0000_0000_0000,
                0 <= self.grid_size <= 0x1_0000,
        ;
        let a = sat64(offset as i128 * self.grid_size as i128);
        assert(-0x4000_0000_0000_0000_0000_0000_0000_0000 <= a * scale
            <= 0x4000_0000_0000_0000_0000_0000_0000_0000) by (nonlinear_arith)
            requires
                -0x8000_0000_0000_0000 <= a <= 0x8000_0000_0000_0000,
                -0x8000_0000_0000_0000 <= scale <= 0x8000_0000_0000_0000,
        ;
        sat64(div_floor_i128(a as i128 * scale as i128, 65536))
    }

    /// Fills the chunk at `(gx, gy)` from `noise`, after making it where
    /// it was not there. The chunk `offset` lies `offset` chunks from the
    /// origin of noise space, so that chunks side by side continue one
    /// field of noise.
    pub fn generate<F: Fn(i64, i64) -> i64>(
        &mut self,
        gx: i32,
        gy: i32,
        noise: F,
        scale: i64,
        offset: (i64, i64),
    )
        requires
            old(self).wf(),
            forall|a: i64, b: i64| noise.requires((a, b)),
        ensures
            final(self).wf(),
            final(self)@.scale == old(self)@.scale,
            final(self)@.grid_size == old(self)@.grid_size,
            final(self)@.threshold == old(self)@.threshold,
            final(self)@.smooth == old(self)@.smooth,
            final(self)@.chunks.dom() == old(self)@.chunks.dom().insert((gx as int, gy as int)),
            forall|k: (int, int)|
                k != (gx as int, gy as int) && old(self)@.chunks.contains_key(k)
                    ==> final(self)@.chunks[k] == #[trigger] old(self)@.chunks[k],
            is_generated(
                noise,
                old(self)@.chunk_or_fresh((gx as int, gy as int)),
                final(self)@.chunks[(gx as int, gy as int)],
                scale as int,
                (
                    spec_chunk_offset(offset.0 as int, old(self)@.grid_size, scale as int),
                    spec_chunk_offset(offset.1 as int, old(self)@.grid_size, scale as int),
                ),
            ),
    {
        let ghost k = (gx as int, gy as int);
        if table_get(&self.grids, (gx, gy)).is_none() {
            let grid = self.create_grid(gx, gy);
            proof {
                lemma_table_view_insert(chunks(self.grids), (gx, gy), grid);
            }
            let _ = table_insert(&mut self.grids, (gx, gy), grid);
        }
        assert(self@.chunks =~= old(self)@.chunks.insert(k, old(self)@.chunk_or_fresh(k)));
        let off = (self.chunk_offset(offset.0, scale), self.chunk_offset(offset.1, scale));
        let ghost mid = chunks(self.grids);
        match table_get_mut(&mut self.grids, (gx, gy)) {
            Some(grid) => {
                let ghost before = grid@;
                grid.generate(noise, scale, off);
                proof {
                    lemma_table_view_insert(mid, (gx, gy), *final(grid));
                    assert(before == old(self)@.chunk_or_fresh(k));
                    assert(is_generated(
                        noise,
                        before,
                        final(grid)@,
                        scale as int,
                        (off.0 as int, off.1 as int),
                    ));
                }
            },
            None => {},
        }
        assert(self@.chunks.dom() =~= old(self)@.chunks.dom().insert(k));
    }

    /// The chunk at `(x + dx, y + dy)`, if there is one.
    fn neighbour(&self, x: i32, y: i32, dx: bool, dy: bool) -> (r: Option<&Grid>)
        requires
            self.wf(),
        ensures
            crate::grid::neighbour_view(r) == self@.chunk(
                (x + if dx { 1int } else { 0 }, y + if dy { 1int } else { 0 }),
            ),
    {
        if (dx && x == i32::MAX) || (dy && y == i32::MAX) {
            return None;
        }
        let nx = if dx { x + 1 } else { x };
        let ny = if dy { y + 1 } else { y };
        table_get(&self.grids, (nx, ny))
    }

    /// Makes the mesh of every chunk that has none or was written to since
    /// its mesh was made, stitched to the chunks beside it, and hands the
    /// meshes out under their chunk coordinates, in no stated order.
    /// Afterwards every chunk counts as meshed and unchanged.
    pub fn manage_meshes(&mut self) -> (made: Vec<((i32, i32), MeshAttributes)>)
        requires
            old(self).wf(),
        ensures
            final(self).wf(),
            final(self)@ == old(self)@.after_meshing(),
            forall|i: int, j: int|
                0 <= i < j < made.len() ==> (#[trigger] made[i]).0 != (#[trigger] made[j]).0,
            forall|k: (int, int)|
                #[trigger] listed(made@, made.len() as int, k) <==> old(self)@.chunks.contains_key(k)
                    && needs_mesh(old(self)@.chunks[k]),
            forall|i: int|
                0 <= i < made.len() ==> old(self)@.is_chunk_mesh(
                    ((#[trigger] made[i]).0.0 as int, made[i].0.1 as int),
                    made[i].1,
                ),
    {
        let keys = table_keys(&self.grids);
        let mut made: Vec<((i32, i32), MeshAttributes)> = Vec::new();
        let mut n: usize = 0;
        while n < keys.len()
            invariant
                self.wf(),
                self@ == old(self)@,
                n <= keys.len(),
                keys@.no_duplicates(),
                forall|k: (i32, i32)| keys@.contains(k) <==> chunks(self.grids).contains_key(k),
                forall|i: int|
                    0 <= i < made.len() ==> exists|a: int|
                        0 <= a < n && keys[a] == (#[trigger] made[i]).0,
                forall|i: int, j: int|
                    0 <= i < j < made.len() ==> (#[trigger] made[i]).0 != (#[trigger] made[j]).0,
                forall|a: int|
                    0 <= a < n ==> (listed(
                        made@,
                        made.len() as int,
                        ((#[trigger] keys[a]).0 as int, keys[a].1 as int),
                    ) <==> needs_mesh(self@.chunks[(keys[a].0 as int, keys[a].1 as int)])),
                forall|i: int|
                    0 <= i < made.len() ==> self@.is_chunk_mesh(
                        ((#[trigger] made[i]).0.0 as int, made[i].0.1 as int),
                        made[i].1,
                    ),
            decreases keys.len() - n,
        {
            let coords = keys[n];
            let ghost k = (coords.0 as int, coords.1 as int);
            assert(keys@.contains(coords));
            let ghost before = made@;
            assert(!listed(before, before.len() as int, k)) by {
                if listed(before, before.len() as int, k) {
                    let i = choose|i: int|
                        0 <= i < before.len() && (#[trigger] before[i]).0.0 == k.0 && before[i].0.1
                            == k.1;
                    let a = choose|a: int| 0 <= a < n && keys[a] == before[i].0;
                    assert(keys[a] == keys[n as int]);
                }
            }
            if let Some(grid) = table_get(&self.grids, coords) {
                if !grid.meshed() || grid.changed() {
                    let bridges = Some(
                        [
                            self.neighbour(coords.0, coords.1, true, true),
                            self.neighbour(coords.0, coords.1, true, false),
                            self.neighbour(coords.0, coords.1, false, true),
                        ],
                    );
                    proof {
                        assert(bridges_view(bridges) == self@.bridges(k));
                        assert(self@.chunks.contains_key(k));
                        assert(bridges_wf(self@.bridges(k))) by {
                            if self@.chunks.contains_key((k.0 + 1, k.1 + 1)) {
                            }
                            if self@.chunks.contains_key((k.0 + 1, k.1)) {
                            }
                            if self@.chunks.contains_key((k.0, k.1 + 1)) {
                            }
                        }
                    }
                    let attributes = grid.gen_attributes(self.threshold, self.smooth, &bridges);
                    made.push((coords, attributes));
                    proof {
                        assert(made@[before.len() as int].0 == coords);
                        assert(listed(made@, made.len() as int, k));
                        assert forall|a: int| 0 <= a < n implies (listed(
                            made@,
                            made.len() as int,
                            ((#[trigger] keys[a]).0 as int, keys[a].1 as int),
                        ) <==> listed(before, before.len() as int, (keys[a].0 as int, keys[a].1 as int)))
                        by {
                            let ka = (keys[a].0 as int, keys[a].1 as int);
                            if listed(before, before.len() as int, ka) {
                                let i = choose|i: int|
                                    0 <= i < before.len() && (#[trigger] before[i]).0.0 == ka.0
                                        && before[i].0.1 == ka.1;
                                assert(made@[i] == before[i]);
                            }
                            if listed(made@, made.len() as int, ka) {
                                let i = choose|i: int|
                                    0 <= i < made.len() && (#[trigger] made@[i]).0.0 == ka.0
                                        && made@[i].0.1 == ka.1;
                                if i == before.len() {
                                    assert(keys[a] == keys[n as int]);
                                } else {
                                    assert(made@[i] == before[i]);
                                }
                            }
                        }
                        assert forall|i: int| 0 <= i < made.len() implies exists|a: int|
                            0 <= a < n + 1 && keys[a] == (#[trigger] made[i]).0 by {
                            if i < before.len() {
                                assert(made@[i] == before[i]);
                                let a = choose|a: int| 0 <= a < n && keys[a] == before[i].0;
                                assert(0 <= a < n + 1 && keys[a] == made[i].0);
                            } else {
                                assert(keys[n as int] == made[i].0);
                            }
                        }
                        assert forall|i: int, j: int| 0 <= i < j < made.len() implies (
                        #[trigger] made[i]).0 != (#[trigger] made[j]).0 by {
                            if j == before.len() {
                                assert(made@[i] == before[i]);
                                let a = choose|a: int| 0 <= a < n && keys[a] == before[i].0;
                                assert(keys[a] != keys[n as int]);
                            } else {
                                assert(made@[i] == before[i]);
                                assert(made@[j] == before[j]);
                            }
                        }
                    }
                }
            }
            n = n + 1;
        }
        proof {
            assert forall|k: (int, int)| #[trigger]
                listed(made@, made.len() as int, k) <==> self@.chunks.contains_key(k)
                    && needs_mesh(self@.chunks[k]) by {
                if listed(made@, made.len() as int, k) {
                    let i = choose|i: int|
                        0 <= i < made.len() && (#[trigger] made@[i]).0.0 == k.0 && made@[i].0.1
                            == k.1;
                    let a = choose|a: int| 0 <= a < n && keys[a] == made[i].0;
                    assert(keys@.contains(keys[a]));
                    assert(k == (keys[a].0 as int, keys[a].1 as int));
                }
                if self@.chunks.contains_key(k) && needs_mesh(self@.chunks[k]) {
                    let kk = (k.0 as i32, k.1 as i32);
                    assert(keys@.contains(kk));
                    let a = choose|a: int| 0 <= a < keys@.len() && keys@[a] == kk;
                    assert(k == (keys[a].0 as int, keys[a].1 as int));
                }
            }
        }
        let mut n: usize = 0;
        while n < keys.len()
            invariant
                n <= keys.len(),
                keys@.no_duplicates(),
                forall|k: (i32, i32)| keys@.contains(k) <==> chunks(self.grids).contains_key(k),
                self@.scale == old(self)@.scale,
                self@.grid_size == old(self)@.grid_size,
                self@.threshold == old(self)@.threshold,
                self@.smooth == old(self)@.smooth,
                self@.chunks.dom() == old(self)@.chunks.dom(),
                forall|a: int|
                    0 <= a < keys.len() ==> self@.chunks[(
                        (#[trigger] keys[a]).0 as int,
                        keys[a].1 as int,
                    )] == (if a < n {
                        meshed_chunk(old(self)@.chunks[(keys[a].0 as int, keys[a].1 as int)])
                    } else {
                        old(self)@.chunks[(keys[a].0 as int, keys[a].1 as int)]
                    }),
            decreases keys.len() - n,
        {
            let coords = keys[n];
            let ghost k = (coords.0 as int, coords.1 as int);
            let ghost mid = chunks(self.grids);
            let ghost mid_view = self@;
            assert(keys@.contains(coords));
            match table_get_mut(&mut self.grids, coords) {
                Some(grid) => {
                    grid.mark_meshed();
                    proof {
                        lemma_table_view_insert(mid, coords, *final(grid));
                    }
                },
                None => {},
            }
            proof {
                assert(self@.chunks =~= mid_view.chunks.insert(
                    k,
                    meshed_chunk(mid_view.chunks[k]),
                ));
                assert(self@.chunks.dom() =~= old(self)@.chunks.dom());
                assert forall|a: int| 0 <= a < keys.len() implies self@.chunks[(
                    (#[trigger] keys[a]).0 as int,
                    keys[a].1 as int,
                )] == (if a < n + 1 {
                    meshed_chunk(old(self)@.chunks[(keys[a].0 as int, keys[a].1 as int)])
                } else {
                    old(self)@.chunks[(keys[a].0 as int, keys[a].1 as int)]
                }) by {
                    if a != n {
                        assert(keys[a] != keys[n as int]);
                    }
                }
            }
            n = n + 1;
        }
        proof {
            assert forall|k: (int, int)| self@.chunks.contains_key(k) implies self@.chunks[k]
                == meshed_chunk(old(self)@.chunks[k]) by {
                let kk = (k.0 as i32, k.1 as i32);
                assert(keys@.contains(kk));
                let a = choose|a: int| 0 <= a < keys@.len() && keys@[a] == kk;
                assert(k == (keys[a].0 as int, keys[a].1 as int));
            }
            assert(self@.chunks =~= old(self)@.after_meshing().chunks);
        }
        made
    }
}

} // verus!
