//! Floor division, the split of world cells into chunks, and the iso-level.

use vstd::prelude::*;
use vstd::arithmetic::div_mod::lemma_fundamental_div_mod;
use vstd::arithmetic::div_mod::lemma_fundamental_div_mod_converse;
use crate::fixed::HALF;

verus! {

/// Switches of the running simulation.
#[derive(Clone, Copy, Debug)]
pub struct State {
    pub debug: bool,
    pub moving: bool,
    pub editor: bool,
}

/// The mathematical floor of `a / b`, for any non-zero `b`.
pub open spec fn floor_div(a: int, b: int) -> int {
    if b > 0 {
        a / b
    } else {
        (-a) / (-b)
    }
}

/// The chunk that holds world cell `cell` along one axis, for chunks of
/// `size` cells per side.
pub open spec fn chunk_coord(cell: int, size: int) -> int {
    floor_div(cell, size)
}

/// The position of world cell `cell` inside its chunk along one axis.
pub open spec fn local_coord(cell: int, size: int) -> int {
    cell - chunk_coord(cell, size) * size
}

/// The world cell at position `local` of chunk `chunk` along one axis.
pub open spec fn world_cell(chunk: int, local: int, size: int) -> int {
    chunk * size + local
}

/// The iso-level of a surface that breathes with `wave`, a fixed-point
/// value that swings between minus one and one: one half, and a quarter of
/// the wave more while the field moves.
pub open spec fn spec_threshold(wave: int, moving: bool) -> int {
    if moving {
        HALF + wave / 4
    } else {
        HALF as int
    }
}

/// Floor division and the quotient of the negated dividend differ by one
/// exactly when the division leaves a remainder.
pub proof fn lemma_floor_of_negation(n: int, b: int)
    requires
        b > 0,
    ensures
        (-n) / b == (if n % b == 0 { -(n / b) } else { -(n / b) - 1 }),
        (-n) % b == (if n % b == 0 { 0 } else { b - n % b }),
{
    lemma_fundamental_div_mod(n, b);
    let q = n / b;
    let r = n % b;
    if r == 0 {
        assert(-n == (-q) * b + 0) by (nonlinear_arith)
            requires n == b * q + r, r == 0;
        lemma_fundamental_div_mod_converse(-n, b, -q, 0);
    } else {
        assert(-n == (-q - 1) * b + (b - r)) by (nonlinear_arith)
            requires n == b * q + r;
        lemma_fundamental_div_mod_converse(-n, b, -q - 1, b - r);
    }
}

/// The floor quotient by a positive divisor lies between the dividend and
/// zero, and the part it leaves over is a proper remainder.
pub proof fn lemma_floor_div_bounds(a: int, b: int)
    requires
        b > 0,
    ensures
        a >= 0 ==> 0 <= floor_div(a, b) <= a,
        a < 0 ==> a <= floor_div(a, b) < 0,
        0 <= a - floor_div(a, b) * b < b,
{
    lemma_fundamental_div_mod(a, b);
    let q = a / b;
    let r = a % b;
    assert(a - q * b == r) by (nonlinear_arith)
        requires a == b * q + r;
    if a >= 0 {
        assert(0 <= q <= a) by (nonlinear_arith)
            requires a == b * q + r, 0 <= r < b, b > 0, a >= 0;
    } else {
        assert(a <= q < 0) by (nonlinear_arith)
            requires a == b * q + r, 0 <= r < b, b > 0, a < 0;
    }
}

/// Splitting a world cell index into chunk and local part and joining them
/// again gives the index back, for negative indices too; the local part
/// is a position inside the chunk.
pub proof fn lemma_split_then_join(cell: int, size: int)
    requires
        size > 0,
    ensures
        0 <= local_coord(cell, size) < size,
        world_cell(chunk_coord(cell, size), local_coord(cell, size), size) == cell,
{
    lemma_floor_div_bounds(cell, size);
}

/// Joining a chunk coordinate and a position inside the chunk and splitting
/// the world cell index again gives both back.
pub proof fn lemma_join_then_split(chunk: int, local: int, size: int)
    requires
        size > 0,
        0 <= local < size,
    ensures
        chunk_coord(world_cell(chunk, local, size), size) == chunk,
        local_coord(world_cell(chunk, local, size), size) == local,
{
    let c = world_cell(chunk, local, size);
    assert(c == chunk * size + local);
    lemma_fundamental_div_mod_converse(c, size, chunk, local);
}

/// Floor division by a positive divisor.
pub fn div_floor_wide(a: i64, b: i64) -> (q: i64)
    requires
        b > 0,
    ensures
        q == floor_div(a as int, b as int),
{
    let d = a / b;
    let r = a % b;
    proof {
        lemma_floor_div_bounds(a as int, b as int);
        if a < 0 {
            lemma_floor_of_negation(-(a as int), b as int);
        }
    }
    if r < 0 {
        d - 1
    } else {
        d
    }
}

/// Division that rounds toward negative infinity.
pub fn div_floor(a: i32, b: i32) -> (q: i32)
    requires
        b != 0,
        !(a == i32::MIN && b == -1),
    ensures
        q == floor_div(a as int, b as int),
{
    if b > 0 {
        proof {
            lemma_floor_div_bounds(a as int, b as int);
        }
        div_floor_wide(a as i64, b as i64) as i32
    } else {
        proof {
            let n = -(a as int);
            let m = -(b as int);
            lemma_floor_div_bounds(n, m);
            lemma_fundamental_div_mod(n, m);
            if m >= 2 && n >= 0 {
                assert(2 * (n / m) <= n) by (nonlinear_arith)
                    requires n == m * (n / m) + n % m, 0 <= n % m, m >= 2, n / m >= 0;
            }
        }
        div_floor_wide(-(a as i64), -(b as i64)) as i32
    }
}

/// The chunk coordinate and the position inside the chunk of a world cell
/// index, along one axis.
pub fn split_cell(cell: i32, size: u32) -> (r: (i32, u32))
    requires
        0 < size <= i32::MAX,
    ensures
        r.0 == chunk_coord(cell as int, size as int),
        r.1 == local_coord(cell as int, size as int),
        r.1 < size,
{
    proof {
        lemma_floor_div_bounds(cell as int, size as int);
    }
    let chunk = div_floor_wide(cell as i64, size as i64);
    let local = cell as i64 - chunk * (size as i64);
    (chunk as i32, local as u32)
}

/// The iso-level at which the surface stands: one half while the field is
/// at rest, one half plus a quarter of `wave` while it moves.
pub fn get_threshold(wave: i64, state: &State) -> (t: i64)
    ensures
        t == spec_threshold(wave as int, state.moving),
{
    if state.moving {
        proof {
            lemma_floor_div_bounds(wave as int, 4);
        }
        HALF + div_floor_wide(wave, 4)
    } else {
        HALF
    }
}

} // verus!
