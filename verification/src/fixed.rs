//! Fixed-point arithmetic: clamping, square roots, unit vectors and bilinear
//! blends, in integers that count 65536ths.

use vstd::prelude::*;
use crate::common::{floor_div, lemma_floor_div_bounds, lemma_floor_of_negation};

verus! {

/// The number one in sixteen-bit fixed point: every scalar of this crate
/// (field values, thresholds, coordinates, velocities) is an integer count
/// of 65536ths.
pub const ONE: i64 = 65536;

/// One half in fixed point.
pub const HALF: i64 = 32768;

/// `v` held to the range from `lo` to `hi`.
pub open spec fn clamp(v: int, lo: int, hi: int) -> int {
    if v < lo {
        lo
    } else if v > hi {
        hi
    } else {
        v
    }
}

/// `v` held to the unit interval of fixed point.
pub open spec fn clamp_unit(v: int) -> int {
    clamp(v, 0, ONE as int)
}

/// `v` held to the range of a 64-bit signed integer.
pub open spec fn saturate(v: int) -> int {
    clamp(v, i64::MIN as int, i64::MAX as int)
}

/// `r` is the integer square root of `n`, rounded down.
pub open spec fn is_sqrt(n: int, r: int) -> bool {
    0 <= r && r * r <= n < (r + 1) * (r + 1)
}

/// The integer square root of `n`, rounded down.
pub open spec fn int_sqrt(n: int) -> int {
    choose|r: int| is_sqrt(n, r)
}

/// A number has at most one rounded-down square root.
pub proof fn lemma_sqrt_unique(n: int, r: int)
    requires
        is_sqrt(n, r),
    ensures
        int_sqrt(n) == r,
{
    let s = int_sqrt(n);
    assert(is_sqrt(n, s));
    if s < r {
        assert((s + 1) * (s + 1) <= r * r) by (nonlinear_arith)
            requires 0 <= s, s + 1 <= r;
    }
    if r < s {
        assert((r + 1) * (r + 1) <= s * s) by (nonlinear_arith)
            requires 0 <= r, r + 1 <= s;
    }
}

/// The square root does not fall below a number whose square the radicand
/// reaches.
pub proof fn lemma_sqrt_lower(n: int, r: int, m: int)
    requires
        is_sqrt(n, r),
        0 <= m,
        m * m <= n,
    ensures
        m <= r,
{
    if r < m {
        assert((r + 1) * (r + 1) <= m * m) by (nonlinear_arith)
            requires 0 <= r, r + 1 <= m;
    }
}

/// `v` held to the unit interval.
pub fn clamp01(v: i64) -> (r: i64)
    ensures
        r == clamp_unit(v as int),
{
    if v < 0 {
        0
    } else if v > ONE {
        ONE
    } else {
        v
    }
}

/// `v` held to the range of a 64-bit signed integer.
pub fn sat64(v: i128) -> (r: i64)
    ensures
        r == saturate(v as int),
{
    if v < i64::MIN as i128 {
        i64::MIN
    } else if v > i64::MAX as i128 {
        i64::MAX
    } else {
        v as i64
    }
}

/// Floor division of wide integers by a positive divisor.
pub fn div_floor_i128(a: i128, b: i128) -> (q: i128)
    requires
        b > 0,
    ensures
        q == floor_div(a as int, b as int),
{
    let d = a / b;
    let r = a % b;
    proof {
        lemma_floor_div_bounds(a as int, b as int);
        if a < 0 {
            lemma_floor_of_negation(-(a as int), b as int);
        }
    }
    if r < 0 {
        d - 1
    } else {
        d
    }
}

/// The integer square root, rounded down.
pub fn isqrt(n: u128) -> (r: u64)
    ensures
        is_sqrt(n as int, r as int),
        r == int_sqrt(n as int),
{
    let mut lo: u128 = 0;
    let mut hi: u128 = 0x1_0000_0000_0000_0000;
    assert(n < hi * hi) by (nonlinear_arith)
        requires hi == 0x1_0000_0000_0000_0000, n <= u128::MAX;
    while hi - lo > 1
        invariant
            lo < hi <= 0x1_0000_0000_0000_0000,
            lo * lo <= n < hi * hi,
        decreases hi - lo,
    {
        let mid = lo + (hi - lo) / 2;
        assert(mid * mid <= 0xffff_ffff_ffff_ffff * 0xffff_ffff_ffff_ffff) by (nonlinear_arith)
            requires 0 <= mid <= 0xffff_ffff_ffff_ffff;
        if mid * mid <= n {
            lo = mid;
        } else {
            hi = mid;
        }
    }
    proof {
        lemma_sqrt_unique(n as int, lo as int);
    }
    lo as u64
}

/// The absolute value.
pub open spec fn abs(v: int) -> int {
    if v < 0 {
        -v
    } else {
        v
    }
}

/// The larger of the absolute values of the two components.
pub open spec fn magnitude(x: int, y: int) -> int {
    if abs(x) >= abs(y) {
        abs(x)
    } else {
        abs(y)
    }
}

/// Half of `v`, rounded toward zero.
pub open spec fn half_toward_zero(v: int) -> int {
    if v >= 0 {
        v / 2
    } else {
        -((-v) / 2)
    }
}

/// The vector `(x, y)` halved or doubled, both components alike, until its
/// magnitude lies in the window from 2^47 up to 2^48; the zero vector stays.
pub open spec fn fit(x: int, y: int) -> (int, int)
    decreases
        (if magnitude(x, y) >= 0x1_0000_0000_0000 {
            magnitude(x, y)
        } else {
            0x1_0000_0000_0000 - magnitude(x, y)
        }),
{
    let m = magnitude(x, y);
    if m == 0 {
        (x, y)
    } else if m >= 0x1_0000_0000_0000 {
        fit(half_toward_zero(x), half_toward_zero(y))
    } else if m < 0x8000_0000_0000 {
        fit(2 * x, 2 * y)
    } else {
        (x, y)
    }
}

/// One component of a unit vector: `c` over `len` in fixed point, rounded
/// toward zero.
pub open spec fn unit_component(c: int, len: int) -> int {
    if c >= 0 {
        (c * 65536) / len
    } else {
        -(((-c) * 65536) / len)
    }
}

/// The unit vector along `(x, y)` in fixed point; the zero vector for the
/// zero vector.
pub open spec fn spec_normalize(x: int, y: int) -> (int, int) {
    if x == 0 && y == 0 {
        (0, 0)
    } else {
        let f = fit(x, y);
        let len = int_sqrt(f.0 * f.0 + f.1 * f.1);
        (unit_component(f.0, len), unit_component(f.1, len))
    }
}

/// Whether `(x, y)` is as long as one, within the rounding of fixed point:
/// its squared length is at most one and misses one by less than 2^-13.
pub open spec fn is_unit(x: int, y: int) -> bool {
    65536 * 65536 - 4 * 65536 - 2 < x * x + y * y <= 65536 * 65536
}

/// A non-zero vector fitted to the window has its magnitude inside it.
pub proof fn lemma_fit_window(x: int, y: int)
    requires
        x != 0 || y != 0,
    ensures
        0x8000_0000_0000 <= magnitude(fit(x, y).0, fit(x, y).1) < 0x1_0000_0000_0000,
    decreases
        (if magnitude(x, y) >= 0x1_0000_0000_0000 {
            magnitude(x, y)
        } else {
            0x1_0000_0000_0000 - magnitude(x, y)
        }),
{
    let m = magnitude(x, y);
    if m >= 0x1_0000_0000_0000 {
        lemma_fit_window(half_toward_zero(x), half_toward_zero(y));
    } else if m < 0x8000_0000_0000 {
        lemma_fit_window(2 * x, 2 * y);
    }
}

/// Every natural number has a rounded-down square root.
pub proof fn lemma_sqrt_exists(n: int)
    requires
        n >= 0,
    ensures
        is_sqrt(n, int_sqrt(n)),
    decreases n,
{
    if n == 0 {
        assert(is_sqrt(0, 0));
    } else {
        lemma_sqrt_exists(n - 1);
        let r = int_sqrt(n - 1);
        if (r + 1) * (r + 1) <= n {
            assert((r + 1) * (r + 1) < (r + 2) * (r + 2)) by (nonlinear_arith)
                requires 0 <= r;
            assert(is_sqrt(n, r + 1));
        } else {
            assert(is_sqrt(n, r));
        }
    }
}

/// Squaring keeps the order of non-negative numbers.
proof fn lemma_square_le(u: int, v: int)
    requires
        0 <= u <= v,
    ensures
        u * u <= v * v,
{
    assert(u * u <= v * v) by (nonlinear_arith)
        requires 0 <= u <= v;
}

/// Squaring keeps the strict order of non-negative numbers.
proof fn lemma_square_lt(u: int, v: int)
    requires
        0 <= u < v,
    ensures
        u * u < v * v,
{
    assert(u * u < v * v) by (nonlinear_arith)
        requires 0 <= u < v;
}

/// The quotients of two non-negative numbers `a` and `b`, scaled by `one`,
/// over the square root `len` of the sum of their squares form a vector
/// whose squared length is at most `one` squared and misses it by less
/// than `4 * one + 2`, once `len` exceeds twice `one` squared.
proof fn lemma_quotients_unit(a: int, b: int, len: int, one: int)
    requires
        0 <= a,
        0 <= b,
        0 < one,
        is_sqrt(a * a + b * b, len),
        len > 2 * one * one,
    ensures
        ({
            let qa = (a * one) / len;
            let qb = (b * one) / len;
            &&& 0 <= qa <= one
            &&& 0 <= qb <= one
            &&& one * one - 4 * one - 2 < qa * qa + qb * qb <= one * one
        }),
{
    let s = a * a + b * b;
    let qa = (a * one) / len;
    let qb = (b * one) / len;
    let ra = (a * one) % len;
    let rb = (b * one) % len;
    assert(0 < len) by (nonlinear_arith)
        requires len > 2 * one * one, 0 < one;
    assert(0 <= a * one && 0 <= b * one) by (nonlinear_arith)
        requires 0 <= a, 0 <= b, 0 < one;
    vstd::arithmetic::div_mod::lemma_fundamental_div_mod(a * one, len);
    vstd::arithmetic::div_mod::lemma_fundamental_div_mod(b * one, len);
    assert(a * one == len * qa + ra);
    assert(b * one == len * qb + rb);
    assert(0 <= qa) by (nonlinear_arith)
        requires a * one == len * qa + ra, 0 <= a * one, 0 <= ra < len;
    assert(0 <= qb) by (nonlinear_arith)
        requires b * one == len * qb + rb, 0 <= b * one, 0 <= rb < len;
    // each component is at most the root
    assert(a * a <= s && b * b <= s) by (nonlinear_arith)
        requires s == a * a + b * b;
    if a > len {
        lemma_square_le(len + 1, a);
    }
    if b > len {
        lemma_square_le(len + 1, b);
    }
    assert(a <= len && b <= len);
    assert(qa <= one) by (nonlinear_arith)
        requires a * one == len * qa + ra, 0 <= ra, a <= len, 0 < len, 0 < one;
    assert(qb <= one) by (nonlinear_arith)
        requires b * one == len * qb + rb, 0 <= rb, b <= len, 0 < len, 0 < one;
    let ua = qa * len;
    let ub = qb * len;
    let va = a * one;
    let vb = b * one;
    assert(0 <= ua <= va && va < ua + len) by (nonlinear_arith)
        requires a * one == len * qa + ra, 0 <= ra < len, 0 <= qa, ua == qa * len,
            va == a * one;
    assert(0 <= ub <= vb && vb < ub + len) by (nonlinear_arith)
        requires b * one == len * qb + rb, 0 <= rb < len, 0 <= qb, ub == qb * len,
            vb == b * one;
    let q = qa * qa + qb * qb;
    let ll = len * len;
    let t = one * one;
    assert(0 < t && len > 2 * t && 0 < ll) by (nonlinear_arith)
        requires t == one * one, 0 < one, len > 2 * one * one, ll == len * len;
    // upper bound
    lemma_square_le(ua, va);
    lemma_square_le(ub, vb);
    assert(ua * ua + ub * ub == q * ll) by (nonlinear_arith)
        requires ua == qa * len, ub == qb * len, q == qa * qa + qb * qb, ll == len * len;
    assert(va * va + vb * vb == s * t) by (nonlinear_arith)
        requires va == a * one, vb == b * one, s == a * a + b * b, t == one * one;
    assert(q * ll <= s * t);
    assert(s <= ll + 2 * len) by (nonlinear_arith)
        requires s < (len + 1) * (len + 1), ll == len * len;
    assert(s * t <= (ll + 2 * len) * t) by (nonlinear_arith)
        requires s <= ll + 2 * len, 0 <= t;
    if q >= t + 1 {
        assert(q * ll >= (t + 1) * ll) by (nonlinear_arith)
            requires q >= t + 1, 0 <= ll;
        assert((t + 1) * ll <= (ll + 2 * len) * t);
        assert(ll <= 2 * len * t) by (nonlinear_arith)
            requires (t + 1) * ll <= (ll + 2 * len) * t;
        assert(false) by (nonlinear_arith)
            requires ll == len * len, ll <= 2 * len * t, len > 2 * t, 0 < t, 0 < len;
    }
    assert(q <= t);
    // lower bound
    lemma_square_lt(va, ua + len);
    lemma_square_lt(vb, ub + len);
    let p = (qa + 1) * (qa + 1) + (qb + 1) * (qb + 1);
    assert((ua + len) * (ua + len) + (ub + len) * (ub + len) == p * ll) by (nonlinear_arith)
        requires ua == qa * len, ub == qb * len,
            p == (qa + 1) * (qa + 1) + (qb + 1) * (qb + 1), ll == len * len;
    assert(s * t < p * ll);
    assert(ll * t <= s * t) by (nonlinear_arith)
        requires ll <= s, 0 <= t, ll == len * len;
    assert(t < p) by (nonlinear_arith)
        requires ll * t < p * ll, 0 < ll;
    assert(p == q + 2 * qa + 2 * qb + 2) by (nonlinear_arith)
        requires p == (qa + 1) * (qa + 1) + (qb + 1) * (qb + 1), q == qa * qa + qb * qb;
}

/// A vector fitted to the window and divided by its rounded-down length is
/// a unit vector.
pub proof fn lemma_fitted_unit(fx: int, fy: int)
    requires
        0x8000_0000_0000 <= magnitude(fx, fy) < 0x1_0000_0000_0000,
    ensures
        ({
            let len = int_sqrt(fx * fx + fy * fy);
            &&& is_sqrt(fx * fx + fy * fy, len)
            &&& 0x8000_0000_0000 <= len
            &&& is_unit(unit_component(fx, len), unit_component(fy, len))
            &&& -65536 <= unit_component(fx, len) <= 65536
            &&& -65536 <= unit_component(fy, len) <= 65536
        }),
{
    let a = abs(fx);
    let b = abs(fy);
    let m = magnitude(fx, fy);
    assert(fx * fx == a * a) by (nonlinear_arith)
        requires a == fx || a == -fx;
    assert(fy * fy == b * b) by (nonlinear_arith)
        requires b == fy || b == -fy;
    let s = a * a + b * b;
    assert(m * m <= s && 0 <= s) by (nonlinear_arith)
        requires s == a * a + b * b, m == a || m == b;
    lemma_sqrt_exists(s);
    let len = int_sqrt(s);
    lemma_sqrt_lower(s, len, m);
    lemma_quotients_unit(a, b, len, 65536);
    let qa = (a * 65536) / len;
    let qb = (b * 65536) / len;
    let rx = unit_component(fx, len);
    let ry = unit_component(fy, len);
    assert(rx == qa || rx == -qa);
    assert(ry == qb || ry == -qb);
    assert(rx * rx == qa * qa) by (nonlinear_arith)
        requires rx == qa || rx == -qa;
    assert(ry * ry == qb * qb) by (nonlinear_arith)
        requires ry == qb || ry == -qb;
}

/// The unit vector along a vector is the zero vector only for the zero
/// vector; along any other it is as long as one, within rounding.
pub proof fn lemma_normalize_unit(x: int, y: int)
    ensures
        (x == 0 && y == 0) ==> spec_normalize(x, y) == (0int, 0int),
        (x != 0 || y != 0) ==> is_unit(spec_normalize(x, y).0, spec_normalize(x, y).1),
        (x != 0 || y != 0) ==> spec_normalize(x, y) != (0int, 0int),
        -65536 <= spec_normalize(x, y).0 <= 65536,
        -65536 <= spec_normalize(x, y).1 <= 65536,
{
    if x != 0 || y != 0 {
        lemma_fit_window(x, y);
        let f = fit(x, y);
        lemma_fitted_unit(f.0, f.1);
        let n = spec_normalize(x, y);
        if n.0 == 0 && n.1 == 0 {
            assert(n.0 * n.0 + n.1 * n.1 == 0);
        }
    }
}

/// The unit vector along `(x, y)`.
pub fn normalize(x: i128, y: i128) -> (r: (i64, i64))
    ensures
        r.0 == spec_normalize(x as int, y as int).0,
        r.1 == spec_normalize(x as int, y as int).1,
        (x == 0 && y == 0) ==> r == (0i64, 0i64),
        (x != 0 || y != 0) ==> is_unit(r.0 as int, r.1 as int),
{
    if x == 0 && y == 0 {
        return (0, 0);
    }
    let mut fx = x;
    let mut fy = y;
    while fx >= 0x1_0000_0000_0000 || fx <= -0x1_0000_0000_0000 || fy >= 0x1_0000_0000_0000
        || fy <= -0x1_0000_0000_0000
        invariant
            fit(fx as int, fy as int) == fit(x as int, y as int),
            fx != 0 || fy != 0,
        decreases magnitude(fx as int, fy as int),
    {
        fx = fx / 2;
        fy = fy / 2;
    }
    while -0x8000_0000_0000 < fx && fx < 0x8000_0000_0000 && -0x8000_0000_0000 < fy && fy
        < 0x8000_0000_0000
        invariant
            fit(fx as int, fy as int) == fit(x as int, y as int),
            fx != 0 || fy != 0,
            magnitude(fx as int, fy as int) < 0x1_0000_0000_0000,
        decreases 0x1_0000_0000_0000 - magnitude(fx as int, fy as int),
    {
        fx = fx * 2;
        fy = fy * 2;
    }
    proof {
        lemma_fitted_unit(fx as int, fy as int);
        lemma_normalize_unit(x as int, y as int);
    }
    let ax: u128 = if fx < 0 { (-fx) as u128 } else { fx as u128 };
    let ay: u128 = if fy < 0 { (-fy) as u128 } else { fy as u128 };
    assert(ax * ax <= 0xffff_ffff_ffff * 0xffff_ffff_ffff) by (nonlinear_arith)
        requires 0 <= ax <= 0xffff_ffff_ffff;
    assert(ay * ay <= 0xffff_ffff_ffff * 0xffff_ffff_ffff) by (nonlinear_arith)
        requires 0 <= ay <= 0xffff_ffff_ffff;
    assert(ax * ax == fx * fx) by (nonlinear_arith)
        requires ax == fx || ax == -fx;
    assert(ay * ay == fy * fy) by (nonlinear_arith)
        requires ay == fy || ay == -fy;
    let len = isqrt(ax * ax + ay * ay) as u128;
    let qx = (ax * 65536) / len;
    let qy = (ay * 65536) / len;
    let rx: i64 = if fx < 0 { -(qx as i64) } else { qx as i64 };
    let ry: i64 = if fy < 0 { -(qy as i64) } else { qy as i64 };
    (rx, ry)
}

/// The weighted sum behind a bilinear blend of four values at the
/// fractions `tx` and `ty` of a cell: the blend times 2^32.
pub open spec fn spec_bilinear_num(v00: int, v10: int, v01: int, v11: int, tx: int, ty: int) -> int {
    (v00 * (65536 - tx) + v10 * tx) * (65536 - ty) + (v01 * (65536 - tx) + v11 * tx) * ty
}

/// The bilinear blend of the values at the four corners of a cell, at the
/// fractions `tx` and `ty` of the way from `v00` to the corners in x and
/// in y, rounded down.
pub open spec fn spec_bilinear(v00: int, v10: int, v01: int, v11: int, tx: int, ty: int) -> int {
    floor_div(spec_bilinear_num(v00, v10, v01, v11, tx, ty), 4294967296)
}

/// A bilinear blend lies between two bounds that hold all four corners.
pub proof fn lemma_bilinear_between(
    v00: int,
    v10: int,
    v01: int,
    v11: int,
    tx: int,
    ty: int,
    lo: int,
    hi: int,
)
    requires
        0 <= tx <= 65536,
        0 <= ty <= 65536,
        lo <= v00 <= hi,
        lo <= v10 <= hi,
        lo <= v01 <= hi,
        lo <= v11 <= hi,
    ensures
        lo * 4294967296 <= spec_bilinear_num(v00, v10, v01, v11, tx, ty) <= hi * 4294967296,
        lo <= spec_bilinear(v00, v10, v01, v11, tx, ty) <= hi,
{
    let a = v00 * (65536 - tx) + v10 * tx;
    let b = v01 * (65536 - tx) + v11 * tx;
    assert(lo * 65536 <= a <= hi * 65536) by (nonlinear_arith)
        requires a == v00 * (65536 - tx) + v10 * tx, 0 <= tx <= 65536, lo <= v00 <= hi,
            lo <= v10 <= hi;
    assert(lo * 65536 <= b <= hi * 65536) by (nonlinear_arith)
        requires b == v01 * (65536 - tx) + v11 * tx, 0 <= tx <= 65536, lo <= v01 <= hi,
            lo <= v11 <= hi;
    let n = a * (65536 - ty) + b * ty;
    assert(lo * 65536 * 65536 <= n <= hi * 65536 * 65536) by (nonlinear_arith)
        requires n == a * (65536 - ty) + b * ty, 0 <= ty <= 65536, lo * 65536 <= a <= hi * 65536,
            lo * 65536 <= b <= hi * 65536;
    vstd::arithmetic::div_mod::lemma_fundamental_div_mod(n, 4294967296);
}

/// At a corner of the cell a bilinear blend is the value of that corner;
/// at the midpoint of an edge from the first corner it is the mean of the
/// edge's two corners, rounded down.
pub proof fn lemma_bilinear_at_corner_and_midpoint(v00: int, v10: int, v01: int, v11: int)
    ensures
        spec_bilinear(v00, v10, v01, v11, 0, 0) == v00,
        spec_bilinear(v00, v10, v01, v11, 32768, 0) == floor_div(v00 + v10, 2),
        spec_bilinear(v00, v10, v01, v11, 0, 32768) == floor_div(v00 + v01, 2),
{
    assert(spec_bilinear_num(v00, v10, v01, v11, 0, 0) == v00 * 4294967296);
    assert(spec_bilinear_num(v00, v10, v01, v11, 32768, 0) == (v00 + v10) * 2147483648);
    assert(spec_bilinear_num(v00, v10, v01, v11, 0, 32768) == (v00 + v01) * 2147483648);
}

/// The weighted sum behind a bilinear blend.
pub fn bilinear_num(v00: i32, v10: i32, v01: i32, v11: i32, tx: u16, ty: u16) -> (n: i128)
    ensures
        n == spec_bilinear_num(
            v00 as int,
            v10 as int,
            v01 as int,
            v11 as int,
            tx as int,
            ty as int,
        ),
        -0x8000_0000_0000_0000 <= n <= 0x8000_0000_0000_0000,
{
    proof {
        lemma_bilinear_between(
            v00 as int,
            v10 as int,
            v01 as int,
            v11 as int,
            tx as int,
            ty as int,
            -0x8000_0000,
            0x8000_0000,
        );
    }
    let wx: i128 = 65536 - tx as i128;
    let wy: i128 = 65536 - ty as i128;
    assert(-0x1_0000_0000_0000 <= v00 * wx <= 0x1_0000_0000_0000) by (nonlinear_arith)
        requires -0x8000_0000 <= v00 <= 0x8000_0000, 0 <= wx <= 65536;
    assert(-0x1_0000_0000_0000 <= v10 * tx <= 0x1_0000_0000_0000) by (nonlinear_arith)
        requires -0x8000_0000 <= v10 <= 0x8000_0000, 0 <= tx <= 65536;
    assert(-0x1_0000_0000_0000 <= v01 * wx <= 0x1_0000_0000_0000) by (nonlinear_arith)
        requires -0x8000_0000 <= v01 <= 0x8000_0000, 0 <= wx <= 65536;
    assert(-0x1_0000_0000_0000 <= v11 * tx <= 0x1_0000_0000_0000) by (nonlinear_arith)
        requires -0x8000_0000 <= v11 <= 0x8000_0000, 0 <= tx <= 65536;
    let a = v00 as i128 * wx + v10 as i128 * tx as i128;
    let b = v01 as i128 * wx + v11 as i128 * tx as i128;
    assert(-0x2_0000_0000_0000_0000 <= a * wy <= 0x2_0000_0000_0000_0000) by (nonlinear_arith)
        requires -0x2_0000_0000_0000 <= a <= 0x2_0000_0000_0000, 0 <= wy <= 65536;
    assert(-0x2_0000_0000_0000_0000 <= b * ty <= 0x2_0000_0000_0000_0000) by (nonlinear_arith)
        requires -0x2_0000_0000_0000 <= b <= 0x2_0000_0000_0000, 0 <= ty <= 65536;
    a * wy + b * ty as i128
}

/// The bilinear blend of four values.
pub fn bilinear(v00: i32, v10: i32, v01: i32, v11: i32, tx: u16, ty: u16) -> (r: i64)
    ensures
        r == spec_bilinear(v00 as int, v10 as int, v01 as int, v11 as int, tx as int, ty as int),
{
    proof {
        lemma_bilinear_between(
            v00 as int,
            v10 as int,
            v01 as int,
            v11 as int,
            tx as int,
            ty as int,
            -0x8000_0000,
            0x8000_0000,
        );
    }
    let n = bilinear_num(v00, v10, v01, v11, tx, ty);
    div_floor_i128(n, 4294967296) as i64
}

} // verus!
