//! Exact integer 3-vectors: the coordinate type, its mathematical model, and
//! the arithmetic the triangulation pipeline needs, with overflow bounds.

use vstd::prelude::*;

verus! {

/// Largest magnitude a coordinate of a [`Point3`] may have.  The bound is
/// chosen so that every product the library forms — up to degree six in the
/// coordinates, for the 2D cross products of projected points — stays inside
/// `i128`.
pub const COORD_LIMIT: i64 = 400_000;

/// A 3D point with exact integer coordinates.  Callers working in real units
/// pick a fixed-point scale and multiply their coordinates by it.
#[derive(Clone, Copy, Debug, PartialEq, Eq, Structural)]
pub struct Point3 {
    pub x: i64,
    pub y: i64,
    pub z: i64,
}

/// The mathematical model of a 3-vector: three unbounded integers.
pub ghost struct V3 {
    pub x: int,
    pub y: int,
    pub z: int,
}

impl V3 {
    pub open spec fn minus(self, o: V3) -> V3 {
        V3 { x: self.x - o.x, y: self.y - o.y, z: self.z - o.z }
    }

    pub open spec fn cross(self, o: V3) -> V3 {
        V3 {
            x: self.y * o.z - self.z * o.y,
            y: self.z * o.x - self.x * o.z,
            z: self.x * o.y - self.y * o.x,
        }
    }

    pub open spec fn dot(self, o: V3) -> int {
        self.x * o.x + self.y * o.y + self.z * o.z
    }

    pub open spec fn norm2(self) -> int {
        self.dot(self)
    }

    pub open spec fn scale(self, k: int) -> V3 {
        V3 { x: k * self.x, y: k * self.y, z: k * self.z }
    }

    pub open spec fn is_zero(self) -> bool {
        self.x == 0 && self.y == 0 && self.z == 0
    }

    /// All three components lie in `[-b, b]`.
    pub open spec fn bounded(self, b: int) -> bool {
        -b <= self.x <= b && -b <= self.y <= b && -b <= self.z <= b
    }
}

impl View for Point3 {
    type V = V3;

    open spec fn view(&self) -> V3 {
        V3 { x: self.x as int, y: self.y as int, z: self.z as int }
    }
}

impl Point3 {
    pub open spec fn in_coord_limit(self) -> bool {
        self@.bounded(COORD_LIMIT as int)
    }

    pub fn new(x: i64, y: i64, z: i64) -> (r: Point3)
        ensures
            r@ == (V3 { x: x as int, y: y as int, z: z as int }),
    {
        Point3 { x, y, z }
    }
}

/// A computed 3-vector (a difference of points, a normal): wide enough for
/// every intermediate the pipeline forms.
#[derive(Clone, Copy, Debug, PartialEq, Eq, Structural)]
pub struct W3 {
    pub x: i128,
    pub y: i128,
    pub z: i128,
}

impl View for W3 {
    type V = V3;

    open spec fn view(&self) -> V3 {
        V3 { x: self.x as int, y: self.y as int, z: self.z as int }
    }
}

pub open spec fn in_i128(x: int) -> bool {
    i128::MIN <= x <= i128::MAX
}

/// |x| <= a and |y| <= b bound the product by a * b.
pub proof fn lemma_mul_bound(x: int, y: int, a: int, b: int)
    by (nonlinear_arith)
    requires
        -a <= x <= a,
        -b <= y <= b,
    ensures
        -(a * b) <= x * y <= a * b,
{
}

/// Component bounds for a cross product, and that each intermediate product
/// fits in `i128`, provided `2 * (a * b)` does.
pub proof fn lemma_cross_bounds(u: V3, v: V3, a: int, b: int)
    requires
        u.bounded(a),
        v.bounded(b),
        2 * (a * b) <= i128::MAX,
    ensures
        u.cross(v).bounded(2 * (a * b)),
        in_i128(u.y * v.z),
        in_i128(u.z * v.y),
        in_i128(u.z * v.x),
        in_i128(u.x * v.z),
        in_i128(u.x * v.y),
        in_i128(u.y * v.x),
{
    assert(0 <= a * b) by (nonlinear_arith)
        requires
            0 <= a,
            0 <= b,
    ;
    lemma_mul_bound(u.y, v.z, a, b);
    lemma_mul_bound(u.z, v.y, a, b);
    lemma_mul_bound(u.z, v.x, a, b);
    lemma_mul_bound(u.x, v.z, a, b);
    lemma_mul_bound(u.x, v.y, a, b);
    lemma_mul_bound(u.y, v.x, a, b);
}

/// Bound for a dot product, and that each intermediate fits in `i128`,
/// provided `3 * (a * b)` does.
pub proof fn lemma_dot_bounds(u: V3, v: V3, a: int, b: int)
    requires
        u.bounded(a),
        v.bounded(b),
        3 * (a * b) <= i128::MAX,
    ensures
        -(3 * (a * b)) <= u.dot(v) <= 3 * (a * b),
        in_i128(u.x * v.x),
        in_i128(u.y * v.y),
        in_i128(u.z * v.z),
        in_i128(u.x * v.x + u.y * v.y),
{
    assert(0 <= a * b) by (nonlinear_arith)
        requires
            0 <= a,
            0 <= b,
    ;
    lemma_mul_bound(u.x, v.x, a, b);
    lemma_mul_bound(u.y, v.y, a, b);
    lemma_mul_bound(u.z, v.z, a, b);
}

/// A squared length is never negative.
pub proof fn lemma_norm2_nonneg(v: V3)
    by (nonlinear_arith)
    ensures
        v.norm2() >= 0,
{
}

/// The dot product distributes over a difference.
pub proof fn lemma_dot_minus(n: V3, a: V3, b: V3)
    by (nonlinear_arith)
    ensures
        n.dot(a.minus(b)) == n.dot(a) - n.dot(b),
{
}

/// One coordinate of the triple expansion `x cross (c cross d)`, written
/// out over plain integers; the other coordinates are the same identity
/// with the coordinate names rotated.
proof fn lemma_bac_cab_coord(
    xx: int,
    xy: int,
    xz: int,
    cx: int,
    cy: int,
    cz: int,
    dx: int,
    dy: int,
    dz: int,
)
    ensures
        xy * (cx * dy - cy * dx) - xz * (cz * dx - cx * dz) == cx * (xx * dx + xy * dy + xz * dz)
            - dx * (xx * cx + xy * cy + xz * cz),
{
    assert(xy * (cx * dy - cy * dx) == xy * (cx * dy) - xy * (cy * dx)) by (nonlinear_arith);
    assert(xz * (cz * dx - cx * dz) == xz * (cz * dx) - xz * (cx * dz)) by (nonlinear_arith);
    assert(cx * (xx * dx + xy * dy + xz * dz) == cx * (xx * dx) + cx * (xy * dy) + cx * (xz * dz))
        by (nonlinear_arith);
    assert(dx * (xx * cx + xy * cy + xz * cz) == dx * (xx * cx) + dx * (xy * cy) + dx * (xz * cz))
        by (nonlinear_arith);
    assert(xy * (cx * dy) == cx * (xy * dy)) by (nonlinear_arith);
    assert(xy * (cy * dx) == dx * (xy * cy)) by (nonlinear_arith);
    assert(xz * (cz * dx) == dx * (xz * cz)) by (nonlinear_arith);
    assert(xz * (cx * dz) == cx * (xz * dz)) by (nonlinear_arith);
    assert(cx * (xx * dx) == dx * (xx * cx)) by (nonlinear_arith);
}

/// Multiplication commutes.
pub proof fn lemma_mul_comm(a: int, b: int)
    by (nonlinear_arith)
    ensures
        a * b == b * a,
{
}

/// The triple expansion `x cross (c cross d) == c (x . d) - d (x . c)`.
pub proof fn lemma_bac_cab(x: V3, c: V3, d: V3)
    ensures
        x.cross(c.cross(d)) == c.scale(x.dot(d)).minus(d.scale(x.dot(c))),
{
    lemma_bac_cab_coord(x.x, x.y, x.z, c.x, c.y, c.z, d.x, d.y, d.z);
    lemma_bac_cab_coord(x.y, x.z, x.x, c.y, c.z, c.x, d.y, d.z, d.x);
    lemma_bac_cab_coord(x.z, x.x, x.y, c.z, c.x, c.y, d.z, d.x, d.y);
    lemma_mul_comm(x.dot(d), c.x);
    lemma_mul_comm(x.dot(d), c.y);
    lemma_mul_comm(x.dot(d), c.z);
    lemma_mul_comm(x.dot(c), d.x);
    lemma_mul_comm(x.dot(c), d.y);
    lemma_mul_comm(x.dot(c), d.z);
}

/// The scalar triple product, written out over plain integers, is invariant
/// under rotating its factors.
proof fn lemma_triple_rotate_coord(
    vx: int,
    vy: int,
    vz: int,
    ax: int,
    ay: int,
    az: int,
    bx: int,
    by: int,
    bz: int,
)
    ensures
        (vy * az - vz * ay) * bx + (vz * ax - vx * az) * by + (vx * ay - vy * ax) * bz == vx * (ay
            * bz - az * by) + vy * (az * bx - ax * bz) + vz * (ax * by - ay * bx),
{
    assert((vy * az - vz * ay) * bx == (vy * az) * bx - (vz * ay) * bx) by (nonlinear_arith);
    assert((vz * ax - vx * az) * by == (vz * ax) * by - (vx * az) * by) by (nonlinear_arith);
    assert((vx * ay - vy * ax) * bz == (vx * ay) * bz - (vy * ax) * bz) by (nonlinear_arith);
    assert(vx * (ay * bz - az * by) == vx * (ay * bz) - vx * (az * by)) by (nonlinear_arith);
    assert(vy * (az * bx - ax * bz) == vy * (az * bx) - vy * (ax * bz)) by (nonlinear_arith);
    assert(vz * (ax * by - ay * bx) == vz * (ax * by) - vz * (ay * bx)) by (nonlinear_arith);
    assert((vy * az) * bx == vy * (az * bx)) by (nonlinear_arith);
    assert((vz * ay) * bx == vz * (ay * bx)) by (nonlinear_arith);
    assert((vz * ax) * by == vz * (ax * by)) by (nonlinear_arith);
    assert((vx * az) * by == vx * (az * by)) by (nonlinear_arith);
    assert((vx * ay) * bz == vx * (ay * bz)) by (nonlinear_arith);
    assert((vy * ax) * bz == vy * (ax * bz)) by (nonlinear_arith);
}

/// The scalar triple product is invariant under rotating its factors.
pub proof fn lemma_triple_product_rotate(v: V3, a: V3, b: V3)
    ensures
        (v.cross(a)).dot(b) == v.dot(a.cross(b)),
{
    lemma_triple_rotate_coord(v.x, v.y, v.z, a.x, a.y, a.z, b.x, b.y, b.z);
}

/// A cross product is orthogonal to its first factor, over plain integers.
proof fn lemma_cross_orth_coord(vx: int, vy: int, vz: int, ax: int, ay: int, az: int)
    by (nonlinear_arith)
    ensures
        (vy * az - vz * ay) * vx + (vz * ax - vx * az) * vy + (vx * ay - vy * ax) * vz == 0,
        (vy * az - vz * ay) * ax + (vz * ax - vx * az) * ay + (vx * ay - vy * ax) * az == 0,
{
}

/// A cross product is orthogonal to both of its factors.
pub proof fn lemma_cross_orthogonal(v: V3, a: V3)
    ensures
        (v.cross(a)).dot(v) == 0,
        (v.cross(a)).dot(a) == 0,
{
    lemma_cross_orth_coord(v.x, v.y, v.z, a.x, a.y, a.z);
}

/// Cross products sharing a factor: `(v x a) x (v x b)` points along `v`,
/// scaled by the determinant `v . (a x b)`.
pub proof fn lemma_cross_cross_shared(v: V3, a: V3, b: V3)
    ensures
        (v.cross(a)).cross(v.cross(b)) == v.scale(v.dot(a.cross(b))),
{
    let va = v.cross(a);
    lemma_bac_cab(va, v, b);
    lemma_triple_product_rotate(v, a, b);
    lemma_cross_orthogonal(v, a);
    assert(va.cross(v.cross(b)) == v.scale(va.dot(b)).minus(b.scale(va.dot(v))));
    assert(b.scale(0).is_zero());
}

/// Over plain integers: when `w` is componentwise proportional to `n` and
/// `v` is orthogonal to `n`, the first component of `n` annihilates `v . w`.
proof fn lemma_det_scaled_coord(
    nx: int,
    ny: int,
    nz: int,
    wx: int,
    wy: int,
    wz: int,
    vx: int,
    vy: int,
    vz: int,
)
    requires
        nx * wy == ny * wx,
        nz * wx == nx * wz,
        vx * nx + vy * ny + vz * nz == 0,
    ensures
        nx * (vx * wx + vy * wy + vz * wz) == 0,
{
    assert(nx * (vx * wx + vy * wy + vz * wz) == nx * (vx * wx) + nx * (vy * wy) + nx * (vz * wz))
        by (nonlinear_arith);
    assert(nx * (vx * wx) == (vx * nx) * wx) by (nonlinear_arith);
    assert(nx * (vy * wy) == vy * (nx * wy)) by (nonlinear_arith);
    assert(vy * (ny * wx) == (vy * ny) * wx) by (nonlinear_arith);
    assert(nx * (vz * wz) == vz * (nx * wz)) by (nonlinear_arith);
    assert(vz * (nz * wx) == (vz * nz) * wx) by (nonlinear_arith);
    assert((vx * nx) * wx + (vy * ny) * wx + (vz * nz) * wx == (vx * nx + vy * ny + vz * nz) * wx)
        by (nonlinear_arith);
    assert((vx * nx + vy * ny + vz * nz) * wx == 0) by (nonlinear_arith)
        requires
            vx * nx + vy * ny + vz * nz == 0,
    ;
}

/// In the integers a product vanishes only with one of its factors.
proof fn lemma_cancel(a: int, b: int)
    by (nonlinear_arith)
    requires
        a * b == 0,
        a != 0,
    ensures
        b == 0,
{
}

/// Three vectors orthogonal to one nonzero vector are linearly dependent:
/// their determinant vanishes.
pub proof fn lemma_det_zero(v: V3, a: V3, b: V3, n: V3)
    requires
        v.dot(n) == 0,
        a.dot(n) == 0,
        b.dot(n) == 0,
        !n.is_zero(),
    ensures
        v.dot(a.cross(b)) == 0,
{
    let w = a.cross(b);
    lemma_bac_cab(n, a, b);
    lemma_dot_commute(n, a);
    lemma_dot_commute(n, b);
    lemma_dot_commute(v, n);
    assert(n.cross(w).is_zero());
    assert(n.y * w.z == n.z * w.y && n.z * w.x == n.x * w.z && n.x * w.y == n.y * w.x);
    let det = v.dot(w);
    if n.x != 0 {
        lemma_det_scaled_coord(n.x, n.y, n.z, w.x, w.y, w.z, v.x, v.y, v.z);
        lemma_cancel(n.x, det);
    } else if n.y != 0 {
        lemma_det_scaled_coord(n.y, n.z, n.x, w.y, w.z, w.x, v.y, v.z, v.x);
        lemma_cancel(n.y, det);
    } else {
        lemma_det_scaled_coord(n.z, n.x, n.y, w.z, w.x, w.y, v.z, v.x, v.y);
        lemma_cancel(n.z, det);
    }
}

/// The dot product is symmetric.
pub proof fn lemma_dot_commute(u: V3, v: V3)
    by (nonlinear_arith)
    ensures
        u.dot(v) == v.dot(u),
{
}

/// Difference of two coordinate points, exact.
pub fn diff(a: &Point3, b: &Point3) -> (r: W3)
    requires
        a.in_coord_limit(),
        b.in_coord_limit(),
    ensures
        r@ == a@.minus(b@),
        r@.bounded(2 * COORD_LIMIT as int),
{
    W3 {
        x: a.x as i128 - b.x as i128,
        y: a.y as i128 - b.y as i128,
        z: a.z as i128 - b.z as i128,
    }
}

/// Cross product, exact.
pub fn cross3(a: &W3, b: &W3) -> (r: W3)
    requires
        in_i128(a@.y * b@.z),
        in_i128(a@.z * b@.y),
        in_i128(a@.z * b@.x),
        in_i128(a@.x * b@.z),
        in_i128(a@.x * b@.y),
        in_i128(a@.y * b@.x),
        in_i128(a@.cross(b@).x),
        in_i128(a@.cross(b@).y),
        in_i128(a@.cross(b@).z),
    ensures
        r@ == a@.cross(b@),
{
    W3 {
        x: a.y * b.z - a.z * b.y,
        y: a.z * b.x - a.x * b.z,
        z: a.x * b.y - a.y * b.x,
    }
}

/// Dot product, exact.
pub fn dot3(a: &W3, b: &W3) -> (r: i128)
    requires
        in_i128(a@.x * b@.x),
        in_i128(a@.y * b@.y),
        in_i128(a@.z * b@.z),
        in_i128(a@.x * b@.x + a@.y * b@.y),
        in_i128(a@.dot(b@)),
    ensures
        r as int == a@.dot(b@),
{
    a.x * b.x + a.y * b.y + a.z * b.z
}

} // verus!
