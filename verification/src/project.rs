//! Projection of a coplanar index loop onto an in-plane 2D basis.
//!
//! The basis is the loop's reference edge `e1 = p1 - p0` taken at its raw
//! length, and a second in-plane axis `e2 = n x e1` where `n = e1 x (p2 - p0)`
//! is the plane normal.  Compared with an orthonormal basis this scales the
//! second coordinate by the (positive) length of `n`; every orientation test
//! downstream only reads signs of 2D cross products, which such a scaling
//! preserves.

use vstd::prelude::*;

use crate::coplanar::point_at;
use crate::coplanar::positions_in_limit;
use crate::coplanar::valid_polygon;
use crate::vec3::cross3;
use crate::vec3::diff;
use crate::vec3::dot3;
use crate::vec3::in_i128;
use crate::vec3::lemma_cross_bounds;
use crate::vec3::lemma_dot_bounds;
use crate::vec3::Point3;
use crate::vec3::V3;

verus! {

/// Bound on the first projected coordinate of an in-limit point.
pub const PROJECTED_X_LIMIT: i128 = 1_920_000_000_000;

/// Bound on the second projected coordinate of an in-limit point.
pub const PROJECTED_Y_LIMIT: i128 = 4_915_200_000_000_000_000_000_000;

/// A projected 2D point, exact.
#[derive(Clone, Copy, Debug, PartialEq, Eq, Structural)]
pub struct Point2 {
    pub x: i128,
    pub y: i128,
}

/// The mathematical model of a 2-vector: two unbounded integers.
pub ghost struct V2 {
    pub x: int,
    pub y: int,
}

impl V2 {
    pub open spec fn minus(self, o: V2) -> V2 {
        V2 { x: self.x - o.x, y: self.y - o.y }
    }

    /// The 2D scalar cross product; positive when `o` is counter-clockwise
    /// from `self`.
    pub open spec fn cross(self, o: V2) -> int {
        self.x * o.y - self.y * o.x
    }
}

impl View for Point2 {
    type V = V2;

    open spec fn view(&self) -> V2 {
        V2 { x: self.x as int, y: self.y as int }
    }
}

impl Point2 {
    pub open spec fn in_projected_limit(self) -> bool {
        -PROJECTED_X_LIMIT <= self.x <= PROJECTED_X_LIMIT && -PROJECTED_Y_LIMIT <= self.y
            <= PROJECTED_Y_LIMIT
    }

    pub fn new(x: i128, y: i128) -> (r: Point2)
        ensures
            r@ == (V2 { x: x as int, y: y as int }),
    {
        Point2 { x, y }
    }
}

/// The loop's reference edge, `p1 - p0`, at its raw length.
pub open spec fn basis_e1(polygon: Seq<usize>, positions: Seq<Point3>) -> V3 {
    point_at(polygon, positions, 1).minus(point_at(polygon, positions, 0))
}

/// The plane normal the projection uses: `e1 x (p2 - p0)`.
pub open spec fn projection_normal(polygon: Seq<usize>, positions: Seq<Point3>) -> V3 {
    basis_e1(polygon, positions).cross(
        point_at(polygon, positions, 2).minus(point_at(polygon, positions, 0)),
    )
}

/// The second in-plane axis, `n x e1`.
pub open spec fn basis_e2(polygon: Seq<usize>, positions: Seq<Point3>) -> V3 {
    projection_normal(polygon, positions).cross(basis_e1(polygon, positions))
}

/// Where the loop's `i`-th vertex lands in the 2D basis: dot products of
/// `pi - p0` against the two axes.  Opaque so that callers carrying whole
/// projections around do not unfold one polynomial tree per vertex.
#[verifier::opaque]
pub open spec fn projected_point(polygon: Seq<usize>, positions: Seq<Point3>, i: int) -> V2 {
    let w = point_at(polygon, positions, i).minus(point_at(polygon, positions, 0));
    V2 { x: w.dot(basis_e1(polygon, positions)), y: w.dot(basis_e2(polygon, positions)) }
}

/// The views of a sequence of projected points.
pub open spec fn point2_views(ps: Seq<Point2>) -> Seq<V2> {
    Seq::new(ps.len(), |i: int| ps[i]@)
}

/// Where every vertex of the loop lands in the 2D basis.
pub open spec fn projection_views(polygon: Seq<usize>, positions: Seq<Point3>) -> Seq<V2> {
    Seq::new(polygon.len(), |i: int| projected_point(polygon, positions, i))
}

/// The 2D scalar cross product `v1.x * v2.y - v1.y * v2.x`, exact.
pub fn cross_2d(v1: &Point2, v2: &Point2) -> (r: i128)
    requires
        in_i128(v1@.x * v2@.y),
        in_i128(v1@.y * v2@.x),
        in_i128(v1@.cross(v2@)),
    ensures
        r as int == v1@.cross(v2@),
{
    v1.x * v2.y - v1.y * v2.x
}

/// Projects every vertex of the loop onto the in-plane 2D basis, in loop
/// order.  The caller is expected to have confirmed coplanarity; for a bent
/// loop the projection is still produced but geometrically meaningless.
pub fn project_to_2d(polygon: &Vec<usize>, positions: &Vec<Point3>) -> (r: Vec<Point2>)
    requires
        polygon@.len() >= 3,
        valid_polygon(polygon@, positions@),
        positions_in_limit(positions@),
    ensures
        r@.len() == polygon@.len(),
        forall|i: int|
            0 <= i < polygon@.len() ==> (#[trigger] r@[i])@ == projected_point(
                polygon@,
                positions@,
                i,
            ),
        forall|i: int| 0 <= i < polygon@.len() ==> (#[trigger] r@[i]).in_projected_limit(),
        point2_views(r@) == projection_views(polygon@, positions@),
{
    let ghost ps = polygon@;
    let ghost qs = positions@;
    let p0 = positions[polygon[0]];
    let p1 = positions[polygon[1]];
    let p2 = positions[polygon[2]];
    let e1 = diff(&p1, &p0);
    let tmp = diff(&p2, &p0);
    proof {
        lemma_cross_bounds(e1@, tmp@, 800_000, 800_000);
    }
    let nvec = cross3(&e1, &tmp);
    proof {
        lemma_cross_bounds(nvec@, e1@, 1_280_000_000_000, 800_000);
    }
    let e2 = cross3(&nvec, &e1);
    let n = polygon.len();
    let mut r: Vec<Point2> = Vec::new();
    let mut i: usize = 0;
    while i < n
        invariant
            ps == polygon@,
            qs == positions@,
            n == ps.len(),
            3 <= n,
            valid_polygon(ps, qs),
            positions_in_limit(qs),
            p0@ == point_at(ps, qs, 0),
            e1@ == basis_e1(ps, qs),
            e1@.bounded(800_000),
            e2@ == basis_e2(ps, qs),
            e2@.bounded(2_048_000_000_000_000_000),
            0 <= i <= n,
            r@.len() == i,
            forall|j: int|
                0 <= j < i ==> (#[trigger] r@[j])@ == projected_point(ps, qs, j),
            forall|j: int| 0 <= j < i ==> (#[trigger] r@[j]).in_projected_limit(),
        decreases n - i,
    {
        let pi = positions[polygon[i]];
        let w = diff(&pi, &p0);
        proof {
            lemma_dot_bounds(w@, e1@, 800_000, 800_000);
            lemma_dot_bounds(w@, e2@, 800_000, 2_048_000_000_000_000_000);
        }
        let x = dot3(&w, &e1);
        let y = dot3(&w, &e2);
        r.push(Point2 { x, y });
        proof {
            reveal(projected_point);
            assert(r@[i as int]@ == projected_point(ps, qs, i as int));
        }
        i = i + 1;
    }
    proof {
        assert(point2_views(r@) =~= projection_views(ps, qs));
    }
    r
}

} // verus!
