//! Coplanarity check: all points of an index loop must lie in one plane
//! within a relative tolerance.
//!
//! For every vertex past the first two, the plane normal spanned by the
//! loop's reference edge and that vertex is computed exactly.  Two adjacent
//! normals agree when the magnitude of their cross product is small relative
//! to the product of their lengths; that tolerates a normal flipping sign
//! across three near-collinear points, exactly as comparing unit normals in
//! both orientations would.

use vstd::math::abs;
use vstd::prelude::*;

use crate::isqrt::int_sqrt;
use crate::isqrt::is_sqrt_floor;
use crate::isqrt::lemma_sqrt_le;
use crate::isqrt::sqrt_floor;
use crate::vec3::cross3;
use crate::vec3::diff;
use crate::vec3::dot3;
use crate::vec3::lemma_cross_bounds;
use crate::vec3::lemma_dot_bounds;
use crate::vec3::lemma_mul_bound;
use crate::vec3::Point3;
use crate::vec3::V3;
use crate::vec3::W3;
use crate::vec3::COORD_LIMIT;

verus! {

/// Tolerances are rationals with this fixed denominator.
pub const TOLERANCE_DENOMINATOR: i128 = 1_048_576;

/// Default relative tolerance on the alignment of adjacent plane normals:
/// 4096 / 1048576, generous enough for coordinates that were rounded to a
/// fixed-point grid, far below the deviation of a genuinely bent loop.
pub const DEFAULT_COPLANAR_TOLERANCE: i128 = 4_096;

/// Largest accepted tolerance numerator (keeps every comparison in `i128`).
pub const MAX_TOLERANCE: i128 = 10_000_000_000_000;

/// Bound on each component of a plane normal formed from in-limit points.
pub const NORMAL_LIMIT: i128 = 1_280_000_000_000;

/// Bound on the length of such a normal.
pub const NORMAL_LENGTH_LIMIT: i128 = 2_300_000_000_000;

/// Every loop entry indexes into the position buffer.
pub open spec fn valid_polygon(polygon: Seq<usize>, positions: Seq<Point3>) -> bool {
    forall|i: int| 0 <= i < polygon.len() ==> (#[trigger] polygon[i]) < positions.len()
}

/// Every position is within the coordinate limit.
pub open spec fn positions_in_limit(positions: Seq<Point3>) -> bool {
    forall|i: int| 0 <= i < positions.len() ==> (#[trigger] positions[i]).in_coord_limit()
}

/// The 3D point the loop's `i`-th vertex refers to.
pub open spec fn point_at(polygon: Seq<usize>, positions: Seq<Point3>, i: int) -> V3 {
    positions[polygon[i] as int]@
}

/// Plane normal spanned by the loop's reference edge and its `i`-th vertex:
/// `(p1 - p0) x (pi - p0)`.
pub open spec fn loop_normal(polygon: Seq<usize>, positions: Seq<Point3>, i: int) -> V3 {
    let p0 = point_at(polygon, positions, 0);
    point_at(polygon, positions, 1).minus(p0).cross(point_at(polygon, positions, i).minus(p0))
}

/// The two normals point along one line, in either orientation, within
/// `tolerance / TOLERANCE_DENOMINATOR` relative to their lengths.
pub open spec fn normals_aligned(n1: V3, n2: V3, tolerance: int) -> bool {
    let c = n1.cross(n2);
    let s1 = sqrt_floor(n1.norm2());
    let s2 = sqrt_floor(n2.norm2());
    abs(c.x) * TOLERANCE_DENOMINATOR <= tolerance * s1 * s2 && abs(c.y) * TOLERANCE_DENOMINATOR
        <= tolerance * s1 * s2 && abs(c.z) * TOLERANCE_DENOMINATOR <= tolerance * s1 * s2
}

/// What the coplanarity check decides: loops shorter than three vertices are
/// rejected, a triangle is trivially coplanar, and a longer loop is coplanar
/// when every pair of adjacent plane normals is aligned.
pub open spec fn coplanar_spec(polygon: Seq<usize>, positions: Seq<Point3>, tolerance: int) -> bool {
    if polygon.len() < 3 {
        false
    } else if polygon.len() == 3 {
        true
    } else {
        forall|i: int|
            2 <= i < polygon.len() - 1 ==> normals_aligned(
                #[trigger] loop_normal(polygon, positions, i),
                loop_normal(polygon, positions, i + 1),
                tolerance,
            )
    }
}

/// Absolute value of an `i128` that is not the minimum.
fn abs128(x: i128) -> (r: i128)
    requires
        i128::MIN < x,
    ensures
        r as int == abs(x as int),
{
    if x < 0 {
        -x
    } else {
        x
    }
}

/// Decides `normals_aligned` for two exactly computed normals whose floor
/// lengths have already been taken.
fn aligned_check(n1: &W3, n2: &W3, s1: u64, s2: u64, tolerance: i128) -> (r: bool)
    requires
        n1@.bounded(NORMAL_LIMIT as int),
        n2@.bounded(NORMAL_LIMIT as int),
        is_sqrt_floor(n1@.norm2(), s1 as int),
        is_sqrt_floor(n2@.norm2(), s2 as int),
        s1 as int == sqrt_floor(n1@.norm2()),
        s2 as int == sqrt_floor(n2@.norm2()),
        0 <= tolerance <= MAX_TOLERANCE,
    ensures
        r == normals_aligned(n1@, n2@, tolerance as int),
{
    proof {
        lemma_cross_bounds(n1@, n2@, 1_280_000_000_000, 1_280_000_000_000);
        lemma_dot_bounds(n1@, n1@, 1_280_000_000_000, 1_280_000_000_000);
        lemma_dot_bounds(n2@, n2@, 1_280_000_000_000, 1_280_000_000_000);
        lemma_sqrt_le(n1@.norm2(), s1 as int, 2_300_000_000_000);
        lemma_sqrt_le(n2@.norm2(), s2 as int, 2_300_000_000_000);
        lemma_mul_bound(tolerance as int, s1 as int, 10_000_000_000_000, 2_300_000_000_000);
        lemma_mul_bound(
            tolerance as int * s1 as int,
            s2 as int,
            23_000_000_000_000_000_000_000_000,
            2_300_000_000_000,
        );
    }
    let c = cross3(n1, n2);
    let rhs = tolerance * (s1 as i128) * (s2 as i128);
    let ax = abs128(c.x);
    let ay = abs128(c.y);
    let az = abs128(c.z);
    proof {
        lemma_mul_bound(ax as int, TOLERANCE_DENOMINATOR as int, 3_276_800_000_000_000_000_000_000, 1_048_576);
        lemma_mul_bound(ay as int, TOLERANCE_DENOMINATOR as int, 3_276_800_000_000_000_000_000_000, 1_048_576);
        lemma_mul_bound(az as int, TOLERANCE_DENOMINATOR as int, 3_276_800_000_000_000_000_000_000, 1_048_576);
    }
    let lx = ax * TOLERANCE_DENOMINATOR;
    let ly = ay * TOLERANCE_DENOMINATOR;
    let lz = az * TOLERANCE_DENOMINATOR;
    lx <= rhs && ly <= rhs && lz <= rhs
}

/// Computes the plane normal for vertex `i` together with its floor length.
fn normal_with_length(v1: &W3, vi: &W3) -> (r: (W3, u64))
    requires
        v1@.bounded(2 * COORD_LIMIT as int),
        vi@.bounded(2 * COORD_LIMIT as int),
    ensures
        r.0@ == v1@.cross(vi@),
        r.0@.bounded(NORMAL_LIMIT as int),
        is_sqrt_floor(r.0@.norm2(), r.1 as int),
        r.1 as int == sqrt_floor(r.0@.norm2()),
{
    proof {
        lemma_cross_bounds(v1@, vi@, 800_000, 800_000);
    }
    let n = cross3(v1, vi);
    proof {
        lemma_dot_bounds(n@, n@, 1_280_000_000_000, 1_280_000_000_000);
        assert(n@.norm2() >= 0) by (nonlinear_arith);
    }
    let nrm2 = dot3(&n, &n);
    let s = int_sqrt(nrm2 as u128);
    (n, s)
}

/// True when the loop's points all lie in one plane, within the given
/// relative tolerance (a rational `tolerance / TOLERANCE_DENOMINATOR`).
pub fn is_coplanar_with_tolerance(
    polygon: &Vec<usize>,
    positions: &Vec<Point3>,
    tolerance: i128,
) -> (r: bool)
    requires
        valid_polygon(polygon@, positions@),
        positions_in_limit(positions@),
        0 <= tolerance <= MAX_TOLERANCE,
    ensures
        r == coplanar_spec(polygon@, positions@, tolerance as int),
{
    let ghost ps = polygon@;
    let ghost qs = positions@;
    if polygon.len() < 3 {
        return false;
    }
    if polygon.len() == 3 {
        return true;
    }
    let n = polygon.len();
    let p0 = positions[polygon[0]];
    let p1 = positions[polygon[1]];
    let p2 = positions[polygon[2]];
    let v1 = diff(&p1, &p0);
    let v2 = diff(&p2, &p0);
    let (first, s_first) = normal_with_length(&v1, &v2);
    let mut prev = first;
    let mut s_prev = s_first;
    let mut i: usize = 3;
    while i < n
        invariant
            ps == polygon@,
            qs == positions@,
            n == ps.len(),
            4 <= n,
            valid_polygon(ps, qs),
            positions_in_limit(qs),
            p0@ == point_at(ps, qs, 0),
            v1@ == point_at(ps, qs, 1).minus(point_at(ps, qs, 0)),
            v1@.bounded(2 * COORD_LIMIT as int),
            3 <= i <= n,
            prev@ == loop_normal(ps, qs, i - 1),
            prev@.bounded(NORMAL_LIMIT as int),
            is_sqrt_floor(prev@.norm2(), s_prev as int),
            s_prev as int == sqrt_floor(prev@.norm2()),
            0 <= tolerance <= MAX_TOLERANCE,
            forall|j: int|
                2 <= j < i - 1 ==> normals_aligned(
                    #[trigger] loop_normal(ps, qs, j),
                    loop_normal(ps, qs, j + 1),
                    tolerance as int,
                ),
        decreases n - i,
    {
        let pi = positions[polygon[i]];
        let vi = diff(&pi, &p0);
        let (cur, s_cur) = normal_with_length(&v1, &vi);
        assert(cur@ == loop_normal(ps, qs, i as int));
        if !aligned_check(&prev, &cur, s_prev, s_cur, tolerance) {
            assert(2 <= i - 1 < ps.len() - 1 && !normals_aligned(
                loop_normal(ps, qs, i - 1),
                loop_normal(ps, qs, i - 1 + 1),
                tolerance as int,
            ));
            return false;
        }
        prev = cur;
        s_prev = s_cur;
        i = i + 1;
    }
    true
}

/// The loop's points all lie exactly in the plane `{ p : nrm . p == d }`.
pub open spec fn exactly_planar(
    polygon: Seq<usize>,
    positions: Seq<Point3>,
    nrm: V3,
    d: int,
) -> bool {
    forall|i: int|
        0 <= i < polygon.len() ==> nrm.dot(#[trigger] point_at(polygon, positions, i)) == d
}

/// Law: a loop of three or more points lying exactly in one plane (with a
/// nonzero normal) passes the coplanarity check at every nonnegative
/// tolerance.
pub proof fn lemma_exactly_planar_coplanar(
    polygon: Seq<usize>,
    positions: Seq<Point3>,
    tolerance: int,
    nrm: V3,
    d: int,
)
    requires
        3 <= polygon.len(),
        0 <= tolerance,
        !nrm.is_zero(),
        exactly_planar(polygon, positions, nrm, d),
    ensures
        coplanar_spec(polygon, positions, tolerance),
{
    if polygon.len() > 3 {
        assert forall|i: int|
            2 <= i < polygon.len() - 1 implies normals_aligned(
            #[trigger] loop_normal(polygon, positions, i),
            loop_normal(polygon, positions, i + 1),
            tolerance,
        ) by {
            let p0 = point_at(polygon, positions, 0);
            let p1 = point_at(polygon, positions, 1);
            let pi = point_at(polygon, positions, i);
            let pj = point_at(polygon, positions, i + 1);
            let v1 = p1.minus(p0);
            let vi = pi.minus(p0);
            let vj = pj.minus(p0);
            crate::vec3::lemma_dot_minus(nrm, p1, p0);
            crate::vec3::lemma_dot_minus(nrm, pi, p0);
            crate::vec3::lemma_dot_minus(nrm, pj, p0);
            crate::vec3::lemma_dot_commute(v1, nrm);
            crate::vec3::lemma_dot_commute(vi, nrm);
            crate::vec3::lemma_dot_commute(vj, nrm);
            crate::vec3::lemma_det_zero(v1, vi, vj, nrm);
            crate::vec3::lemma_cross_cross_shared(v1, vi, vj);
            let ni = loop_normal(polygon, positions, i);
            let nj = loop_normal(polygon, positions, i + 1);
            assert(ni == v1.cross(vi));
            assert(nj == v1.cross(vj));
            assert(ni.cross(nj) == v1.scale(0));
            assert(ni.cross(nj).is_zero());
            crate::vec3::lemma_norm2_nonneg(ni);
            crate::vec3::lemma_norm2_nonneg(nj);
            crate::isqrt::lemma_sqrt_floor_exists(ni.norm2());
            crate::isqrt::lemma_sqrt_floor_exists(nj.norm2());
            let s1 = sqrt_floor(ni.norm2());
            let s2 = sqrt_floor(nj.norm2());
            assert(0 <= tolerance * s1 * s2) by (nonlinear_arith)
                requires
                    0 <= tolerance,
                    0 <= s1,
                    0 <= s2,
            ;
        }
    }
}

/// Law: reversing the traversal order cannot change the verdict on exactly
/// planar points — the loop and its reverse are both judged coplanar, at
/// every nonnegative tolerance.
pub proof fn lemma_coplanar_reverse_invariant(
    polygon: Seq<usize>,
    positions: Seq<Point3>,
    tolerance: int,
    nrm: V3,
    d: int,
)
    requires
        3 <= polygon.len(),
        0 <= tolerance,
        !nrm.is_zero(),
        exactly_planar(polygon, positions, nrm, d),
    ensures
        coplanar_spec(polygon, positions, tolerance),
        coplanar_spec(polygon.reverse(), positions, tolerance),
        coplanar_spec(polygon, positions, tolerance) == coplanar_spec(
            polygon.reverse(),
            positions,
            tolerance,
        ),
{
    lemma_exactly_planar_coplanar(polygon, positions, tolerance, nrm, d);
    assert forall|i: int|
        0 <= i < polygon.reverse().len() implies nrm.dot(
        #[trigger] point_at(polygon.reverse(), positions, i),
    ) == d by {
        assert(polygon.reverse()[i] == polygon[polygon.len() - 1 - i]);
        assert(nrm.dot(point_at(polygon, positions, polygon.len() - 1 - i)) == d);
    }
    lemma_exactly_planar_coplanar(polygon.reverse(), positions, tolerance, nrm, d);
}

/// Law: a four-vertex loop is judged coplanar exactly when its two plane
/// normals are aligned within the tolerance — the fourth point is accepted
/// if and only if its deviation from the plane of the first three stays
/// within the relative tolerance.
pub proof fn lemma_four_loop_verdict(polygon: Seq<usize>, positions: Seq<Point3>, tolerance: int)
    requires
        polygon.len() == 4,
    ensures
        coplanar_spec(polygon, positions, tolerance) == normals_aligned(
            loop_normal(polygon, positions, 2),
            loop_normal(polygon, positions, 3),
            tolerance,
        ),
{
    if normals_aligned(
        loop_normal(polygon, positions, 2),
        loop_normal(polygon, positions, 3),
        tolerance,
    ) {
        assert forall|i: int|
            2 <= i < polygon.len() - 1 implies normals_aligned(
            #[trigger] loop_normal(polygon, positions, i),
            loop_normal(polygon, positions, i + 1),
            tolerance,
        ) by {
            assert(i == 2);
        }
        assert(coplanar_spec(polygon, positions, tolerance));
    }
}

/// The coplanarity check with the default tolerance.
pub fn is_coplanar(polygon: &Vec<usize>, positions: &Vec<Point3>) -> (r: bool)
    requires
        valid_polygon(polygon@, positions@),
        positions_in_limit(positions@),
    ensures
        r == coplanar_spec(polygon@, positions@, DEFAULT_COPLANAR_TOLERANCE as int),
{
    is_coplanar_with_tolerance(polygon, positions, DEFAULT_COPLANAR_TOLERANCE)
}

} // verus!
