//! Ear-clipping triangulation.
//!
//! The engine walks a circular ring of positions into the projected 2D
//! outline.  The front three positions form a candidate ear; a negative
//! orientation or a remaining point strictly inside the candidate rotates
//! the ring by one, otherwise the middle position is clipped and the
//! triangle emitted.  A pass is bounded by the square of the ring size; if
//! the forward pass stalls the whole clip is retried on the reversed ring,
//! and if that stalls too the call gives up and reports failure rather than
//! returning a partial triangle set.

use vstd::prelude::*;

use crate::coplanar::coplanar_spec;
use crate::coplanar::positions_in_limit;
use crate::coplanar::valid_polygon;
use crate::coplanar::DEFAULT_COPLANAR_TOLERANCE;
use crate::coplanar::is_coplanar_with_tolerance;
use crate::coplanar::MAX_TOLERANCE;
use crate::project::cross_2d;
use crate::project::point2_views;
use crate::project::projection_views;
use crate::project::project_to_2d;
use crate::project::Point2;
use crate::project::V2;
use crate::vec3::lemma_mul_bound;
use crate::vec3::Point3;

verus! {

/// A triangle as three indices into the caller's point buffer.
#[derive(Clone, Copy, Debug, PartialEq, Eq, Structural)]
pub struct Triangle {
    pub a: usize,
    pub b: usize,
    pub c: usize,
}

/// `v` occurs in the ring.
pub open spec fn in_ring(r: Seq<usize>, v: usize) -> bool {
    exists|k: int| 0 <= k < r.len() && r[k] == v
}

/// The ring holds distinct positions, all below `n`.
pub open spec fn ring_ok(r: Seq<usize>, n: int) -> bool {
    (forall|k: int| 0 <= k < r.len() ==> (#[trigger] r[k]) < n) && (forall|k1: int, k2: int|
        0 <= k1 < k2 < r.len() ==> r[k1] != r[k2])
}

/// The triangle's three entries are distinct and all below `n`.
pub open spec fn tri_ok(t: Triangle, n: int) -> bool {
    (t.a as int) < n && (t.b as int) < n && (t.c as int) < n && t.a != t.b && t.b != t.c && t.a
        != t.c
}

/// The triangle has `v` as one of its corners.
pub open spec fn tri_uses(t: Triangle, v: usize) -> bool {
    t.a == v || t.b == v || t.c == v
}

/// Some triangle of the set has `v` as a corner.
pub open spec fn used_in(ts: Seq<Triangle>, v: usize) -> bool {
    exists|k: int| 0 <= k < ts.len() && tri_uses(#[trigger] ts[k], v)
}

/// Every position below `n` is either still in the ring or already a corner
/// of an emitted triangle.
pub open spec fn vertices_accounted(r: Seq<usize>, ts: Seq<Triangle>, n: int) -> bool {
    forall|v: usize|
        #![trigger in_ring(r, v)]
        #![trigger used_in(ts, v)]
        (v as int) < n ==> in_ring(r, v) || used_in(ts, v)
}

/// The triangle has both `a` and `b` as corners.
pub open spec fn tri_uses_edge(t: Triangle, a: usize, b: usize) -> bool {
    tri_uses(t, a) && tri_uses(t, b)
}

/// How many triangles of the set have both `a` and `b` as corners.
pub open spec fn edge_count(ts: Seq<Triangle>, a: usize, b: usize) -> int
    decreases ts.len(),
{
    if ts.len() == 0 {
        0
    } else {
        edge_count(ts.drop_last(), a, b) + if tri_uses_edge(ts.last(), a, b) {
            1int
        } else {
            0int
        }
    }
}

/// `b` immediately follows `a` somewhere on the (circular) ring.
pub open spec fn ring_adjacent(r: Seq<usize>, a: usize, b: usize) -> bool {
    exists|k: int|
        0 <= k < r.len() && #[trigger] r[k] == a && r[(k + 1) % (r.len() as int)] == b
}

/// `a` and `b` are circular neighbours on the ring, in either direction.
pub open spec fn ring_edge(r: Seq<usize>, a: usize, b: usize) -> bool {
    ring_adjacent(r, a, b) || ring_adjacent(r, b, a)
}

/// The bookkeeping of one boundary edge: while both of its endpoints are in
/// the ring they are neighbours there and no emitted triangle holds the
/// edge; once an endpoint has been clipped away, exactly one does.
pub open spec fn edge_state_ok(r: Seq<usize>, ts: Seq<Triangle>, a: usize, b: usize) -> bool {
    if in_ring(r, a) && in_ring(r, b) {
        ring_edge(r, a, b) && edge_count(ts, a, b) == 0
    } else {
        edge_count(ts, a, b) == 1
    }
}

/// Every boundary edge of the original `n`-gon is properly accounted for.
pub open spec fn boundary_edges_ok(r: Seq<usize>, ts: Seq<Triangle>, n: int) -> bool {
    forall|j: int|
        0 <= j < n ==> #[trigger] edge_state_ok(r, ts, j as usize, ((j + 1) % n) as usize)
}

/// `x` lies strictly inside the triangle `(o, p, q)`: strictly on the same
/// rotational side of all three edges.
pub open spec fn strictly_inside(o: V2, p: V2, q: V2, x: V2) -> bool {
    orient_spec(o, p, x) > 0 && orient_spec(p, q, x) > 0 && orient_spec(q, o, x) > 0
}

/// `v` was consumed as the clipped middle corner of one of the first `k`
/// triangles.
pub open spec fn consumed_before(ts: Seq<Triangle>, k: int, v: usize) -> bool {
    exists|k2: int| 0 <= k2 < k && (#[trigger] ts[k2]).b == v
}

/// Triangle `k` of the set was a valid ear when it was clipped: its corners
/// turn non-negatively in the projection `pp`, and no position that was
/// still unconsumed at that moment — other than its own corners — lies
/// strictly inside it.
pub open spec fn ear_ok(ts: Seq<Triangle>, k: int, pp: Seq<V2>, n: int) -> bool {
    let t = ts[k];
    orient_spec(pp[t.a as int], pp[t.b as int], pp[t.c as int]) >= 0 && forall|v: usize|
        (v as int) < n && !consumed_before(ts, k, v) && v != t.a && v != t.b && v != t.c
            ==> !strictly_inside(
            pp[t.a as int],
            pp[t.b as int],
            pp[t.c as int],
            (#[trigger] pp[v as int]),
        )
}

/// Every triangle of a clip except the final, untested one was a valid ear.
pub open spec fn ears_valid(ts: Seq<Triangle>, pp: Seq<V2>, n: int) -> bool {
    forall|k: int| 0 <= k < ts.len() - 1 ==> #[trigger] ear_ok(ts, k, pp, n)
}

/// The ring holds exactly the positions that no emitted triangle has
/// consumed.
pub open spec fn ring_unconsumed(r: Seq<usize>, ts: Seq<Triangle>, n: int) -> bool {
    forall|v: usize|
        #![trigger in_ring(r, v)]
        #![trigger consumed_before(ts, ts.len() as int, v)]
        (v as int) < n ==> (in_ring(r, v) <==> !consumed_before(ts, ts.len() as int, v))
}

/// The one-element triangle sequence `[(a, b, c)]`.
pub open spec fn single_triangle(a: usize, b: usize, c: usize) -> Seq<Triangle> {
    seq![Triangle { a: a, b: b, c: c }]
}

/// The front three ring positions form a valid ear of the projection `pp`:
/// non-negative orientation, and no later ring position strictly inside.
pub open spec fn is_ear_at(pp: Seq<V2>, r: Seq<usize>) -> bool {
    let o = pp[r[0] as int];
    let p = pp[r[1] as int];
    let q = pp[r[2] as int];
    orient_spec(o, p, q) >= 0 && forall|m: int|
        3 <= m < r.len() ==> !strictly_inside(o, p, q, pp[(#[trigger] r[m]) as int])
}

/// One traversal pass of the bounded ear-clipping loop, step for step: the
/// front three positions are examined; a valid ear is clipped (the middle
/// one leaves the ring), any other candidate rotates the ring by one; the
/// pass gives up after a full fruitless round over an unshrunk ring or when
/// the total turn budget `nsq` is spent.
pub open spec fn clip_loop_spec(
    pp: Seq<V2>,
    r: Seq<usize>,
    ts: Seq<Triangle>,
    turn: nat,
    nn: nat,
    nsq: nat,
) -> Option<Seq<Triangle>>
    decreases nsq + 1 - turn,
{
    if r.len() <= 3 {
        Some(ts.push(Triangle { a: r[0], b: r[1], c: r[2] }))
    } else if (turn + 1 > nn && r.len() == nn) || turn + 1 > nsq {
        None
    } else if is_ear_at(pp, r) {
        clip_loop_spec(
            pp,
            r.subrange(2, r.len() as int).push(r[0]),
            ts.push(Triangle { a: r[0], b: r[1], c: r[2] }),
            turn + 1,
            nn,
            nsq,
        )
    } else {
        clip_loop_spec(pp, r.subrange(1, r.len() as int).push(r[0]), ts, turn + 1, nn, nsq)
    }
}

/// The initial ring of a pass: positions in traversal order.
pub open spec fn initial_ring(n: int, reversed: bool) -> Seq<usize> {
    if reversed {
        Seq::new(n as nat, |i: int| (n - 1 - i) as usize)
    } else {
        identity_loop(n)
    }
}

/// What one pass of the engine returns on the projection `pp`.
pub open spec fn clip_pass_spec(pp: Seq<V2>, reversed: bool) -> Option<Seq<Triangle>> {
    clip_loop_spec(
        pp,
        initial_ring(pp.len() as int, reversed),
        Seq::<Triangle>::empty(),
        0,
        pp.len(),
        pp.len() * pp.len(),
    )
}

/// What the two-pass engine returns: the forward pass, or the reversed pass
/// where the forward one stalled.
pub open spec fn clip_ears_spec(pp: Seq<V2>) -> Option<Seq<Triangle>> {
    if clip_pass_spec(pp, false) is Some {
        clip_pass_spec(pp, false)
    } else {
        clip_pass_spec(pp, true)
    }
}

/// What a completed clip of an `n`-gon guarantees: `n - 2` triangles over
/// distinct positions below `n`, every position appearing in at least one
/// triangle, and every boundary edge of the `n`-gon appearing in exactly
/// one triangle.
pub open spec fn clip_result_ok(ts: Seq<Triangle>, n: int) -> bool {
    &&& ts.len() == n - 2
    &&& forall|k: int| 0 <= k < ts.len() ==> tri_ok(#[trigger] ts[k], n)
    &&& forall|v: usize| (v as int) < n ==> #[trigger] used_in(ts, v)
    &&& forall|j: int|
        0 <= j < n ==> #[trigger] edge_count(ts, j as usize, ((j + 1) % n) as usize) == 1
}

/// `v` occurs in the index list.
pub open spec fn in_list(s: Seq<usize>, v: usize) -> bool {
    exists|j: int| 0 <= j < s.len() && s[j] == v
}

/// All three corners of the triangle are values of the index list.
pub open spec fn tri_vertices_from(t: Triangle, polygon: Seq<usize>) -> bool {
    in_list(polygon, t.a) && in_list(polygon, t.b) && in_list(polygon, t.c)
}

/// A position triangle, re-mapped through the index list.
pub open spec fn remap_tri(polygon: Seq<usize>, t: Triangle) -> Triangle {
    Triangle {
        a: polygon[t.a as int],
        b: polygon[t.b as int],
        c: polygon[t.c as int],
    }
}

/// A whole clip result, re-mapped through the index list.
pub open spec fn remap(polygon: Seq<usize>, ps: Seq<Triangle>) -> Seq<Triangle> {
    Seq::new(ps.len(), |k: int| remap_tri(polygon, ps[k]))
}

/// The index loop holds no repeated value.
pub open spec fn loop_distinct(s: Seq<usize>) -> bool {
    forall|j1: int, j2: int| 0 <= j1 < j2 < s.len() ==> s[j1] != s[j2]
}

/// What a returned triangle set guarantees: it is a completed, ear-valid
/// clip of the loop's positions re-mapped through the loop.  So it holds
/// `len - 2` triangles whose corners are loop values, every loop vertex is
/// used by at least one triangle, each clipped triangle was a valid ear of
/// the 2D projection (non-negative orientation, no unconsumed position
/// strictly inside), and — when the loop has no repeated value — every
/// boundary edge of the polygon appears in exactly one triangle.  Opaque:
/// callers consume it through the lemmas that establish it.
#[verifier::opaque]
pub open spec fn triangulation_ok(
    ts: Seq<Triangle>,
    polygon: Seq<usize>,
    positions: Seq<Point3>,
) -> bool {
    &&& ts.len() == polygon.len() - 2
    &&& exists|ps: Seq<Triangle>|
        clip_result_ok(ps, polygon.len() as int) && ts == #[trigger] remap(polygon, ps)
            && ears_valid(ps, projection_views(polygon, positions), polygon.len() as int)
    &&& forall|k: int| 0 <= k < ts.len() ==> tri_vertices_from(#[trigger] ts[k], polygon)
    &&& forall|j: int| 0 <= j < polygon.len() ==> used_in(ts, #[trigger] polygon[j])
    &&& loop_distinct(polygon) ==> forall|j: int|
        0 <= j < polygon.len() ==> #[trigger] edge_count(
            ts,
            polygon[j],
            polygon[(j + 1) % (polygon.len() as int)],
        ) == 1
}

/// The whole triangulation as a function of its inputs: the rejection
/// gates, then the two-pass clip of the projection, re-mapped through the
/// loop.  Every entry point returns exactly this.  Opaque: callers relate
/// results by equality of the arguments, not by re-running the definition.
#[verifier::opaque]
pub open spec fn triangulate_spec(
    polygon: Seq<usize>,
    positions: Seq<Point3>,
    tolerance: int,
) -> Option<Seq<Triangle>> {
    if polygon.len() < 3 || !coplanar_spec(polygon, positions, tolerance) {
        None
    } else {
        match clip_ears_spec(projection_views(polygon, positions)) {
            Some(ps) => Some(remap(polygon, ps)),
            None => None,
        }
    }
}

/// The identity loop `0, 1, ..., n - 1`.
pub open spec fn identity_loop(n: int) -> Seq<usize> {
    Seq::new(n as nat, |i: int| i as usize)
}

/// Difference of two projected points, exact.
fn diff2(a: &Point2, b: &Point2) -> (r: Point2)
    requires
        a.in_projected_limit(),
        b.in_projected_limit(),
    ensures
        r@ == a@.minus(b@),
        -3_840_000_000_000 <= r@.x <= 3_840_000_000_000,
        -9_830_400_000_000_000_000_000_000 <= r@.y <= 9_830_400_000_000_000_000_000_000,
{
    Point2 { x: a.x - b.x, y: a.y - b.y }
}

/// The 2D orientation of `q` against `p`, both seen from `o`: positive when
/// the turn `o -> p -> q` is counter-clockwise.
pub open spec fn orient_spec(o: V2, p: V2, q: V2) -> int {
    p.minus(o).cross(q.minus(o))
}

/// Computes `orient_spec` on projected points.
fn orient2d(o: &Point2, p: &Point2, q: &Point2) -> (r: i128)
    requires
        o.in_projected_limit(),
        p.in_projected_limit(),
        q.in_projected_limit(),
    ensures
        r as int == orient_spec(o@, p@, q@),
{
    let u = diff2(p, o);
    let w = diff2(q, o);
    proof {
        lemma_mul_bound(u@.x, w@.y, 3_840_000_000_000, 9_830_400_000_000_000_000_000_000);
        lemma_mul_bound(u@.y, w@.x, 9_830_400_000_000_000_000_000_000, 3_840_000_000_000);
    }
    cross_2d(&u, &w)
}

/// Shape of the ring after a rotation: every element moves one slot towards
/// the front, the old front goes to the back.
proof fn lemma_rotate_shape(s0: Seq<usize>, s1: Seq<usize>)
    requires
        s0.len() >= 1,
        s1 == s0.remove(0).push(s0[0]),
    ensures
        s1.len() == s0.len(),
        forall|j: int| 0 <= j < s0.len() - 1 ==> #[trigger] s1[j] == s0[j + 1],
        s1[s0.len() - 1] == s0[0],
{
    s0.remove_ensures(0);
}

/// Shape of the ring after a clip: the first two elements leave, the rest
/// move two slots towards the front, the old front goes to the back.
proof fn lemma_clip_shape(s0: Seq<usize>, s1: Seq<usize>)
    requires
        s0.len() >= 2,
        s1 == s0.remove(0).remove(0).push(s0[0]),
    ensures
        s1.len() == s0.len() - 1,
        forall|j: int| 0 <= j < s0.len() - 2 ==> #[trigger] s1[j] == s0[j + 2],
        s1[s0.len() - 2] == s0[0],
{
    s0.remove_ensures(0);
    s0.remove(0).remove_ensures(0);
}

/// Appending a triangle raises an edge's count by one exactly when that
/// triangle holds the edge.
proof fn lemma_edge_count_push(ts: Seq<Triangle>, t: Triangle, a: usize, b: usize)
    ensures
        edge_count(ts.push(t), a, b) == edge_count(ts, a, b) + if tri_uses_edge(t, a, b) {
            1int
        } else {
            0int
        },
{
    assert(ts.push(t).drop_last() =~= ts);
    assert(ts.push(t).last() == t);
}

/// The successor of `j` around an `n`-gon is in range and differs from `j`.
proof fn lemma_next_differs(j: int, n: int)
    requires
        0 <= j < n,
        2 <= n,
    ensures
        0 <= (j + 1) % n < n,
        (j + 1) % n != j,
        j + 1 < n ==> (j + 1) % n == j + 1,
        j + 1 == n ==> (j + 1) % n == 0,
{
    if j + 1 < n {
        assert((j + 1) % n == j + 1) by (nonlinear_arith)
            requires
                0 <= j + 1 < n,
        ;
    } else {
        assert((j + 1) % n == 0) by (nonlinear_arith)
            requires
                j + 1 == n,
                1 <= n,
        ;
    }
}

/// Resolves the circular successor index `(k + 1) % ln`.
proof fn lemma_wrap(k: int, ln: int)
    requires
        1 <= ln,
        0 <= k < ln,
    ensures
        (k + 1) % ln == if k + 1 < ln {
            k + 1
        } else {
            0int
        },
{
    if k + 1 < ln {
        assert((k + 1) % ln == k + 1) by (nonlinear_arith)
            requires
                0 <= k + 1 < ln,
        ;
    } else {
        assert((k + 1) % ln == 0) by (nonlinear_arith)
            requires
                k + 1 == ln,
                1 <= ln,
        ;
    }
}

/// Rotating the ring keeps its circular adjacencies.
proof fn lemma_rotate_adjacent(s0: Seq<usize>, s1: Seq<usize>, a: usize, b: usize)
    requires
        s0.len() >= 2,
        s1 == s0.remove(0).push(s0[0]),
    ensures
        ring_adjacent(s1, a, b) == ring_adjacent(s0, a, b),
{
    lemma_rotate_shape(s0, s1);
    let ln = s0.len() as int;
    if ring_adjacent(s0, a, b) {
        let k = choose|k: int| 0 <= k < ln && #[trigger] s0[k] == a && s0[(k + 1) % ln] == b;
        lemma_wrap(k, ln);
        if k == 0 {
            lemma_wrap(ln - 1, ln);
            assert(s1[ln - 1] == a);
            assert(s1[(ln - 1 + 1) % ln] == b);
        } else {
            lemma_wrap(k - 1, ln);
            assert(s1[k - 1] == a);
            assert(s1[(k - 1 + 1) % ln] == b);
        }
        assert(ring_adjacent(s1, a, b));
    }
    if ring_adjacent(s1, a, b) {
        let j = choose|j: int| 0 <= j < ln && #[trigger] s1[j] == a && s1[(j + 1) % ln] == b;
        lemma_wrap(j, ln);
        if j == ln - 1 {
            lemma_wrap(0, ln);
            assert(s0[0] == a);
            assert(s0[(0int + 1) % ln] == b);
        } else if j == ln - 2 {
            lemma_wrap(ln - 1, ln);
            assert(s0[ln - 1] == a);
            assert(s0[(ln - 1 + 1) % ln] == b);
        } else {
            lemma_wrap(j + 1, ln);
            assert(s0[j + 1] == a);
            assert(s0[(j + 1 + 1) % ln] == b);
        }
        assert(ring_adjacent(s0, a, b));
    }
}

/// Ring membership is unchanged by a rotation.
proof fn lemma_rotate_membership(s0: Seq<usize>, s1: Seq<usize>, v: usize)
    requires
        s0.len() >= 1,
        s1 == s0.remove(0).push(s0[0]),
    ensures
        in_ring(s1, v) == in_ring(s0, v),
{
    lemma_rotate_shape(s0, s1);
    let ln = s0.len() as int;
    if in_ring(s0, v) {
        let k = choose|k: int| 0 <= k < ln && #[trigger] s0[k] == v;
        if k == 0 {
            assert(s1[ln - 1] == v);
        } else {
            assert(s1[k - 1] == v);
        }
    }
    if in_ring(s1, v) {
        let j = choose|j: int| 0 <= j < ln && #[trigger] s1[j] == v;
        if j == ln - 1 {
            assert(s0[0] == v);
        } else {
            assert(s0[j + 1] == v);
        }
    }
}

/// After a clip, membership loses exactly the removed middle vertex.
proof fn lemma_clip_membership(s0: Seq<usize>, s1: Seq<usize>, v: usize)
    requires
        s0.len() >= 3,
        s1 == s0.remove(0).remove(0).push(s0[0]),
        forall|k1: int, k2: int| 0 <= k1 < k2 < s0.len() ==> s0[k1] != s0[k2],
    ensures
        in_ring(s1, v) == (in_ring(s0, v) && v != s0[1]),
{
    lemma_clip_shape(s0, s1);
    let ln = s0.len() as int;
    if in_ring(s0, v) && v != s0[1] {
        let k = choose|k: int| 0 <= k < ln && #[trigger] s0[k] == v;
        if k == 0 {
            assert(s1[ln - 2] == v);
        } else {
            assert(k != 1);
            assert(s1[k - 2] == v);
        }
    }
    if in_ring(s1, v) {
        let j = choose|j: int| 0 <= j < ln - 1 && #[trigger] s1[j] == v;
        if j == ln - 2 {
            assert(s0[0] == v);
        } else {
            assert(s0[j + 2] == v);
        }
        assert(in_ring(s0, v));
        assert(v != s0[1]);
    }
}

/// A circular pair touching the ring's second element is one of the two
/// front pairs.
proof fn lemma_adjacent_to_front_mid(s0: Seq<usize>, a: usize, b: usize)
    requires
        s0.len() >= 4,
        forall|k1: int, k2: int| 0 <= k1 < k2 < s0.len() ==> s0[k1] != s0[k2],
        ring_adjacent(s0, a, b),
        a == s0[1] || b == s0[1],
    ensures
        (a == s0[0] && b == s0[1]) || (a == s0[1] && b == s0[2]),
{
    let ln = s0.len() as int;
    let k = choose|k: int| 0 <= k < ln && #[trigger] s0[k] == a && s0[(k + 1) % ln] == b;
    lemma_wrap(k, ln);
    if a == s0[1] {
        assert(k == 1);
    } else {
        assert((k + 1) % ln == 1);
        assert(k == 0);
    }
}

/// With four or more elements, the ring's front and third element are not
/// circular neighbours.
proof fn lemma_front_outer_not_adjacent(s0: Seq<usize>)
    requires
        s0.len() >= 4,
        forall|k1: int, k2: int| 0 <= k1 < k2 < s0.len() ==> s0[k1] != s0[k2],
    ensures
        !ring_adjacent(s0, s0[0], s0[2]),
        !ring_adjacent(s0, s0[2], s0[0]),
{
    let ln = s0.len() as int;
    if ring_adjacent(s0, s0[0], s0[2]) {
        let k = choose|k: int| 0 <= k < ln && #[trigger] s0[k] == s0[0] && s0[(k + 1) % ln] == s0[2];
        assert(k == 0);
        lemma_wrap(0, ln);
        assert(false);
    }
    if ring_adjacent(s0, s0[2], s0[0]) {
        let k = choose|k: int| 0 <= k < ln && #[trigger] s0[k] == s0[2] && s0[(k + 1) % ln] == s0[0];
        assert(k == 2);
        lemma_wrap(2, ln);
        assert(false);
    }
}

/// After a clip the circular adjacencies away from the removed vertex are
/// unchanged, apart from the new pair closing the gap.
proof fn lemma_clip_adjacent(s0: Seq<usize>, s1: Seq<usize>, a: usize, b: usize)
    requires
        s0.len() >= 4,
        s1 == s0.remove(0).remove(0).push(s0[0]),
        forall|k1: int, k2: int| 0 <= k1 < k2 < s0.len() ==> s0[k1] != s0[k2],
        a != s0[1],
        b != s0[1],
        !(a == s0[0] && b == s0[2]),
    ensures
        ring_adjacent(s1, a, b) == ring_adjacent(s0, a, b),
{
    lemma_clip_shape(s0, s1);
    let ln = s0.len() as int;
    let lm = ln - 1;
    if ring_adjacent(s0, a, b) {
        let k = choose|k: int| 0 <= k < ln && #[trigger] s0[k] == a && s0[(k + 1) % ln] == b;
        lemma_wrap(k, ln);
        assert(k != 1);
        if k == 0 {
            assert(false);
        } else if k < ln - 1 {
            lemma_wrap(k - 2, lm);
            assert(s1[k - 2] == a);
            assert(s1[(k - 2 + 1) % lm] == b);
        } else {
            lemma_wrap(ln - 3, lm);
            assert(s1[ln - 3] == a);
            assert(s1[(ln - 3 + 1) % lm] == b);
        }
        assert(ring_adjacent(s1, a, b));
    }
    if ring_adjacent(s1, a, b) {
        let j = choose|j: int| 0 <= j < lm && #[trigger] s1[j] == a && s1[(j + 1) % lm] == b;
        lemma_wrap(j, lm);
        if j == lm - 1 {
            assert(s1[j] == s0[0] && s1[(j + 1) % lm] == s1[0]);
            assert(a == s0[0] && b == s0[2]);
            assert(false);
        } else if j == lm - 2 {
            lemma_wrap(ln - 1, ln);
            assert(s0[ln - 1] == a);
            assert(s0[(ln - 1 + 1) % ln] == b);
        } else {
            lemma_wrap(j + 2, ln);
            assert(s0[j + 2] == a);
            assert(s0[(j + 2 + 1) % ln] == b);
        }
        assert(ring_adjacent(s0, a, b));
    }
}

/// Re-mapping through a loop without repeated values preserves an edge's
/// count.
proof fn lemma_edge_count_remap(polygon: Seq<usize>, ps: Seq<Triangle>, a: usize, b: usize)
    requires
        loop_distinct(polygon),
        forall|k: int| 0 <= k < ps.len() ==> tri_ok(#[trigger] ps[k], polygon.len() as int),
        (a as int) < polygon.len(),
        (b as int) < polygon.len(),
    ensures
        edge_count(remap(polygon, ps), polygon[a as int], polygon[b as int]) == edge_count(
            ps,
            a,
            b,
        ),
    decreases ps.len(),
{
    let rs = remap(polygon, ps);
    if ps.len() == 0 {
        assert(rs.len() == 0);
    } else {
        lemma_edge_count_remap(polygon, ps.drop_last(), a, b);
        assert(rs.drop_last() =~= remap(polygon, ps.drop_last()));
        let t = ps.last();
        let rt = rs.last();
        assert(tri_ok(ps[ps.len() - 1], polygon.len() as int));
        assert(rt == remap_tri(polygon, t));
        assert(tri_uses(rt, polygon[a as int]) == tri_uses(t, a));
        assert(tri_uses(rt, polygon[b as int]) == tri_uses(t, b));
    }
}

/// A past valid ear stays valid when one more triangle is appended.
proof fn lemma_ear_ok_push(ts: Seq<Triangle>, t: Triangle, k: int, pp: Seq<V2>, n: int)
    requires
        0 <= k < ts.len(),
        ear_ok(ts, k, pp, n),
    ensures
        ear_ok(ts.push(t), k, pp, n),
{
    let ts2 = ts.push(t);
    let tk = ts2[k];
    assert(tk == ts[k]);
    assert forall|v: usize|
        (v as int) < n && !consumed_before(ts2, k, v) && v != tk.a && v != tk.b && v
            != tk.c implies !strictly_inside(
        pp[tk.a as int],
        pp[tk.b as int],
        pp[tk.c as int],
        (pp[v as int]),
    ) by {
        assert(!consumed_before(ts, k, v)) by {
            if consumed_before(ts, k, v) {
                let k2 = choose|k2: int| 0 <= k2 < k && (#[trigger] ts[k2]).b == v;
                assert(ts2[k2].b == v);
            }
        }
    }
}

/// One bounded ear-clipping pass over the ring, forward or reversed.
#[verifier::loop_isolation(false)]
#[verifier::rlimit(60)]
fn clip_pass(poly2d: &Vec<Point2>, reversed: bool) -> (r: Option<Vec<Triangle>>)
    requires
        poly2d@.len() >= 3,
        forall|i: int| 0 <= i < poly2d@.len() ==> (#[trigger] poly2d@[i]).in_projected_limit(),
    ensures
        r matches Some(ts) ==> clip_result_ok(ts@, poly2d@.len() as int),
        r matches Some(ts) ==> ears_valid(ts@, point2_views(poly2d@), poly2d@.len() as int),
        poly2d@.len() == 3 && !reversed ==> (r matches Some(ts) && ts@ == single_triangle(
            0,
            1,
            2,
        )),
        poly2d@.len() == 3 ==> r is Some,
        r matches Some(ts) ==> clip_pass_spec(point2_views(poly2d@), reversed) == Some(ts@),
        r is None ==> clip_pass_spec(point2_views(poly2d@), reversed) is None,
{
    let n = poly2d.len();
    let ghost pp = point2_views(poly2d@);
    let mut ring: Vec<usize> = Vec::new();
    let mut i: usize = 0;
    if !reversed {
        while i < n
            invariant
                0 <= i <= n,
                ring@.len() == i,
                forall|j: int| 0 <= j < i ==> #[trigger] ring@[j] == j,
            decreases n - i,
        {
            ring.push(i);
            i = i + 1;
        }
    } else {
        while i < n
            invariant
                0 <= i <= n,
                ring@.len() == i,
                forall|j: int| 0 <= j < i ==> #[trigger] ring@[j] == (n - 1 - j) as usize,
            decreases n - i,
        {
            ring.push(n - 1 - i);
            i = i + 1;
        }
    }
    proof {
        assert forall|v: usize| (v as int) < n as int implies in_ring(ring@, v) || used_in(
            Seq::<Triangle>::empty(),
            v,
        ) by {
            if reversed {
                assert(ring@[n - 1 - v as int] == v);
            } else {
                assert(ring@[v as int] == v);
            }
        }
    }
    let mut tris: Vec<Triangle> = Vec::new();
    proof {
        assert forall|j: int| 0 <= j < n as int implies #[trigger] edge_state_ok(
            ring@,
            tris@,
            j as usize,
            ((j + 1) % (n as int)) as usize,
        ) by {
            let ln = n as int;
            lemma_next_differs(j, ln);
            let a = j as usize;
            let b = ((j + 1) % ln) as usize;
            if !reversed {
                assert(ring@[j] == a);
                assert(ring@[(j + 1) % ln] == b);
                lemma_wrap(j, ln);
                assert(ring_adjacent(ring@, a, b));
            } else {
                assert(ring@[ln - 1 - j] == a);
                let kb = ln - 1 - ((j + 1) % ln);
                assert(ring@[kb] == b);
                lemma_wrap(kb, ln);
                if j + 1 < ln {
                    assert(ring@[kb + 1] == a);
                } else {
                    assert(ring@[0] == a);
                }
                assert(ring_adjacent(ring@, b, a));
            }
            assert(in_ring(ring@, a) && in_ring(ring@, b));
            assert(edge_count(tris@, a, b) == 0);
        }
        assert forall|v: usize| (v as int) < n as int implies (in_ring(ring@, v)
            && !consumed_before(tris@, tris@.len() as int, v)) by {
            if reversed {
                assert(ring@[n - 1 - v as int] == v);
            } else {
                assert(ring@[v as int] == v);
            }
        }
    }
    let nn: u128 = n as u128;
    proof {
        lemma_mul_bound(nn as int, nn as int, 0xffff_ffff_ffff_ffff, 0xffff_ffff_ffff_ffff);
    }
    let nsq: u128 = nn * nn;
    let mut turn: u128 = 0;
    proof {
        assert(pp.len() == n as nat);
        assert(ring@ =~= initial_ring(n as int, reversed));
        assert(clip_loop_spec(pp, ring@, tris@, turn as nat, n as nat, nsq as nat)
            == clip_pass_spec(pp, reversed));
    }
    while ring.len() > 3
        invariant
            3 <= ring@.len(),
            ring@.len() + tris@.len() == n as int,
            ring_ok(ring@, n as int),
            forall|k: int| 0 <= k < tris@.len() ==> tri_ok(#[trigger] tris@[k], n as int),
            vertices_accounted(ring@, tris@, n as int),
            boundary_edges_ok(ring@, tris@, n as int),
            ring_unconsumed(ring@, tris@, n as int),
            forall|k: int| 0 <= k < tris@.len() ==> #[trigger] ear_ok(tris@, k, pp, n as int),
            n as int == 3 ==> tris@.len() == 0 && (!reversed ==> ring@[0] == 0 && ring@[1] == 1
                && ring@[2] == 2),
            clip_loop_spec(pp, ring@, tris@, turn as nat, n as nat, nsq as nat) == clip_pass_spec(
                pp,
                reversed,
            ),
            turn <= nsq,
        decreases nsq as int + 1 - turn as int,
    {
        let ghost turn0 = turn;
        turn = turn + 1;
        if turn > nn && ring.len() == n {
            // A whole round brought no clip: this traversal direction stalls.
            proof {
                assert(clip_loop_spec(pp, ring@, tris@, turn0 as nat, n as nat, nsq as nat)
                    is None);
            }
            return None;
        }
        if turn > nsq {
            // Safety valve against degenerate configurations.
            proof {
                assert(clip_loop_spec(pp, ring@, tris@, turn0 as nat, n as nat, nsq as nat)
                    is None);
            }
            return None;
        }
        let ghost r0 = ring@;
        let ghost ts0 = tris@;
        let i0 = ring[0];
        let i1 = ring[1];
        let i2 = ring[2];
        let x0 = poly2d[i0];
        let x1 = poly2d[i1];
        let x2 = poly2d[i2];
        let cr = orient2d(&x0, &x1, &x2);
        let mut ear = cr >= 0;
        if ear {
            // A remaining point strictly inside the candidate forbids the clip.
            let mut k: usize = 3;
            while k < ring.len()
                invariant
                    3 <= k <= ring@.len(),
                    ear == (cr >= 0 && (forall|m: int|
                        3 <= m < k ==> !strictly_inside(
                            pp[i0 as int],
                            pp[i1 as int],
                            pp[i2 as int],
                            (#[trigger] pp[r0[m] as int]),
                        ))),
                decreases ring@.len() - k,
            {
                let pt = poly2d[ring[k]];
                let c0 = orient2d(&x0, &x1, &pt);
                let c1 = orient2d(&x1, &x2, &pt);
                let c2 = orient2d(&x2, &x0, &pt);
                proof {
                    assert(pp[i0 as int] == x0@ && pp[i1 as int] == x1@ && pp[i2 as int] == x2@);
                    assert(pp[r0[k as int] as int] == pt@);
                }
                if c0 > 0 && c1 > 0 && c2 > 0 {
                    ear = false;
                }
                k = k + 1;
            }
        }
        proof {
            assert(pp[i0 as int] == x0@ && pp[i1 as int] == x1@ && pp[i2 as int] == x2@);
            assert(ear == is_ear_at(pp, r0));
        }
        if ear {
            let t = Triangle { a: i0, b: i1, c: i2 };
            tris.push(t);
            let _removed0: usize = ring.remove(0);
            let _removed1: usize = ring.remove(0);
            ring.push(i0);
            proof {
                lemma_clip_shape(r0, ring@);
                let ghost ln = r0.len() as int;
                assert forall|k1: int, k2: int| 0 <= k1 < k2 < ring@.len() implies ring@[k1]
                    != ring@[k2] by {
                    if k2 < ln - 2 {
                        assert(ring@[k1] == r0[k1 + 2] && ring@[k2] == r0[k2 + 2]);
                    } else {
                        assert(ring@[k1] == r0[k1 + 2] && ring@[k2] == r0[0]);
                    }
                }
                assert forall|v: usize| (v as int) < n as int implies in_ring(ring@, v)
                    || used_in(tris@, v) by {
                    if used_in(ts0, v) {
                        let k = choose|k: int| 0 <= k < ts0.len() && tri_uses(ts0[k], v);
                        assert(tris@[k] == ts0[k]);
                        assert(used_in(tris@, v));
                    } else {
                        assert(in_ring(r0, v));
                        let k = choose|k: int| 0 <= k < r0.len() && r0[k] == v;
                        if k == 0 {
                            assert(ring@[ln - 2] == v);
                        } else if k == 1 {
                            assert(tri_uses(t, v));
                            assert(tris@[ts0.len() as int] == t);
                            assert(used_in(tris@, v));
                        } else {
                            assert(ring@[k - 2] == v);
                        }
                    }
                }
                assert forall|j: int| 0 <= j < n as int implies #[trigger] edge_state_ok(
                    ring@,
                    tris@,
                    j as usize,
                    ((j + 1) % (n as int)) as usize,
                ) by {
                    let a = j as usize;
                    let b = ((j + 1) % (n as int)) as usize;
                    assert(edge_state_ok(r0, ts0, a, b));
                    lemma_next_differs(j, n as int);
                    lemma_edge_count_push(ts0, t, a, b);
                    lemma_clip_membership(r0, ring@, a);
                    lemma_clip_membership(r0, ring@, b);
                    assert(r0[0] == t.a && r0[1] == t.b && r0[2] == t.c);
                    if in_ring(r0, a) && in_ring(r0, b) {
                        if a == r0[1] || b == r0[1] {
                            if ring_adjacent(r0, a, b) {
                                lemma_adjacent_to_front_mid(r0, a, b);
                            } else {
                                lemma_adjacent_to_front_mid(r0, b, a);
                            }
                            assert(tri_uses_edge(t, a, b));
                            lemma_clip_membership(r0, ring@, r0[1]);
                            assert(edge_count(tris@, a, b) == 1);
                        } else {
                            lemma_front_outer_not_adjacent(r0);
                            assert(!(a == r0[0] && b == r0[2]));
                            assert(!(b == r0[0] && a == r0[2]));
                            lemma_clip_adjacent(r0, ring@, a, b);
                            lemma_clip_adjacent(r0, ring@, b, a);
                            assert(ring_edge(ring@, a, b));
                            assert(!tri_uses_edge(t, a, b));
                            assert(edge_count(tris@, a, b) == 0);
                        }
                    } else {
                        assert(edge_count(ts0, a, b) == 1);
                        if tri_uses_edge(t, a, b) {
                            assert(in_ring(r0, a));
                            assert(in_ring(r0, b));
                            assert(false);
                        }
                        assert(edge_count(tris@, a, b) == 1);
                    }
                }
                assert forall|v: usize| (v as int) < n as int implies (in_ring(ring@, v)
                    <==> !consumed_before(tris@, tris@.len() as int, v)) by {
                    lemma_clip_membership(r0, ring@, v);
                    assert(consumed_before(tris@, tris@.len() as int, v) == (consumed_before(
                        ts0,
                        ts0.len() as int,
                        v,
                    ) || v == t.b)) by {
                        if consumed_before(ts0, ts0.len() as int, v) {
                            let k2 = choose|k2: int|
                                0 <= k2 < ts0.len() && (#[trigger] ts0[k2]).b == v;
                            assert(tris@[k2].b == v);
                            assert(consumed_before(tris@, tris@.len() as int, v));
                        }
                        if v == t.b {
                            assert(tris@[ts0.len() as int].b == v);
                            assert(consumed_before(tris@, tris@.len() as int, v));
                        }
                        if consumed_before(tris@, tris@.len() as int, v) {
                            let k2 = choose|k2: int|
                                0 <= k2 < tris@.len() && (#[trigger] tris@[k2]).b == v;
                            if k2 < ts0.len() {
                                assert(ts0[k2].b == v);
                                assert(consumed_before(ts0, ts0.len() as int, v));
                            } else {
                                assert(tris@[k2] == t);
                            }
                        }
                    }
                }
                assert forall|k: int| 0 <= k < tris@.len() implies #[trigger] ear_ok(
                    tris@,
                    k,
                    pp,
                    n as int,
                ) by {
                    if k < ts0.len() {
                        lemma_ear_ok_push(ts0, t, k, pp, n as int);
                    } else {
                        assert(tris@[k] == t);
                        assert(pp[t.a as int] == x0@ && pp[t.b as int] == x1@ && pp[t.c as int]
                            == x2@);
                        assert(orient_spec(pp[t.a as int], pp[t.b as int], pp[t.c as int]) >= 0);
                        assert forall|v: usize|
                            (v as int) < n as int && !consumed_before(tris@, k, v) && v != t.a
                                && v != t.b && v != t.c implies !strictly_inside(
                            pp[t.a as int],
                            pp[t.b as int],
                            pp[t.c as int],
                            (pp[v as int]),
                        ) by {
                            assert(!consumed_before(ts0, ts0.len() as int, v)) by {
                                if consumed_before(ts0, ts0.len() as int, v) {
                                    let k2 = choose|k2: int|
                                        0 <= k2 < ts0.len() && (#[trigger] ts0[k2]).b == v;
                                    assert(tris@[k2].b == v);
                                    assert(consumed_before(tris@, k, v));
                                }
                            }
                            assert(in_ring(r0, v));
                            let m = choose|m: int| 0 <= m < r0.len() && #[trigger] r0[m] == v;
                            assert(r0[0] == t.a && r0[1] == t.b && r0[2] == t.c);
                            assert(m >= 3);
                            assert(!strictly_inside(
                                pp[i0 as int],
                                pp[i1 as int],
                                pp[i2 as int],
                                (pp[r0[m] as int]),
                            ));
                        }
                        assert(ear_ok(tris@, k, pp, n as int));
                    }
                }
                assert(ring@ =~= r0.subrange(2, r0.len() as int).push(r0[0]));
                assert(t == (Triangle { a: r0[0], b: r0[1], c: r0[2] }));
                assert(clip_loop_spec(pp, r0, ts0, turn0 as nat, n as nat, nsq as nat)
                    == clip_loop_spec(pp, ring@, tris@, turn as nat, n as nat, nsq as nat));
            }
        } else {
            let _removed0: usize = ring.remove(0);
            ring.push(i0);
            proof {
                lemma_rotate_shape(r0, ring@);
                let ghost ln = r0.len() as int;
                assert forall|k1: int, k2: int| 0 <= k1 < k2 < ring@.len() implies ring@[k1]
                    != ring@[k2] by {
                    if k2 < ln - 1 {
                        assert(ring@[k1] == r0[k1 + 1] && ring@[k2] == r0[k2 + 1]);
                    } else {
                        assert(ring@[k1] == r0[k1 + 1] && ring@[k2] == r0[0]);
                    }
                }
                assert forall|v: usize| (v as int) < n as int implies in_ring(ring@, v)
                    || used_in(tris@, v) by {
                    if in_ring(r0, v) {
                        let k = choose|k: int| 0 <= k < r0.len() && r0[k] == v;
                        if k == 0 {
                            assert(ring@[ln - 1] == v);
                        } else {
                            assert(ring@[k - 1] == v);
                        }
                    }
                }
                assert forall|j: int| 0 <= j < n as int implies #[trigger] edge_state_ok(
                    ring@,
                    tris@,
                    j as usize,
                    ((j + 1) % (n as int)) as usize,
                ) by {
                    let a = j as usize;
                    let b = ((j + 1) % (n as int)) as usize;
                    assert(edge_state_ok(r0, ts0, a, b));
                    lemma_rotate_membership(r0, ring@, a);
                    lemma_rotate_membership(r0, ring@, b);
                    lemma_rotate_adjacent(r0, ring@, a, b);
                    lemma_rotate_adjacent(r0, ring@, b, a);
                }
                assert forall|v: usize| (v as int) < n as int implies (in_ring(ring@, v)
                    <==> !consumed_before(tris@, tris@.len() as int, v)) by {
                    lemma_rotate_membership(r0, ring@, v);
                    assert(in_ring(r0, v) <==> !consumed_before(ts0, ts0.len() as int, v));
                }
                assert(ring@ =~= r0.subrange(1, r0.len() as int).push(r0[0]));
                assert(clip_loop_spec(pp, r0, ts0, turn0 as nat, n as nat, nsq as nat)
                    == clip_loop_spec(pp, ring@, tris@, turn as nat, n as nat, nsq as nat));
            }
        }
    }
    // Exactly three positions remain: they form the last triangle.
    let t = Triangle { a: ring[0], b: ring[1], c: ring[2] };
    let ghost ts0 = tris@;
    tris.push(t);
    proof {
        assert forall|v: usize| (v as int) < n as int implies used_in(tris@, v) by {
            if in_ring(ring@, v) {
                let k = choose|k: int| 0 <= k < ring@.len() && ring@[k] == v;
                assert(tri_uses(t, v));
                assert(tris@[tris@.len() - 1] == t);
                assert(used_in(tris@, v));
            } else {
                let k = choose|k: int| 0 <= k < ts0.len() && tri_uses(ts0[k], v);
                assert(tris@[k] == ts0[k]);
                assert(used_in(tris@, v));
            }
        }
        assert forall|j: int| 0 <= j < n as int implies #[trigger] edge_count(
            tris@,
            j as usize,
            ((j + 1) % (n as int)) as usize,
        ) == 1 by {
            let a = j as usize;
            let b = ((j + 1) % (n as int)) as usize;
            assert(edge_state_ok(ring@, ts0, a, b));
            lemma_next_differs(j, n as int);
            lemma_edge_count_push(ts0, t, a, b);
            assert(ring@[0] == t.a && ring@[1] == t.b && ring@[2] == t.c);
            if in_ring(ring@, a) && in_ring(ring@, b) {
                let ka = choose|k: int| 0 <= k < ring@.len() && ring@[k] == a;
                let kb = choose|k: int| 0 <= k < ring@.len() && ring@[k] == b;
                assert(tri_uses(t, a) && tri_uses(t, b));
                assert(edge_count(tris@, a, b) == 1);
            } else {
                assert(edge_count(ts0, a, b) == 1);
                if tri_uses_edge(t, a, b) {
                    assert(in_ring(ring@, a));
                    assert(in_ring(ring@, b));
                    assert(false);
                }
                assert(edge_count(tris@, a, b) == 1);
            }
        }
        assert forall|k: int| 0 <= k < tris@.len() - 1 implies #[trigger] ear_ok(
            tris@,
            k,
            pp,
            n as int,
        ) by {
            lemma_ear_ok_push(ts0, t, k, pp, n as int);
        }
        assert(ears_valid(tris@, pp, n as int));
        assert(clip_loop_spec(pp, ring@, ts0, turn as nat, n as nat, nsq as nat) == Some(tris@));
        if n == 3 {
            assert(tris@ =~= single_triangle(t.a, t.b, t.c));
            if !reversed {
                assert(tris@ == single_triangle(0, 1, 2));
            }
        }
    }
    Some(tris)
}

/// Clips the projected outline into `len - 2` triangles of positions,
/// retrying once on the reversed traversal order; `None` when both
/// directions stall on a degenerate configuration.
pub fn clip_ears(poly2d: &Vec<Point2>) -> (r: Option<Vec<Triangle>>)
    requires
        poly2d@.len() >= 3,
        forall|i: int| 0 <= i < poly2d@.len() ==> (#[trigger] poly2d@[i]).in_projected_limit(),
    ensures
        r matches Some(ts) ==> clip_result_ok(ts@, poly2d@.len() as int),
        r matches Some(ts) ==> ears_valid(ts@, point2_views(poly2d@), poly2d@.len() as int),
        poly2d@.len() == 3 ==> (r matches Some(ts) && ts@ == single_triangle(0, 1, 2)),
        r matches Some(ts) ==> clip_ears_spec(point2_views(poly2d@)) == Some(ts@),
        r is None ==> clip_ears_spec(point2_views(poly2d@)) is None,
{
    let forward = clip_pass(poly2d, false);
    match forward {
        Some(ts) => Some(ts),
        None => clip_pass(poly2d, true),
    }
}

/// Re-maps a clip's position triangles through the index loop.
#[verifier::loop_isolation(false)]
fn remap_triangles(index_list: &Vec<usize>, ps: &Vec<Triangle>) -> (out: Vec<Triangle>)
    requires
        forall|k: int| 0 <= k < ps@.len() ==> tri_ok(#[trigger] ps@[k], index_list@.len() as int),
    ensures
        out@ == remap(index_list@, ps@),
{
    let mut out: Vec<Triangle> = Vec::new();
    let mut k: usize = 0;
    while k < ps.len()
        invariant
            0 <= k <= ps@.len(),
            out@.len() == k,
            forall|j: int| 0 <= j < k ==> #[trigger] out@[j] == remap_tri(index_list@, ps@[j]),
        decreases ps@.len() - k,
    {
        let t = ps[k];
        out.push(Triangle { a: index_list[t.a], b: index_list[t.b], c: index_list[t.c] });
        k = k + 1;
    }
    proof {
        assert(out@ =~= remap(index_list@, ps@));
    }
    out
}

/// A completed, ear-valid clip re-mapped through the loop satisfies the
/// triangulation contract.
proof fn lemma_triangulation_from_clip(
    polygon: Seq<usize>,
    positions: Seq<Point3>,
    ps: Seq<Triangle>,
    ts: Seq<Triangle>,
)
    requires
        3 <= polygon.len() <= usize::MAX,
        clip_result_ok(ps, polygon.len() as int),
        ears_valid(ps, projection_views(polygon, positions), polygon.len() as int),
        ts == remap(polygon, ps),
    ensures
        triangulation_ok(ts, polygon, positions),
        polygon.len() == 3 && ps == single_triangle(0, 1, 2) ==> ts == single_triangle(
            polygon[0],
            polygon[1],
            polygon[2],
        ),
{
    reveal(triangulation_ok);
    let n = polygon.len() as int;
    assert forall|j: int| 0 <= j < ts.len() implies tri_vertices_from(
        #[trigger] ts[j],
        polygon,
    ) by {
        assert(tri_ok(ps[j], n));
        assert(ts[j] == remap_tri(polygon, ps[j]));
        assert(polygon[ps[j].a as int] == ts[j].a);
        assert(polygon[ps[j].b as int] == ts[j].b);
        assert(polygon[ps[j].c as int] == ts[j].c);
    }
    assert forall|j: int| 0 <= j < polygon.len() implies used_in(
        ts,
        #[trigger] polygon[j],
    ) by {
        let v = polygon[j];
        assert(used_in(ps, j as usize));
        let k2 = choose|k2: int| 0 <= k2 < ps.len() && tri_uses(ps[k2], j as usize);
        assert(tri_ok(ps[k2], n));
        assert(ts[k2] == remap_tri(polygon, ps[k2]));
        assert(polygon[(j as usize) as int] == v);
        assert(tri_uses(ts[k2], v));
    }
    if loop_distinct(polygon) {
        assert forall|j: int| 0 <= j < polygon.len() implies #[trigger] edge_count(
            ts,
            polygon[j],
            polygon[(j + 1) % (polygon.len() as int)],
        ) == 1 by {
            lemma_next_differs(j, n);
            let a = j as usize;
            let b = ((j + 1) % n) as usize;
            assert(edge_count(ps, a, b) == 1);
            lemma_edge_count_remap(polygon, ps, a, b);
        }
    }
    if polygon.len() == 3 && ps == single_triangle(0, 1, 2) {
        assert(ps[0] == (Triangle { a: 0, b: 1, c: 2 }));
        assert(ts[0] == remap_tri(polygon, ps[0]));
        assert(ts =~= single_triangle(polygon[0], polygon[1], polygon[2]));
    }
}

/// Triangulates the polygon traced by `index_list` through `point3d_list`
/// with the ear-clipping method, under a caller-chosen coplanarity
/// tolerance.  `None` when the loop has fewer than three vertices, when its
/// points are not coplanar under that tolerance, or when both clipping
/// passes stall; a three-vertex loop always succeeds with its one triangle,
/// corners in input order.
#[verifier::rlimit(30)]
pub fn triangularize_index_list_with_tolerance(
    index_list: &Vec<usize>,
    point3d_list: &Vec<Point3>,
    tolerance: i128,
) -> (r: Option<Vec<Triangle>>)
    requires
        valid_polygon(index_list@, point3d_list@),
        positions_in_limit(point3d_list@),
        0 <= tolerance <= MAX_TOLERANCE,
    ensures
        (index_list@.len() < 3 || !coplanar_spec(
            index_list@,
            point3d_list@,
            tolerance as int,
        )) ==> r is None,
        r matches Some(ts) ==> index_list@.len() >= 3 && coplanar_spec(
            index_list@,
            point3d_list@,
            tolerance as int,
        ) && triangulation_ok(ts@, index_list@, point3d_list@),
        index_list@.len() == 3 ==> (r matches Some(ts) && ts@ == single_triangle(
            index_list@[0],
            index_list@[1],
            index_list@[2],
        )),
        r matches Some(ts) ==> triangulate_spec(index_list@, point3d_list@, tolerance as int)
            == Some(ts@),
        r is None ==> triangulate_spec(index_list@, point3d_list@, tolerance as int) is None,
{
    proof {
        reveal(triangulate_spec);
    }
    if index_list.len() < 3 {
        return None;
    }
    if !is_coplanar_with_tolerance(index_list, point3d_list, tolerance) {
        return None;
    }
    let polygon_2d = project_to_2d(index_list, point3d_list);
    let clipped = clip_ears(&polygon_2d);
    let n = index_list.len();
    proof {
        assert(point2_views(polygon_2d@) == projection_views(index_list@, point3d_list@));
    }
    match clipped {
        None => {
            proof {
                assert(clip_ears_spec(projection_views(index_list@, point3d_list@)) is None);
            }
            None
        },
        Some(ps) => {
            let out = remap_triangles(index_list, &ps);
            proof {
                lemma_triangulation_from_clip(index_list@, point3d_list@, ps@, out@);
                assert(clip_ears_spec(projection_views(index_list@, point3d_list@)) == Some(
                    ps@,
                ));
                assert(triangulate_spec(index_list@, point3d_list@, tolerance as int) == Some(
                    out@,
                ));
            }
            Some(out)
        },
    }
}

/// Triangulation under the default coplanarity tolerance.
pub fn triangularize_index_list(index_list: &Vec<usize>, point3d_list: &Vec<Point3>) -> (r:
    Option<Vec<Triangle>>)
    requires
        valid_polygon(index_list@, point3d_list@),
        positions_in_limit(point3d_list@),
    ensures
        (index_list@.len() < 3 || !coplanar_spec(
            index_list@,
            point3d_list@,
            DEFAULT_COPLANAR_TOLERANCE as int,
        )) ==> r is None,
        r matches Some(ts) ==> index_list@.len() >= 3 && coplanar_spec(
            index_list@,
            point3d_list@,
            DEFAULT_COPLANAR_TOLERANCE as int,
        ) && triangulation_ok(ts@, index_list@, point3d_list@),
        index_list@.len() == 3 ==> (r matches Some(ts) && ts@ == single_triangle(
            index_list@[0],
            index_list@[1],
            index_list@[2],
        )),
        r matches Some(ts) ==> triangulate_spec(
            index_list@,
            point3d_list@,
            DEFAULT_COPLANAR_TOLERANCE as int,
        ) == Some(ts@),
        r is None ==> triangulate_spec(
            index_list@,
            point3d_list@,
            DEFAULT_COPLANAR_TOLERANCE as int,
        ) is None,
{
    triangularize_index_list_with_tolerance(
        index_list,
        point3d_list,
        DEFAULT_COPLANAR_TOLERANCE,
    )
}

/// Equal index loops give equal verdicts and equal triangulations — stated
/// so that a caller holding two spellings of one loop need not unfold the
/// predicates.
proof fn lemma_loop_equal_transfer(
    a: Seq<usize>,
    b: Seq<usize>,
    positions: Seq<Point3>,
    tolerance: int,
)
    requires
        a == b,
    ensures
        coplanar_spec(a, positions, tolerance) == coplanar_spec(b, positions, tolerance),
        triangulate_spec(a, positions, tolerance) == triangulate_spec(b, positions, tolerance),
        forall|ts: Seq<Triangle>| #[trigger] triangulation_ok(ts, a, positions)
            == triangulation_ok(ts, b, positions),
        a.len() >= 3 ==> single_triangle(a[0], a[1], a[2]) == single_triangle(b[0], b[1], b[2]),
{
}

/// Triangulates a polygon given directly as its point sequence, using the
/// implicit loop `0, 1, ..., len - 1`.
#[verifier::loop_isolation(false)]
#[verifier::rlimit(30)]
pub fn triangularize_polygon(v: &Vec<Point3>) -> (r: Option<Vec<Triangle>>)
    requires
        positions_in_limit(v@),
    ensures
        (v@.len() < 3 || !coplanar_spec(
            identity_loop(v@.len() as int),
            v@,
            DEFAULT_COPLANAR_TOLERANCE as int,
        )) ==> r is None,
        r matches Some(ts) ==> v@.len() >= 3 && coplanar_spec(
            identity_loop(v@.len() as int),
            v@,
            DEFAULT_COPLANAR_TOLERANCE as int,
        ) && triangulation_ok(ts@, identity_loop(v@.len() as int), v@),
        v@.len() == 3 ==> (r matches Some(ts) && ts@ == single_triangle(0, 1, 2)),
        r matches Some(ts) ==> triangulate_spec(
            identity_loop(v@.len() as int),
            v@,
            DEFAULT_COPLANAR_TOLERANCE as int,
        ) == Some(ts@),
        r is None ==> triangulate_spec(
            identity_loop(v@.len() as int),
            v@,
            DEFAULT_COPLANAR_TOLERANCE as int,
        ) is None,
{
    let n = v.len();
    let mut polygon_indexes: Vec<usize> = Vec::new();
    let mut i: usize = 0;
    while i < n
        invariant
            0 <= i <= n,
            polygon_indexes@.len() == i,
            forall|j: int| 0 <= j < i ==> #[trigger] polygon_indexes@[j] == j,
        decreases n - i,
    {
        polygon_indexes.push(i);
        i = i + 1;
    }
    proof {
        assert(polygon_indexes@ =~= identity_loop(n as int));
    }
    let r = triangularize_index_list(&polygon_indexes, v);
    proof {
        lemma_loop_equal_transfer(
            identity_loop(n as int),
            polygon_indexes@,
            v@,
            DEFAULT_COPLANAR_TOLERANCE as int,
        );
        if n == 3 {
            assert(polygon_indexes@[0] == 0 && polygon_indexes@[1] == 1 && polygon_indexes@[2]
                == 2);
            assert(single_triangle(polygon_indexes@[0], polygon_indexes@[1], polygon_indexes@[2])
                == single_triangle(0, 1, 2));
        }
    }
    r
}

} // verus!
