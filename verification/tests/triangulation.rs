//! End-to-end tests: coplanarity verdicts and ear-clipping triangulations on
//! concrete polygons.  Coordinates are written in the library's fixed-point
//! integer form; where a polygon is known from real-unit data, a scale is
//! noted next to it.

use rs_3d_polygon_to_triangles::coplanar::is_coplanar;
use rs_3d_polygon_to_triangles::coplanar::is_coplanar_with_tolerance;
use rs_3d_polygon_to_triangles::earclip::triangularize_index_list;
use rs_3d_polygon_to_triangles::earclip::triangularize_index_list_with_tolerance;
use rs_3d_polygon_to_triangles::earclip::triangularize_polygon;
use rs_3d_polygon_to_triangles::earclip::Triangle;
use rs_3d_polygon_to_triangles::vec3::Point3;

fn polygon_builder(v: Vec<(i64, i64, i64)>) -> (Vec<usize>, Vec<Point3>) {
    let all_pts: Vec<Point3> = v.iter().map(|&x| Point3::new(x.0, x.1, x.2)).collect();
    let polygon_indexes: Vec<usize> = (0..v.len()).collect();
    (polygon_indexes, all_pts)
}

fn test_coplanar(p: (Vec<usize>, Vec<Point3>), expectation: bool) {
    let res = is_coplanar(&p.0, &p.1);
    assert_eq!(res, expectation);
}

fn test_triangularized(p: (Vec<usize>, Vec<Point3>), size: usize) {
    let res = triangularize_index_list(&p.0, &p.1);
    assert_ne!(res, None);
    assert_eq!(res.unwrap().len(), size);
}

/// The unit square in the x = 0 plane, at scale 100000.
fn square_points() -> Vec<(i64, i64, i64)> {
    vec![(0, 0, 0), (0, 0, 100_000), (0, 100_000, 100_000), (0, 100_000, 0)]
}

/// An 18-vertex concave polygon lying (within rounding) in one plane, at
/// scale 10000.
fn concave_18gon_points() -> Vec<(i64, i64, i64)> {
    vec![
        (-50000, 20000, 0),
        (-20000, -5000, 20000),
        (-34378, -37627, 0),
        (2878, -60111, 26837),
        (-7173, -26136, 26113),
        (51237, -43215, 72429),
        (12302, -18561, 44653),
        (51911, -977, 82871),
        (52070, 12261, 86098),
        (47908, 25238, 85543),
        (43387, 37918, 84609),
        (22267, 29930, 64556),
        (14804, 16094, 54898),
        (9382, 6895, 48081),
        (15732, 59014, 65718),
        (-1686, 66597, 52487),
        (9130, -26988, 39954),
        (-45640, 46684, 9985),
    ]
}

#[test]
fn coplanar_square() {
    let p = polygon_builder(square_points());
    let expectation = true;
    test_coplanar(p, expectation);
}

#[test]
fn not_coplanar_square() {
    let p = polygon_builder(vec![
        (100_000, 0, 0),
        (0, 0, 100_000),
        (0, 100_000, 100_000),
        (0, 100_000, 0),
    ]);
    let expectation = false;
    test_coplanar(p, expectation);
}

/// Convex pentagon in the plane 0.8 y + z = 4 (real units), at scale 10.
#[test]
fn coplanar_convex_pentagon() {
    let p = polygon_builder(vec![(0, 0, 40), (40, 0, 40), (60, 25, 20), (40, 50, 0), (0, 50, 0)]);
    let expectation = true;
    test_coplanar(p, expectation);
}

/// Same plane as the convex pentagon with the third vertex pulled inwards,
/// making it reflex, at scale 10.
#[test]
fn coplanar_concave_pentagon() {
    let p = polygon_builder(vec![(0, 0, 40), (40, 0, 40), (20, 25, 20), (40, 50, 0), (0, 50, 0)]);
    let expectation = true;
    test_coplanar(p, expectation);
}

#[test]
fn coplanar_concave_18tagon() {
    let p = polygon_builder(concave_18gon_points());
    let expectation = true;
    test_coplanar(p, expectation);
}

/// The concave pentagon with its middle vertex lifted a whole unit off the
/// plane, at scale 10.
#[test]
fn non_coplanar_polygon() {
    let p = polygon_builder(vec![(0, 0, 40), (40, 0, 40), (20, 25, 30), (40, 50, 0), (0, 50, 0)]);
    let expectation = false;
    test_coplanar(p, expectation);
}

#[test]
fn square_to_triangles() {
    let p = polygon_builder(square_points());
    test_triangularized(p, 2);
}

#[test]
fn square_exact_triangles() {
    let p = polygon_builder(square_points());
    let res = triangularize_index_list(&p.0, &p.1).unwrap();
    assert_eq!(
        res,
        vec![Triangle { a: 0, b: 1, c: 2 }, Triangle { a: 2, b: 3, c: 0 }]
    );
}

#[test]
fn convex_pentagon_to_triangles() {
    let p = polygon_builder(vec![(0, 0, 40), (40, 0, 40), (60, 25, 20), (40, 50, 0), (0, 50, 0)]);
    let res = triangularize_index_list(&p.0, &p.1).unwrap();
    assert_eq!(res.len(), 3);
    assert_eq!(
        res,
        vec![
            Triangle { a: 0, b: 1, c: 2 },
            Triangle { a: 2, b: 3, c: 4 },
            Triangle { a: 4, b: 0, c: 2 },
        ]
    );
}

#[test]
fn concave_pentagon_to_triangles() {
    let p = polygon_builder(vec![(0, 0, 40), (40, 0, 40), (20, 25, 20), (40, 50, 0), (0, 50, 0)]);
    let res = triangularize_index_list(&p.0, &p.1).unwrap();
    assert_eq!(res.len(), 3);
}

#[test]
fn non_coplanar_polygon_has_no_triangulation() {
    let p = polygon_builder(vec![(0, 0, 40), (40, 0, 40), (20, 25, 30), (40, 50, 0), (0, 50, 0)]);
    assert_eq!(triangularize_index_list(&p.0, &p.1), None);
}

#[test]
fn concave_18tagon_to_triangles() {
    let pts: Vec<Point3> =
        concave_18gon_points().iter().map(|&x| Point3::new(x.0, x.1, x.2)).collect();
    let res = triangularize_polygon(&pts).unwrap();
    assert_eq!(res.len(), 16);
    // Every vertex of the polygon is used by some triangle.
    for v in 0..pts.len() {
        assert!(res.iter().any(|t| t.a == v || t.b == v || t.c == v));
    }
}

#[test]
fn concave_18tagon_reversed_to_triangles() {
    let mut pts: Vec<Point3> =
        concave_18gon_points().iter().map(|&x| Point3::new(x.0, x.1, x.2)).collect();
    pts.reverse();
    let res = triangularize_polygon(&pts).unwrap();
    assert_eq!(res.len(), 16);
}

#[test]
fn too_few_vertices() {
    let p = polygon_builder(vec![(0, 0, 0), (0, 0, 100_000)]);
    assert_eq!(is_coplanar(&p.0, &p.1), false);
    assert_eq!(triangularize_index_list(&p.0, &p.1), None);
    let pts: Vec<Point3> = vec![Point3::new(0, 0, 0), Point3::new(0, 0, 100_000)];
    assert_eq!(triangularize_polygon(&pts), None);
}

#[test]
fn three_points_are_coplanar() {
    let p = polygon_builder(vec![(0, 0, 0), (0, 0, 100_000), (17, 100_000, 99_000)]);
    assert_eq!(is_coplanar(&p.0, &p.1), true);
    let res = triangularize_index_list(&p.0, &p.1).unwrap();
    assert_eq!(res, vec![Triangle { a: 0, b: 1, c: 2 }]);
}

/// A fourth point lifted off the base plane by less than the default
/// tolerance (0.2% of the square's side) keeps the verdict coplanar.
#[test]
fn perturbed_within_tolerance() {
    let p = polygon_builder(vec![
        (0, 0, 0),
        (100_000, 0, 0),
        (100_000, 100_000, 0),
        (0, 100_000, 200),
    ]);
    test_coplanar(p, true);
}

/// Lifted by 4% of the side, well beyond the default tolerance, the verdict
/// flips to non-coplanar.
#[test]
fn perturbed_beyond_tolerance() {
    let p = polygon_builder(vec![
        (0, 0, 0),
        (100_000, 0, 0),
        (100_000, 100_000, 0),
        (0, 100_000, 4_000),
    ]);
    test_coplanar(p, false);
}

/// With a zero tolerance only exactly planar loops pass.
#[test]
fn zero_tolerance_is_exact() {
    let flat = polygon_builder(square_points());
    assert_eq!(is_coplanar_with_tolerance(&flat.0, &flat.1, 0), true);
    let bent = polygon_builder(vec![
        (0, 0, 0),
        (100_000, 0, 0),
        (100_000, 100_000, 0),
        (0, 100_000, 1),
    ]);
    assert_eq!(is_coplanar_with_tolerance(&bent.0, &bent.1, 0), false);
}

/// Reversing the traversal order of an exactly planar loop keeps the
/// coplanar verdict.
#[test]
fn reversed_loop_keeps_coplanar_verdict() {
    let (mut idx, pts) = polygon_builder(vec![
        (0, 0, 40),
        (40, 0, 40),
        (20, 25, 20),
        (40, 50, 0),
        (0, 50, 0),
    ]);
    assert_eq!(is_coplanar(&idx, &pts), true);
    idx.reverse();
    assert_eq!(is_coplanar(&idx, &pts), true);
}

/// Triangles reference the original 3D indices exactly: a loop that walks a
/// square through scattered buffer slots yields triangles over those very
/// slots.
#[test]
fn index_loop_remaps_to_original_indices() {
    let mut pts: Vec<Point3> = vec![Point3::new(7, 7, 7); 10];
    pts[3] = Point3::new(0, 0, 0);
    pts[1] = Point3::new(0, 0, 100_000);
    pts[4] = Point3::new(0, 100_000, 100_000);
    pts[6] = Point3::new(0, 100_000, 0);
    let index_list: Vec<usize> = vec![3, 1, 4, 6];
    let res = triangularize_index_list(&index_list, &pts).unwrap();
    assert_eq!(
        res,
        vec![Triangle { a: 3, b: 1, c: 4 }, Triangle { a: 4, b: 6, c: 3 }]
    );
}

/// Every boundary edge of the polygon shows up in exactly one triangle.
#[test]
fn boundary_edges_in_exactly_one_triangle() {
    let p = polygon_builder(concave_18gon_points());
    let n = p.0.len();
    let res = triangularize_index_list(&p.0, &p.1).unwrap();
    for j in 0..n {
        let a = j;
        let b = (j + 1) % n;
        let count = res
            .iter()
            .filter(|t| {
                (t.a == a || t.b == a || t.c == a) && (t.a == b || t.b == b || t.c == b)
            })
            .count();
        assert_eq!(count, 1, "edge ({}, {})", a, b);
    }
}

/// The triangulation tolerance is configurable: a slightly bent square is
/// rejected outright at zero tolerance and triangulated under the default.
#[test]
fn triangulation_tolerance_is_configurable() {
    let p = polygon_builder(vec![
        (0, 0, 0),
        (100_000, 0, 0),
        (100_000, 100_000, 0),
        (0, 100_000, 200),
    ]);
    assert_eq!(triangularize_index_list_with_tolerance(&p.0, &p.1, 0), None);
    let res = triangularize_index_list_with_tolerance(&p.0, &p.1, 4_096).unwrap();
    assert_eq!(
        res,
        vec![Triangle { a: 0, b: 1, c: 2 }, Triangle { a: 2, b: 3, c: 0 }]
    );
}

/// A three-vertex loop always succeeds, with its single triangle in input
/// order, whatever slots the loop walks through.
#[test]
fn three_vertex_loop_always_succeeds() {
    let mut pts: Vec<Point3> = vec![Point3::new(9, 9, 9); 8];
    pts[5] = Point3::new(0, 0, 0);
    pts[2] = Point3::new(70_000, 0, 0);
    pts[7] = Point3::new(0, 50_000, 120);
    let index_list: Vec<usize> = vec![5, 2, 7];
    let res = triangularize_index_list(&index_list, &pts).unwrap();
    assert_eq!(res, vec![Triangle { a: 5, b: 2, c: 7 }]);
}

/// The convenience entry over the implicit loop returns exactly what the
/// index-list entry returns on the identity loop.
#[test]
fn polygon_entry_equals_index_list_entry() {
    let p = polygon_builder(concave_18gon_points());
    let via_polygon = triangularize_polygon(&p.1);
    let via_index_list = triangularize_index_list(&p.0, &p.1);
    assert_eq!(via_polygon, via_index_list);
}
