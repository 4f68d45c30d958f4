use libslic3r_rs::geometry::{ExPolygon, Point, Point3, Polygon};
use libslic3r_rs::slices_to_triangle_mesh::{
    its_compactify_vertices, its_merge, its_merge_triangles, its_merge_vertices,
    its_remove_degenerate_faces, straight_walls, straight_walls_expolygon, straight_walls_polygon,
    wall_strip, IndexedTriangleSet,
};

fn p3(x: i64, y: i64, z: i64) -> Point3 {
    Point3::new(x, y, z)
}

#[test]
fn test_its_merge_offsets_indices() {
    let mut mesh1 = IndexedTriangleSet {
        vertices: vec![p3(0, 0, 0), p3(1_000_000, 0, 0)],
        indices: vec![[0, 1, 0]],
    };

    let mesh2 = IndexedTriangleSet { vertices: vec![p3(200_000, 0, 0)], indices: vec![[0, 0, 0]] };

    its_merge(&mut mesh1, &mesh2);

    assert_eq!(mesh1.vertices.len(), 3);
    assert_eq!(mesh1.indices.len(), 2);
    // Second mesh indices should be offset by 2.
    assert_eq!(mesh1.indices[1], [2, 2, 2]);
}

#[test]
fn test_wall_strip_quad() {
    // A 1 mm square; 1_000_000 scaled units per millimetre.
    let points = vec![
        Point::new(0, 0),
        Point::new(1_000_000, 0),
        Point::new(1_000_000, 1_000_000),
        Point::new(0, 1_000_000),
    ];
    let poly = Polygon::from_points(points);

    let mesh = wall_strip(&poly, 0, 1_000_000);

    // 8 vertices (4 lower + 4 upper).
    assert_eq!(mesh.vertices.len(), 8);
    // 8 triangles (2 per edge, 4 edges).
    assert_eq!(mesh.indices.len(), 8);

    for i in 0..4 {
        assert_eq!(mesh.vertices[i].z, 0);
        assert_eq!(mesh.vertices[i + 4].z, 1_000_000);
    }
}

#[test]
fn test_straight_walls_polygon() {
    let points = vec![Point::new(0, 0), Point::new(1_000_000, 0), Point::new(0, 1_000_000)];
    let poly = Polygon::from_points(points);

    let mesh = straight_walls_polygon(&poly, 0, 1_000_000);

    // Triangle has 3 vertices, so 6 total (lower + upper).
    assert_eq!(mesh.vertices.len(), 6);
    // 2 triangles per edge, 3 edges = 6 triangles.
    assert_eq!(mesh.indices.len(), 6);
}

#[test]
fn test_its_remove_degenerate_faces() {
    let mut its = IndexedTriangleSet {
        vertices: vec![p3(0, 0, 0), p3(1_000_000, 0, 0), p3(0, 1_000_000, 0)],
        indices: vec![[0, 1, 2], [0, 0, 2], [1, 1, 1]],
    };
    let removed = its_remove_degenerate_faces(&mut its);
    assert_eq!(removed, 2);
    assert_eq!(its.indices.len(), 1);
    assert_eq!(its.indices[0], [0, 1, 2]);
}

#[test]
fn test_its_merge_vertices_dedup() {
    // Two coincident vertices (index 0 and 2) get merged to the lowest index.
    let mut its = IndexedTriangleSet {
        vertices: vec![p3(0, 0, 0), p3(1_000_000, 0, 0), p3(0, 0, 0)],
        indices: vec![[0, 1, 2]],
    };
    let erased = its_merge_vertices(&mut its);
    assert_eq!(erased, 1);
    assert_eq!(its.vertices.len(), 2);
    // The duplicate (old index 2) should remap to vertex 0.
    assert_eq!(its.indices[0][2], its.indices[0][0]);
}

#[test]
fn wall_strip_faces_follow_the_ring() {
    let poly = Polygon::from_points(vec![Point::new(0, 0), Point::new(10, 0), Point::new(0, 10)]);
    let mesh = wall_strip(&poly, 5, 7);
    assert_eq!(
        mesh.indices,
        vec![[0, 1, 3], [1, 4, 3], [1, 2, 4], [2, 5, 4], [2, 0, 5], [0, 3, 5]]
    );
    assert_eq!(mesh.vertices[4], p3(10, 0, 7));
}

#[test]
fn merge_vertices_keeps_first_copies_in_order() {
    let p = p3(5, 5, 5);
    let q = p3(-1, 2, 3);
    let r = p3(5, 5, 6);
    let mut its = IndexedTriangleSet {
        vertices: vec![p, q, p, r, q],
        indices: vec![[4, 2, 3], [0, 1, 3]],
    };
    let erased = its_merge_vertices(&mut its);
    assert_eq!(erased, 2);
    assert_eq!(its.vertices, vec![p, q, r]);
    assert_eq!(its.indices, vec![[1, 0, 2], [0, 1, 2]]);
}

#[test]
fn merge_vertices_without_duplicates_changes_nothing() {
    let mut its = IndexedTriangleSet {
        vertices: vec![p3(0, 0, 0), p3(1, 0, 0), p3(0, 1, 0)],
        indices: vec![[2, 1, 0]],
    };
    assert_eq!(its_merge_vertices(&mut its), 0);
    assert_eq!(its.vertices.len(), 3);
    assert_eq!(its.indices, vec![[2, 1, 0]]);
}

#[test]
fn compactify_drops_unused_vertices() {
    let a = p3(0, 0, 0);
    let b = p3(1, 1, 1);
    let c = p3(2, 2, 2);
    let d = p3(3, 3, 3);
    let mut its = IndexedTriangleSet { vertices: vec![a, b, c, d], indices: vec![[0, 2, 3], [3, 2, 0]] };
    let removed = its_compactify_vertices(&mut its);
    assert_eq!(removed, 1);
    assert_eq!(its.vertices, vec![a, c, d]);
    assert_eq!(its.indices, vec![[0, 1, 2], [2, 1, 0]]);
}

#[test]
fn compactify_keeps_a_fully_used_set() {
    let mut its = IndexedTriangleSet {
        vertices: vec![p3(0, 0, 0), p3(1, 0, 0), p3(0, 1, 0)],
        indices: vec![[1, 2, 0]],
    };
    assert_eq!(its_compactify_vertices(&mut its), 0);
    assert_eq!(its.indices, vec![[1, 2, 0]]);
}

#[test]
fn merge_triangles_adds_a_face_per_three_vertices() {
    let mut its = IndexedTriangleSet { vertices: vec![p3(9, 9, 9)], indices: vec![] };
    let tris = vec![p3(0, 0, 0), p3(1, 0, 0), p3(0, 1, 0), p3(0, 0, 1), p3(1, 1, 1), p3(2, 2, 2)];
    its_merge_triangles(&mut its, &tris);
    assert_eq!(its.vertices.len(), 7);
    assert_eq!(its.indices, vec![[1, 2, 3], [4, 5, 6]]);
}

#[test]
fn straight_walls_of_a_frame() {
    let sq = |a: i64, b: i64| {
        Polygon::from_points(vec![
            Point::new(a, a),
            Point::new(b, a),
            Point::new(b, b),
            Point::new(a, b),
        ])
    };
    let frame = ExPolygon { contour: sq(0, 10), holes: vec![sq(2, 8)] };
    let walls = straight_walls_expolygon(&frame, 0, 1);
    assert_eq!(walls.vertices.len(), 16);
    assert_eq!(walls.indices.len(), 16);
    // The hole's faces follow the contour's 8 vertices.
    assert_eq!(walls.indices[8], [8, 9, 12]);

    let two = straight_walls(&vec![ExPolygon::new(sq(0, 1)), ExPolygon::new(sq(5, 6))], 0, 1);
    assert_eq!(two.vertices.len(), 16);
    assert_eq!(two.indices[15], [8, 12, 15]);
}
