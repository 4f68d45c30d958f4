use libslic3r_rs::geometry::{ExPolygon, Point, Polygon};
use libslic3r_rs::sla::pad::{
    add_supports_to_index, divide_blueprint, remove_redundant_parts, DummyIntersector,
    Intersector, IntersectorLike,
};
use libslic3r_rs::sla::raster_base::Trafo;
use libslic3r_rs::sla::raster_to_polygons::{foreach_vertex, restore_raster_polygons};
use libslic3r_rs::sla::support_point_generator::expolygon_overlaps;

fn square(x0: i64, y0: i64, x1: i64, y1: i64) -> Polygon {
    Polygon::from_points(vec![
        Point::new(x0, y0),
        Point::new(x1, y0),
        Point::new(x1, y1),
        Point::new(x0, y1),
    ])
}

fn ring(p: &Polygon) -> Vec<(i64, i64)> {
    p.points.iter().map(|q| (q.x, q.y)).collect()
}

fn with_holes(contour: Polygon, holes: Vec<Polygon>) -> ExPolygon {
    ExPolygon { contour, holes }
}

#[test]
fn divide_blueprint_nested_levels() {
    // A frame with a hole, an island with a hole inside it, and a small
    // island inside that hole.
    let bp = vec![
        with_holes(square(0, 0, 100, 100), vec![square(10, 10, 90, 90)]),
        with_holes(square(20, 20, 80, 80), vec![square(30, 30, 70, 70)]),
        ExPolygon::new(square(40, 40, 60, 60)),
    ];
    let sk = divide_blueprint(&bp);
    assert_eq!(sk.outer.len(), 1);
    assert_eq!(ring(&sk.outer[0].contour), ring(&square(0, 0, 100, 100)));
    assert_eq!(sk.outer[0].holes.len(), 1);
    assert_eq!(ring(&sk.outer[0].holes[0]), ring(&square(10, 10, 90, 90)));
    assert_eq!(sk.inner.len(), 2);
    assert_eq!(ring(&sk.inner[0].contour), ring(&square(20, 20, 80, 80)));
    assert_eq!(sk.inner[0].holes.len(), 1);
    assert_eq!(ring(&sk.inner[0].holes[0]), ring(&square(30, 30, 70, 70)));
    assert_eq!(ring(&sk.inner[1].contour), ring(&square(40, 40, 60, 60)));
    assert!(sk.inner[1].holes.is_empty());
}

#[test]
fn divide_blueprint_disjoint_parts_are_outer() {
    let bp = vec![
        ExPolygon::new(square(0, 0, 10, 10)),
        ExPolygon::new(square(20, 0, 30, 10)),
    ];
    let sk = divide_blueprint(&bp);
    assert_eq!(sk.outer.len(), 2);
    assert!(sk.inner.is_empty());
    assert_eq!(ring(&sk.outer[1].contour), ring(&square(20, 0, 30, 10)));
}

#[test]
fn divide_blueprint_empty() {
    let sk = divide_blueprint(&Vec::new());
    assert!(sk.outer.is_empty());
    assert!(sk.inner.is_empty());
}

#[test]
fn overlaps_cases() {
    let big = ExPolygon::new(square(0, 0, 100, 100));
    let small = ExPolygon::new(square(40, 40, 60, 60));
    let far = ExPolygon::new(square(200, 200, 210, 210));
    let touching = ExPolygon::new(square(100, 0, 110, 10));
    // A ring of `small` lies inside `big`.
    assert!(expolygon_overlaps(&big, &small));
    // `big` holds the first vertex of `small`.
    assert!(expolygon_overlaps(&small, &big));
    assert!(!expolygon_overlaps(&big, &far));
    assert!(expolygon_overlaps(&big, &touching));
    // Inside the hole of a frame there is no overlap.
    let frame = with_holes(square(0, 0, 100, 100), vec![square(10, 10, 90, 90)]);
    assert!(!expolygon_overlaps(&frame, &small));
}

#[test]
fn intersector_finds_supported_parts() {
    let mut isect = Intersector::new();
    let supports = vec![
        ExPolygon::new(square(0, 0, 10, 10)),
        ExPolygon::new(Polygon::from_points(vec![
            Point::new(100, 0),
            Point::new(110, 0),
            Point::new(100, 10),
        ])),
    ];
    add_supports_to_index(&mut isect, &supports);
    assert!(isect.intersects(&ExPolygon::new(square(5, 5, 15, 15))));
    assert!(!isect.intersects(&ExPolygon::new(square(50, 50, 60, 60))));
    // The boxes meet but the square lies beyond the slanted edge.
    assert!(!isect.intersects(&ExPolygon::new(square(108, 8, 112, 12))));

    let mut parts = vec![
        ExPolygon::new(square(50, 50, 60, 60)),
        ExPolygon::new(square(5, 5, 15, 15)),
        ExPolygon::new(square(-5, -5, 1, 1)),
    ];
    remove_redundant_parts(&isect, &mut parts);
    assert_eq!(parts.len(), 2);
    assert_eq!(ring(&parts[0].contour), ring(&square(5, 5, 15, 15)));
    assert_eq!(ring(&parts[1].contour), ring(&square(-5, -5, 1, 1)));
}

#[test]
fn dummy_intersector_keeps_everything() {
    let mut d = DummyIntersector;
    d.add(&ExPolygon::new(square(0, 0, 1, 1)));
    let mut parts = vec![ExPolygon::new(square(50, 50, 60, 60))];
    remove_redundant_parts(&d, &mut parts);
    assert_eq!(parts.len(), 1);
}

#[test]
fn restore_mirrored_raster_polygons() {
    let tr = Trafo { mirror_x: false, mirror_y: true, flip_xy: false, center_x: 0, center_y: 0 };
    let out = restore_raster_polygons(vec![ExPolygon::new(square(0, 0, 10, 10))], 1000, 500, &tr);
    assert_eq!(out.len(), 1);
    // y is mirrored, and one mirroring turns the ring, so it is reversed.
    assert_eq!(ring(&out[0].contour), vec![(0, 490), (10, 490), (10, 500), (0, 500)]);
}

#[test]
fn restore_flipped_centred_raster_polygons() {
    let tr = Trafo { mirror_x: true, mirror_y: true, flip_xy: true, center_x: 5, center_y: 7 };
    let e = with_holes(square(0, 0, 100, 50), vec![square(10, 10, 20, 20)]);
    let out = restore_raster_polygons(vec![e], 300, 200, &tr);
    // (x, y) -> (300 - x - 5, 200 - y - 7), then swapped; three mirrorings
    // reverse the rings.
    assert_eq!(ring(&out[0].contour), vec![(143, 295), (143, 195), (193, 195), (193, 295)]);
    assert_eq!(ring(&out[0].holes[0]), vec![(173, 285), (173, 275), (183, 275), (183, 285)]);
}

#[test]
fn foreach_vertex_maps_every_vertex() {
    let mut e = with_holes(square(0, 0, 4, 4), vec![square(1, 1, 2, 2)]);
    foreach_vertex(&mut e, |p: Point| Point::new(p.x * 2, p.y + 1));
    assert_eq!(ring(&e.contour), vec![(0, 1), (8, 1), (8, 5), (0, 5)]);
    assert_eq!(ring(&e.holes[0]), vec![(2, 2), (4, 2), (4, 3), (2, 3)]);
}
