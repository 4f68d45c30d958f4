use libslic3r_rs::geometry::{ExPolygon, Point, Polygon, SCALED_PER_MM};
use libslic3r_rs::layer::{Layer, LayerRegion, Surface, SurfaceType};
use libslic3r_rs::slicer::{Error, SliceProgress, Slicer};
use std::cell::RefCell;
use libslic3r_rs::slices_to_mesh::slices_to_mesh;
use libslic3r_rs::slicing::SlicingParams;
use libslic3r_rs::triangle_mesh::TriangleMesh;
use libslic3r_rs::triangle_mesh_slicer::{dedup_ring, mesh_segments, ring_orientation, slice_mesh_at_z};

fn mm(v: i64) -> f64 {
    v as f64 / SCALED_PER_MM as f64
}

#[test]
fn test_slicer_new() {
    let params = SlicingParams::default();
    let slicer = Slicer::new(params);
    assert!((mm(slicer.params().layer_height) - 0.2).abs() < 1e-6);
}

#[test]
fn test_compute_layer_heights() {
    let slicer = Slicer::with_defaults();
    let mesh = TriangleMesh::cube(10 * SCALED_PER_MM); // 10mm cube

    let heights = slicer.compute_layer_heights(&mesh).unwrap();

    // Should have multiple layers
    assert!(!heights.is_empty());

    // First layer should start at the bottom
    assert!((mm(heights[0].bottom_z) - (-5.0)).abs() < 1e-6);

    // Layers should be contiguous
    for i in 1..heights.len() {
        assert!((mm(heights[i].bottom_z) - mm(heights[i - 1].top_z)).abs() < 1e-6);
    }
}

#[test]
fn test_slice_cube() {
    let slicer = Slicer::with_defaults();
    let mesh = TriangleMesh::cube(10 * SCALED_PER_MM);

    let layers = slicer.slice(&mesh).unwrap();

    assert!(!layers.is_empty());
    for (i, layer) in layers.iter().enumerate() {
        assert_eq!(layer.id(), i);
    }
    for i in 0..layers.len() {
        if i > 0 {
            assert_eq!(layers[i].lower_layer_id(), Some(i - 1));
        } else {
            assert_eq!(layers[i].lower_layer_id(), None);
        }
        if i < layers.len() - 1 {
            assert_eq!(layers[i].upper_layer_id(), Some(i + 1));
        } else {
            assert_eq!(layers[i].upper_layer_id(), None);
        }
    }
    for layer in &layers {
        assert!(!layer.regions().is_empty(), "Layer should have regions");
    }
}

#[test]
fn test_slice_cube_has_geometry() {
    let slicer = Slicer::with_defaults();
    let mesh = TriangleMesh::cube(10 * SCALED_PER_MM);

    let layers = slicer.slice(&mesh).unwrap();

    let layers_with_geometry = layers
        .iter()
        .filter(|l| l.regions().iter().any(|r| !r.slices().is_empty()))
        .count();

    assert!(
        layers_with_geometry > layers.len() / 2,
        "Expected most layers to have geometry, got {}/{}",
        layers_with_geometry,
        layers.len()
    );
}

#[test]
fn test_slice_empty_mesh() {
    let slicer = Slicer::with_defaults();
    let mesh = TriangleMesh::new();

    let result = slicer.slice(&mesh);
    assert!(result.is_err());
}

#[test]
fn test_slice_at_z() {
    let slicer = Slicer::with_defaults();
    let mesh = TriangleMesh::cube(10 * SCALED_PER_MM);

    let expolygons = slicer.slice_at_z(&mesh, 0).unwrap();

    assert_eq!(expolygons.len(), 1, "Expected 1 contour for cube slice at z=0");
    assert!(expolygons[0].holes.is_empty(), "Cube cross-section should have no holes");
}

#[test]
fn test_slices_to_mesh_empty() {
    let layers: Vec<Layer> = vec![];
    let mesh = slices_to_mesh(&layers);
    assert!(mesh.is_empty());
}

#[test]
fn cube_layer_stack_values() {
    // 10 mm cube, 0.2 mm layers: first layer [-5, -4.8], then regular layers
    // while both a layer's middle and a minimum layer's middle lie below 5 mm.
    let slicer = Slicer::with_defaults();
    let mesh = TriangleMesh::cube(10 * SCALED_PER_MM);
    let hs = slicer.compute_layer_heights(&mesh).unwrap();
    assert_eq!(hs.len(), 50);
    assert_eq!(hs[0].bottom_z, -5_000_000);
    assert_eq!(hs[0].top_z, -4_800_000);
    assert_eq!(hs[0].slice_z, -4_900_000);
    assert_eq!(hs[1].bottom_z, -4_800_000);
    assert_eq!(hs[1].top_z, -4_600_000);
    assert_eq!(hs[1].slice_z, -4_700_000);
    assert_eq!(hs[49].top_z, 5_000_000);
    for h in &hs {
        assert_eq!(h.top_z - h.bottom_z, 200_000);
    }
}

#[test]
fn flat_mesh_is_rejected() {
    let slicer = Slicer::with_defaults();
    let mut mesh = TriangleMesh::new();
    mesh.add_vertex(libslic3r_rs::geometry::Point3::new(0, 0, 0));
    mesh.add_vertex(libslic3r_rs::geometry::Point3::new(100, 0, 0));
    mesh.add_vertex(libslic3r_rs::geometry::Point3::new(0, 100, 0));
    mesh.add_triangle(libslic3r_rs::triangle_mesh::Triangle::new(0, 1, 2));
    assert_eq!(slicer.slice(&mesh).err(), Some(Error::ZeroHeight));
    assert_eq!(slicer.compute_layer_heights(&mesh).err(), Some(Error::ZeroHeight));
    assert_eq!(slicer.slice(&TriangleMesh::new()).err(), Some(Error::EmptyMesh));
    assert_eq!(slicer.slice_at_z(&TriangleMesh::new(), 0).err(), Some(Error::EmptyMesh));
}

#[test]
fn cube_layers_follow_heights() {
    let slicer = Slicer::with_defaults();
    let mesh = TriangleMesh::cube(10 * SCALED_PER_MM);
    let hs = slicer.compute_layer_heights(&mesh).unwrap();
    let layers = slicer.slice(&mesh).unwrap();
    assert_eq!(layers.len(), hs.len());
    for (l, h) in layers.iter().zip(hs.iter()) {
        assert_eq!(l.print_z, h.top_z);
        assert_eq!(l.slice_z, h.slice_z);
        assert_eq!(l.height, h.top_z - h.bottom_z);
        assert_eq!(l.regions().len(), 1);
        let slices = l.regions()[0].slices();
        assert_eq!(slices.len(), 1);
        assert_eq!(slices[0].surface_type, SurfaceType::Internal);
    }
}

#[test]
fn cube_cross_section_is_counter_clockwise_square() {
    let mesh = TriangleMesh::cube(10 * SCALED_PER_MM);
    let ex = slice_mesh_at_z(&mesh, 0);
    assert_eq!(ex.len(), 1);
    let pts = &ex[0].contour.points;
    // every point lies on the square's boundary
    for p in pts {
        assert!(p.x.abs() == 5_000_000 || p.y.abs() == 5_000_000, "{:?}", p);
        assert!(p.x.abs() <= 5_000_000 && p.y.abs() <= 5_000_000);
    }
    // shoelace area: positive (counter-clockwise) and 10 mm x 10 mm
    let mut a2: i128 = 0;
    for i in 0..pts.len() {
        let p = pts[i];
        let q = pts[(i + 1) % pts.len()];
        a2 += p.x as i128 * q.y as i128 - q.x as i128 * p.y as i128;
    }
    assert_eq!(a2, 2 * 10_000_000i128 * 10_000_000i128);
}

#[test]
fn slicing_above_the_cube_gives_nothing() {
    let mesh = TriangleMesh::cube(10 * SCALED_PER_MM);
    assert!(slice_mesh_at_z(&mesh, 6_000_000).is_empty());
    assert!(slice_mesh_at_z(&mesh, -6_000_000).is_empty());
}

#[test]
fn center_offset_moves_the_section() {
    let mut slicer = Slicer::with_defaults();
    slicer.set_slice_center_offset(SCALED_PER_MM, 0);
    let mesh = TriangleMesh::cube(10 * SCALED_PER_MM);
    let ex = slicer.slice_at_z(&mesh, 0).unwrap();
    assert_eq!(ex.len(), 1);
    for p in &ex[0].contour.points {
        assert!(p.x >= -6_000_000 && p.x <= 4_000_000);
    }
    assert!(ex[0].contour.points.iter().any(|p| p.x == -6_000_000));
}

#[test]
fn hollow_box_section_has_a_hole() {
    // outer cube of 10 mm with an inner, inward-facing cube of 4 mm
    let outer = TriangleMesh::cube(10 * SCALED_PER_MM);
    let inner = TriangleMesh::cube(4 * SCALED_PER_MM);
    let mut mesh = TriangleMesh::new();
    for v in &outer.vertices {
        mesh.add_vertex(*v);
    }
    for t in &outer.triangles {
        mesh.add_triangle(*t);
    }
    for v in &inner.vertices {
        mesh.add_vertex(*v);
    }
    for t in &inner.triangles {
        // reversed orientation: the inner surface faces into the cavity
        mesh.add_triangle(libslic3r_rs::triangle_mesh::Triangle::new(t.a + 8, t.c + 8, t.b + 8));
    }
    let ex = slice_mesh_at_z(&mesh, 0);
    assert_eq!(ex.len(), 1);
    assert_eq!(ex[0].holes.len(), 1);
}

#[test]
fn slices_to_mesh_extrudes_each_contour() {
    let square = Polygon::from_points(vec![
        Point::new(0, 0),
        Point::new(100, 0),
        Point::new(100, 100),
        Point::new(0, 100),
    ]);
    let mut l0 = Layer::new(0, 20, 20, 10);
    let mut r0 = LayerRegion::new(0, 0);
    r0.slices.push(Surface::new(SurfaceType::Internal, ExPolygon::new(square.clone())));
    l0.regions.push(r0);
    let mut l1 = Layer::new(1, 20, 40, 30);
    let mut r1 = LayerRegion::new(1, 0);
    r1.slices.push(Surface::new(SurfaceType::Internal, ExPolygon::new(square)));
    l1.regions.push(r1);
    let mesh = slices_to_mesh(&vec![l0, l1]);
    assert_eq!(mesh.vertices.len(), 16);
    assert_eq!(mesh.triangles.len(), 16);
    // first wall from z = 0 (bottom of layer 0) to z = 20 (bottom of layer 1)
    assert_eq!(mesh.vertices[0].z, 0);
    assert_eq!(mesh.vertices[4].z, 20);
    // second wall from z = 20 to its own top z = 40
    assert_eq!(mesh.vertices[8].z, 20);
    assert_eq!(mesh.vertices[12].z, 40);
    let t = mesh.triangles[0];
    assert_eq!((t.a, t.b, t.c), (0, 1, 4));
    let t = mesh.triangles[1];
    assert_eq!((t.a, t.b, t.c), (1, 5, 4));
    let t = mesh.triangles[7];
    assert_eq!((t.a, t.b, t.c), (0, 4, 7));
}

#[test]
fn slice_with_callback_reports_every_step() {
    let slicer = Slicer::with_defaults();
    let mesh = TriangleMesh::cube(10 * SCALED_PER_MM);
    let seen: RefCell<Vec<SliceProgress>> = RefCell::new(Vec::new());
    let layers = slicer
        .slice_with_callback(&mesh, |p: SliceProgress| seen.borrow_mut().push(p))
        .unwrap();
    let seen = seen.into_inner();
    assert_eq!(seen[0], SliceProgress::HeightsComputed);
    assert_eq!(seen[1], SliceProgress::MeshSliced);
    assert_eq!(seen[2], SliceProgress::LayerBuilt { index: 0, total: layers.len() });
    let built = seen.iter().filter(|p| matches!(p, SliceProgress::LayerBuilt { .. })).count();
    assert_eq!(built, (layers.len() + 9) / 10);
    assert_eq!(seen[seen.len() - 2], SliceProgress::LayersBuilt);
    assert_eq!(seen[seen.len() - 1], SliceProgress::Finished);
}

#[test]
fn accepts_checks_the_coordinate_limits() {
    let slicer = Slicer::with_defaults();
    assert!(slicer.accepts(&TriangleMesh::cube(10 * SCALED_PER_MM)));
    let mut far = TriangleMesh::cube(10 * SCALED_PER_MM);
    far.vertices[0].x = 2_000_000_000_000;
    assert!(!slicer.accepts(&far));
}

#[test]
fn dedup_ring_drops_repeats_and_closing_point() {
    let p = |x: i64, y: i64| Point::new(x, y);
    let ring = vec![p(0, 0), p(0, 0), p(5, 0), p(5, 5), p(5, 5), p(0, 0)];
    let d = dedup_ring(&ring);
    assert_eq!(d, vec![p(0, 0), p(5, 0), p(5, 5)]);
}

#[test]
fn ring_orientation_signs() {
    let p = |x: i64, y: i64| Point::new(x, y);
    let ccw = vec![p(0, 0), p(10, 0), p(10, 10), p(0, 10)];
    let cw = vec![p(0, 0), p(0, 10), p(10, 10), p(10, 0)];
    assert_eq!(ring_orientation(&ccw), 1);
    assert_eq!(ring_orientation(&cw), -1);
    assert_eq!(ring_orientation(&vec![p(0, 0), p(1, 1)]), 0);
}

#[test]
fn mesh_segments_of_a_cube_section() {
    let mesh = TriangleMesh::cube(10 * SCALED_PER_MM);
    // Every side facet of the cube crosses the mid plane; top and bottom do not.
    let segs = mesh_segments(&mesh, 0);
    assert_eq!(segs.len(), 8);
    let above = mesh_segments(&mesh, 100 * SCALED_PER_MM);
    assert!(above.is_empty());
}

/// The fraction of the work done at a reported step.
fn progress_fraction(p: SliceProgress) -> f64 {
    match p {
        SliceProgress::HeightsComputed => 0.1,
        SliceProgress::MeshSliced => 0.6,
        SliceProgress::LayerBuilt { index, total } => 0.6 + (index as f64 / total as f64) * 0.4,
        SliceProgress::LayersBuilt => 1.0,
        SliceProgress::Finished => 1.0,
    }
}

#[test]
fn test_slice_with_callback() {
    let slicer = Slicer::with_defaults();
    let mesh = TriangleMesh::cube(10 * SCALED_PER_MM);

    let last_progress = RefCell::new(0.0f64);
    let layers = slicer
        .slice_with_callback(&mesh, |p: SliceProgress| {
            let progress = progress_fraction(p);
            assert!(progress >= *last_progress.borrow());
            *last_progress.borrow_mut() = progress;
        })
        .unwrap();

    assert!(!layers.is_empty());
    assert!((*last_progress.borrow() - 1.0).abs() < 1e-6);
}

#[test]
fn rebuilt_mesh_triangles_refer_to_its_vertices() {
    let slicer = Slicer::with_defaults();
    let mesh = TriangleMesh::cube(10 * SCALED_PER_MM);
    let layers = slicer.slice(&mesh).unwrap();
    let rebuilt = slices_to_mesh(&layers);
    assert!(!rebuilt.triangles.is_empty());
    let n = rebuilt.vertices.len() as u32;
    for t in &rebuilt.triangles {
        assert!(t.a < n && t.b < n && t.c < n);
    }
}
