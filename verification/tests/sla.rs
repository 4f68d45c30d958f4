use libslic3r_rs::geometry::{BoundingBox, Point};
use libslic3r_rs::sla::hollowing::{swap_normals, HollowingFlags, MeshMods};
use libslic3r_rs::geometry::Point3;
use libslic3r_rs::sla::raster_base::{
    mz_crc32, EncodedRaster, Orientation, PNGRasterEncoder, PPMRasterEncoder, Resolution, Trafo,
    MIRROR_X, NO_MIRROR,
};
use libslic3r_rs::sla::rotfinder::sum_score;
use libslic3r_rs::sla::spat_index::{BoxIndex, QueryType};
use libslic3r_rs::sla::support_point_generator::{
    gen_two_uniform_ints, shuffle, uniform_int_u64, Mt19937,
};
use libslic3r_rs::sla::support_tree_buildsteps::{
    build_running, next_build_step, pairhash, step_message, BuildStep,
};
use libslic3r_rs::triangle_mesh::{IndexedTriangleSet, Vec3i};
use std::io::Read;

#[test]
fn swap_normals_swaps_first_and_last_index() {
    let mut its = IndexedTriangleSet::new();
    its.indices.push(Vec3i::new(1, 2, 3));
    swap_normals(&mut its);
    assert_eq!(its.indices[0], Vec3i::new(3, 2, 1));
}

#[test]
fn test_sum_score_adds() {
    let s: i64 = sum_score(|i: usize| i as i64, 5, 4);
    assert_eq!(s, 10);
}

#[test]
fn test_mt19937_reference_value() {
    let mut rng = Mt19937::new();
    let mut last = 0u32;
    for _ in 0..10000 {
        last = rng.next_u32();
    }
    assert_eq!(last, 4123659995);
}

#[test]
fn test_shuffle_is_permutation() {
    let mut rng = Mt19937::with_seed(7);
    let mut v: Vec<(f32, f32)> = (0..37).map(|i| (i as f32, 0.)).collect();
    shuffle(&mut v, &mut rng);
    let mut xs: Vec<i32> = v.iter().map(|p| p.0 as i32).collect();
    xs.sort_unstable();
    assert_eq!(xs, (0..37).collect::<Vec<i32>>());
}

#[test]
fn mt19937_first_outputs() {
    let mut rng = Mt19937::new();
    assert_eq!(rng.next_u32(), 3499211612);
    assert_eq!(rng.next_u32(), 581869302);
    let mut rng = Mt19937::with_seed(1);
    assert_eq!(rng.next_u32(), 1791095845);
    rng.seed(5489);
    assert_eq!(rng.next_u32(), 3499211612);
}

#[test]
fn uniform_ints_stay_in_range() {
    let mut rng = Mt19937::with_seed(42);
    for r in [0u64, 1, 2, 5, 1000, 0xffff_fffe, 0xffff_ffff, 0x1_0000_0000, u64::MAX] {
        for _ in 0..50 {
            assert!(uniform_int_u64(&mut rng, r) <= r);
        }
    }
    for _ in 0..100 {
        let (a, b) = gen_two_uniform_ints(7, 8, &mut rng);
        assert!(a < 7 && b < 8);
    }
}

#[test]
fn shuffle_is_deterministic_and_moves_elements() {
    let mut a: Vec<u32> = (0..100).collect();
    let mut b: Vec<u32> = (0..100).collect();
    shuffle(&mut a, &mut Mt19937::with_seed(3));
    shuffle(&mut b, &mut Mt19937::with_seed(3));
    assert_eq!(a, b);
    assert_ne!(a, (0..100).collect::<Vec<u32>>());
    let mut big: Vec<u32> = (0..70_000).collect();
    shuffle(&mut big, &mut Mt19937::with_seed(11));
    let mut sorted = big.clone();
    sorted.sort_unstable();
    assert_eq!(sorted, (0..70_000).collect::<Vec<u32>>());
    let mut empty: Vec<u32> = Vec::new();
    shuffle(&mut empty, &mut Mt19937::new());
    assert!(empty.is_empty());
}

#[test]
fn pairhash_is_symmetric() {
    assert_eq!(pairhash(3, 5), pairhash(5, 3));
    assert_eq!(pairhash(3, 5), (3 << 16) + 5);
    assert_eq!(pairhash(0, 0), 0);
    assert_ne!(pairhash(1, 2), pairhash(2, 3));
}

#[test]
fn hollowing_flag_bit() {
    assert_eq!(HollowingFlags::HfRemoveInsideTriangles.bits(), 1);
}

fn bb(x0: i64, y0: i64, x1: i64, y1: i64) -> BoundingBox {
    BoundingBox::from_corners(Point::new(x0, y0), Point::new(x1, y1))
}

#[test]
fn box_index_queries() {
    let mut idx = BoxIndex::new();
    assert!(idx.empty());
    idx.insert_box(bb(0, 0, 10, 10), 0);
    idx.insert_box(bb(20, 20, 30, 30), 1);
    idx.insert((bb(5, 5, 6, 6), 2));
    idx.insert_box(bb(10, 0, 10, 5), 3);
    assert_eq!(idx.size(), 4);
    let hits: Vec<u32> = idx.query(&bb(8, 0, 12, 12), QueryType::Intersects).iter().map(|e| e.1).collect();
    assert_eq!(hits, vec![0, 3]);
    let touch: Vec<u32> = idx.query(&bb(30, 30, 40, 40), QueryType::Intersects).iter().map(|e| e.1).collect();
    assert_eq!(touch, vec![1]);
    let within: Vec<u32> = idx.query(&bb(0, 0, 10, 10), QueryType::Within).iter().map(|e| e.1).collect();
    // the flat box 3 has an empty interior and is not within
    assert_eq!(within, vec![0, 2]);
    assert!(idx.remove(&(bb(5, 5, 6, 6), 2)));
    assert!(!idx.remove(&(bb(5, 5, 6, 6), 2)));
    assert!(!idx.remove(&(bb(0, 0, 10, 10), 7)));
    assert_eq!(idx.size(), 3);
    let mut count = 0;
    let counter = std::cell::Cell::new(0);
    idx.foreach(|_| counter.set(counter.get() + 1));
    count += counter.get();
    assert_eq!(count, 3);
}

#[test]
fn crc32_check_value() {
    assert_eq!(mz_crc32(0, b"123456789"), 0xCBF4_3926);
    assert_eq!(mz_crc32(0, b""), 0);
    let part = mz_crc32(0, b"12345");
    assert_eq!(mz_crc32(part, b"6789"), 0xCBF4_3926);
}

#[test]
fn ppm_encoding_layout() {
    let pixels: Vec<u8> = (0..12).collect();
    let r = PPMRasterEncoder.call(&pixels, 3, 2, 2);
    assert_eq!(r.extension(), "ppm");
    let mut expected = b"P5 3 2 255 ".to_vec();
    expected.extend_from_slice(&pixels);
    assert_eq!(r.data(), &expected[..]);
    assert_eq!(r.size(), expected.len());
    let r = PPMRasterEncoder.call(&pixels, 10, 1, 1);
    assert_eq!(r.data(), b"P5 10 1 255 \x00\x01\x02\x03\x04\x05\x06\x07\x08\x09");
}

#[test]
fn png_encoding_layout_and_roundtrip() {
    let (w, h) = (5usize, 3usize);
    let pixels: Vec<u8> = (0..(w * h) as u8).map(|v| v * 10).collect();
    let r = PNGRasterEncoder.call(&pixels, w, h, 1);
    assert_eq!(r.extension(), "png");
    let d = r.data();
    assert_eq!(&d[0..8], &[0x89, b'P', b'N', b'G', 0x0d, 0x0a, 0x1a, 0x0a]);
    assert_eq!(&d[12..16], b"IHDR");
    assert_eq!(&d[16..20], &[0, 0, 0, 5]);
    assert_eq!(&d[20..24], &[0, 0, 0, 3]);
    assert_eq!(d[24], 8);
    assert_eq!(d[25], 0);
    let ihdr_crc = u32::from_be_bytes([d[29], d[30], d[31], d[32]]);
    assert_eq!(ihdr_crc, mz_crc32(0, &d[12..29]));
    let len = u32::from_be_bytes([d[33], d[34], d[35], d[36]]) as usize;
    assert_eq!(&d[37..41], b"IDAT");
    assert_eq!(d.len(), 41 + len + 16);
    let idat_crc = u32::from_be_bytes([d[41 + len], d[42 + len], d[43 + len], d[44 + len]]);
    assert_eq!(idat_crc, mz_crc32(0, &d[37..41 + len]));
    assert_eq!(&d[d.len() - 8..d.len() - 4], b"IEND");
    let mut dec = flate2::read::ZlibDecoder::new(&d[41..41 + len]);
    let mut raw = Vec::new();
    dec.read_to_end(&mut raw).unwrap();
    let mut expected = Vec::new();
    for y in 0..h {
        expected.push(0u8);
        expected.extend_from_slice(&pixels[y * w..(y + 1) * w]);
    }
    assert_eq!(raw, expected);
}

#[test]
fn raster_value_types() {
    let r = Resolution::new(4, 3);
    assert_eq!(r.pixels(), 12);
    assert_eq!(Resolution::default().pixels(), 0);
    let t = Trafo::default();
    assert!(!t.mirror_x && t.mirror_y && !t.flip_xy);
    assert_eq!(t.get_orientation(), Orientation::RoLandscape);
    assert_eq!(t.get_mirror(), [true, true]);
    let p = Trafo::new(Orientation::RoPortrait, NO_MIRROR);
    assert!(p.mirror_x && p.flip_xy);
    assert_eq!(p.get_orientation(), Orientation::RoPortrait);
    assert_eq!(p.get_mirror(), [false, true]);
    let m = Trafo::new(Orientation::RoLandscape, MIRROR_X);
    assert!(m.mirror_x);
    assert_eq!(m.get_center(), Point::new(0, 0));
    let e = EncodedRaster::new(vec![1, 2, 3], "raw".to_string());
    assert_eq!(e.size(), 3);
    assert_eq!(e.data(), &[1, 2, 3]);
    assert_eq!(e.extension(), "raw");
    assert_eq!(EncodedRaster::default().size(), 0);
}

#[test]
fn mesh_mods_drop_flagged_faces_and_append_new_triangles() {
    let mut its = IndexedTriangleSet::new();
    for k in 0..4 {
        its.vertices.push(Point3::new(k, 0, 0));
    }
    its.indices.push(Vec3i::new(0, 1, 2));
    its.indices.push(Vec3i::new(1, 2, 3));
    its.indices.push(Vec3i::new(0, 2, 3));
    let mut mods = MeshMods::new(&its);
    assert_eq!(mods.to_remove, vec![false, false, false]);
    assert_eq!(mods.to_remove_cnt(), 0);
    mods.to_remove[1] = true;
    mods.new_triangles.push([Point3::new(5, 0, 0), Point3::new(6, 0, 0), Point3::new(7, 1, 0)]);
    assert_eq!(mods.to_remove_cnt(), 1);
    mods.apply(&mut its);
    assert_eq!(its.indices, vec![Vec3i::new(0, 1, 2), Vec3i::new(0, 2, 3), Vec3i::new(4, 5, 6)]);
    assert_eq!(its.vertices.len(), 7);
    assert_eq!(its.vertices[4], Point3::new(5, 0, 0));
    assert_eq!(its.vertices[6], Point3::new(7, 1, 0));
}

#[test]
fn build_steps_run_in_order_and_abort_on_stop() {
    let mut pc = BuildStep::Begin;
    let mut states = Vec::new();
    let mut messages = Vec::new();
    while build_running(pc) {
        let (next, state) = next_build_step(pc, false);
        pc = next;
        states.push(state);
        messages.push(step_message(pc));
    }
    assert_eq!(pc, BuildStep::Done);
    assert_eq!(states, vec![10, 30, 50, 60, 70, 80, 99, 100]);
    assert_eq!(messages[0], "Filtering");
    assert_eq!(messages[7], "Done");
    assert_eq!(next_build_step(BuildStep::Classify, true), (BuildStep::Abort, 0));
    assert!(!build_running(BuildStep::Abort));
    assert_eq!(step_message(BuildStep::Begin), "Starting");
}
