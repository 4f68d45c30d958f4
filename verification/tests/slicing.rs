use libslic3r_rs::geometry::SCALED_PER_MM;
use libslic3r_rs::slicing::{
    equal_layering, HeightProfileSmoothingParams, LayerHeightEditActionType, SlicingMode,
    SlicingParams,
};

fn mm(v: i64) -> f64 {
    v as f64 / SCALED_PER_MM as f64
}

fn scaled(v: f64) -> i64 {
    (v * SCALED_PER_MM as f64).round() as i64
}

#[test]
fn test_slicing_params_default() {
    let params = SlicingParams::default();
    assert!((mm(params.layer_height) - 0.2).abs() < 1e-6);
    assert!((mm(params.first_print_layer_height) - 0.2).abs() < 1e-6);
}

#[test]
fn test_slicing_params_fields() {
    let mut params = SlicingParams::default();
    params.layer_height = scaled(0.15);
    params.first_print_layer_height = scaled(0.25);

    assert!((mm(params.layer_height) - 0.15).abs() < 1e-6);
    assert!((mm(params.first_print_layer_height) - 0.25).abs() < 1e-6);
}

#[test]
fn test_slicing_params_raft() {
    let mut params = SlicingParams::default();
    assert!(!params.has_raft());
    assert_eq!(params.raft_layers(), 0);

    params.base_raft_layers = 2;
    params.interface_raft_layers = 1;
    assert!(params.has_raft());
    assert_eq!(params.raft_layers(), 3);
}

#[test]
fn test_equal_layering() {
    let mut params1 = SlicingParams::default();
    params1.valid = true;
    let mut params2 = SlicingParams::default();
    params2.valid = true;
    assert!(equal_layering(&params1, &params2));

    let mut params3 = SlicingParams::default();
    params3.valid = true;
    params3.layer_height = scaled(0.15);
    assert!(!equal_layering(&params1, &params3));
}

#[test]
fn test_slicing_mode() {
    assert_eq!(SlicingMode::default(), SlicingMode::Regular);
}

#[test]
fn equal_layering_ignores_gaps_and_soluble_interface() {
    let mut a = SlicingParams::new();
    a.valid = true;
    let mut b = a;
    b.soluble_interface = true;
    b.gap_raft_object = 12_345;
    b.max_suport_layer_height = 7;
    b.object_print_z_max = 99;
    assert!(equal_layering(&a, &b));
    assert!(equal_layering(&b, &a));
    b.object_print_z_min = 1;
    assert!(!equal_layering(&a, &b));
}

#[test]
fn default_values_in_scaled_units() {
    let p = SlicingParams::new();
    assert!(!p.valid);
    assert_eq!(p.layer_height, 200_000);
    assert_eq!(p.min_layer_height, 70_000);
    assert_eq!(p.max_layer_height, 300_000);
    assert_eq!(p.base_raft_layer_height, 300_000);
    assert_eq!(p.gap_raft_object, 100_000);
    assert_eq!(p.object_print_z_height(), 0);
}

#[test]
fn with_layer_height_keeps_other_defaults() {
    let p = SlicingParams::with_layer_height(150_000);
    assert_eq!(p.layer_height, 150_000);
    assert_eq!(p.first_print_layer_height, 200_000);
    assert_eq!(p.min_layer_height, 70_000);
}

#[test]
fn first_object_layer_height_fixed_cases() {
    let mut p = SlicingParams::new();
    assert!(p.first_object_layer_height_fixed());
    p.interface_raft_layers = 2;
    assert!(!p.first_object_layer_height_fixed());
    p.first_object_layer_bridging = true;
    assert!(p.first_object_layer_height_fixed());
}

#[test]
fn object_print_z_height_is_difference() {
    let mut p = SlicingParams::new();
    p.object_print_z_min = 300_000;
    p.object_print_z_max = 10_300_000;
    assert_eq!(p.object_print_z_height(), 10_000_000);
}

#[test]
fn smoothing_params_and_edit_actions() {
    let d = HeightProfileSmoothingParams::new();
    assert_eq!(d.radius, 5);
    assert!(!d.keep_min);
    let p = HeightProfileSmoothingParams::with_params(3, true);
    assert_eq!(p.radius, 3);
    assert!(p.keep_min);
    assert_eq!(LayerHeightEditActionType::Increase.code(), 0);
    assert_eq!(LayerHeightEditActionType::Decrease.code(), 1);
    assert_eq!(LayerHeightEditActionType::Reduce.code(), 2);
    assert_eq!(LayerHeightEditActionType::Smooth.code(), 3);
}
