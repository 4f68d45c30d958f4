//! Tools for resin (SLA) printing.
pub mod support_point_generator;
pub mod spat_index;
pub mod raster_base;
pub mod support_tree;
pub mod support_tree_builder;
pub mod support_tree_buildsteps;
pub mod hollowing;
pub mod rotfinder;
pub mod pad;
pub mod raster_to_polygons;
