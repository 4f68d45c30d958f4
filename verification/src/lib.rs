//! Slicing and SLA support tools for 3D printing, on integer (scaled)
//! coordinates.
pub mod geometry;
pub mod slicing;
pub mod sla;
pub mod triangle_mesh;
pub mod triangle_mesh_slicer;
pub mod layer;
pub mod slicer;
pub mod slices_to_mesh;
pub mod slices_to_triangle_mesh;
