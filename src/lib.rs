//! A CPU ray tracer for scenes of spheres, in exact fixed-point arithmetic.
pub mod camera;
pub mod geometry;
pub mod intersect;
pub mod render;
pub mod scene;
pub mod shade;
pub mod target;
