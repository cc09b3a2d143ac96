//! The verified core of a ray tracer: scene meshes and their triangles, the
//! bounding interval hierarchy built over the triangles, the materials and
//! images that the scene description names, and the data that the GPU passes
//! are handed.
//!
//! Scene coordinates are fixed-point integers throughout, so that every
//! comparison and sum that the hierarchy is built from is exact.

pub mod args;
pub mod bih;
pub mod description;
pub mod geometry;
pub mod json;
pub mod gui;
pub mod materials;
pub mod mesh;
pub mod pipeline;
pub mod push_constants;
pub mod scene;
pub mod seqs;
pub mod surface;
