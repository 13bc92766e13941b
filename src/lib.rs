//! Light-transport core of a ray tracer: ray crossings, constructive solid
//! geometry, nearest-hit, shadow and recursion-budget decisions, and the
//! bounce rules of the photon pass; with the integer parts around them (mesh
//! files, frame buffers, line drawing, the split of an image among workers).
//!
//! Geometry and radiance are computed by the caller in floating point; this
//! crate holds the decisions made on them. A ray parameter enters the crate
//! as the order key of its `f32` value (see [`hit::order_key`]), so every
//! comparison made here is the comparison of the parameters themselves.
pub mod camera;
pub mod csg;
pub mod framebuffer;
pub mod hit;
pub mod linedrawer;
pub mod material;
pub mod mesh;
pub mod photonmap;
pub mod scene;
pub mod text;
