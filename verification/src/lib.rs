//! An offline path tracer over fixed-point numbers.
//!
//! A scene is a set of spheres with matt, mirroring or clear surfaces. The
//! colour that arrives along a ray is found by following the ray from
//! surface to surface, for a limited number of bounces, and a picture is
//! made of the means of many such colours for each pixel. A
//! bounding-volume hierarchy over the spheres keeps the search for the
//! nearest hit short.
//!
//! All numbers are `fixed::Fixed`: 64-bit counts of billionths, with
//! arithmetic that saturates and rounds toward zero. Random draws come from
//! the `rand` crate and pictures are held in the buffer of the `image` crate;
//! both are reached through the few functions of `random` and `raster`, whose
//! contracts are taken on trust. What draws at random is built on functions
//! that take the draws as arguments and whose results are exact.

pub mod fixed;
pub mod trig;
pub mod random;
pub mod vec3;
pub mod ray;
pub mod aabb;
pub mod raster;
pub mod texture;
pub mod material;
pub mod object;
pub mod aimed;
pub mod sorting;
pub mod bvh;
pub mod hierarchy;
pub mod cover;
pub mod camera;
pub mod canvas;
pub mod render;
pub mod scene;
