//! Core of a ray tracer: the framebuffer with its plain-text image encoding,
//! the boolean rules of constructive solid geometry, the nearest-hit and
//! refraction-boundary selection that shading relies on, and the row-band
//! partition of the render scheduler.
//!
//! Colour channels and ray distances are carried here as plain integers: a
//! channel is measured in thousandths of the usual unit scale, and a distance
//! is an order-preserving key, so that every rule stated over them is exact.

pub mod canvas;
pub mod colors;
pub mod csg;
pub mod intersections;
pub mod scheduler;
