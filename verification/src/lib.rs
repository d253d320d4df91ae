//! A codec for triangular mesh geometry: an OBJ-style text format on one
//! side, a compact little-endian binary layout on the other, and an
//! in-memory mesh model in between.
//!
//! Floating-point coordinates are carried everywhere as their IEEE 754
//! single-precision bit patterns (`u32`), which both file formats preserve
//! exactly; turning a coordinate's decimal text into a bit pattern and back
//! is left to the caller.

pub mod binary;
pub mod mesh;
pub mod render;
pub mod text;
