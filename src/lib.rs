//! Image resizing logic: reading size expressions into target dimensions,
//! and planning a batch over a directory walk.
pub mod error;
pub mod text;
pub mod size;
pub mod plan;
