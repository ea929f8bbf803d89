//! Mesh construction, subdivision and input-state logic for a small
//! mesh viewer, each function stated by its contract.
//!
//! Floating point never appears here: every vertex is described by an
//! exact recipe (`geometry::VertexRecipe`, `geometry::GridPoint`) that the
//! application evaluates with its own float arithmetic.

pub mod geometry;
pub mod gui;
pub mod input;
pub mod key_set;
pub mod move_controller;
pub mod util;
