//! Best-first search for a chain of split and combine operations that brings
//! at least one value of a collection within a margin of a target.
//!
//! Values are fixed-point integers: a real quantity multiplied by
//! [`arith::SCALE`] and truncated toward zero.

pub mod arith;
pub mod expansion;
pub mod frontier;
pub mod heuristic;
pub mod laws;
pub mod model;
pub mod moves;
pub mod partition;
pub mod reach;
pub mod search;
pub mod text;
pub mod visited;
