//! Core of a bounded two-dimensional cellular automaton ("Game of Life"
//! style): survive/born rules encoded as a bitset, a boolean cell board
//! stored in a `grid::Grid`, the per-generation step, editing primitives
//! (point, line, area writes, crop, resize), and a compact string type.
//!
//! Window handling, rendering, configuration files and the camera's
//! floating-point math live outside this crate; they call into it with
//! plain values.

pub mod board;
pub mod gridops;
pub mod rule;
pub mod textops;
pub mod tinystr;
