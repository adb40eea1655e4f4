//! A verified engine for two cellular automata on an unbounded 2-D integer
//! grid: a Life-like automaton with configurable birth/survive rules, and
//! Langton's Ant.
//!
//! The engine tracks a sparse "frontier" of cells (every live cell and its
//! Moore neighborhood), advances generations with a double-buffered step,
//! parses rule strings in two surface grammars, and loads worlds from plain
//! character grids and from run-length-encoded patterns.

pub mod ant;
pub mod automata;
pub mod config;
pub mod grid;
pub mod life;
pub mod loc;
pub mod rules;

pub use loc::Loc;
