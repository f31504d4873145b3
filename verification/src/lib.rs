//! A verified solver for the generalized sliding-tile puzzle.
//!
//! A puzzle state is a width x height grid of tile labels with a single
//! blank cell (label 0).  The solver searches the space of blank moves for
//! a path to the canonical solved arrangement (row-major ascending, blank
//! last), using breadth-first, depth-first, or A* exploration over a
//! shared move generator and a visited-state registry.

pub mod clock;
pub mod config;
pub mod direction;
pub mod parse;
pub mod puzzle;
pub mod registry;
pub mod search;
pub mod strategy;

pub use config::ArgsError;
pub use config::Config;
pub use direction::Direction;
pub use parse::FileReadError;
pub use puzzle::Puzzle;
pub use registry::Registry;
pub use search::MAX_DEPTH;
pub use strategy::Metric;
pub use strategy::SolveResult;
pub use strategy::Strategy;
