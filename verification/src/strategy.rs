//! Strategy configuration and the result record of a solve run.

use vstd::prelude::*;

use crate::direction::Direction;

verus! {

/// The heuristic used by informed (A*) search.
#[derive(Clone, Copy, Debug)]
pub enum Metric {
    /// Number of non-blank tiles that are not on their goal cell.
    Hamming,
    /// Sum over non-blank tiles of the grid distance to their goal cell.
    Manhattan,
}

/// An exploration strategy: breadth-first or depth-first search with a
/// caller-supplied move order, or A* with a heuristic.
#[derive(Debug)]
pub enum Strategy {
    Bfs([Direction; 4]),
    Dfs([Direction; 4]),
    AStar(Metric),
}

/// The outcome of one solve run.
pub struct SolveResult {
    /// The moves from the start state to the goal, or `None` when the
    /// search exhausted its space without reaching the goal.
    pub path: Option<Vec<Direction>>,
    /// Ghost record of every registry upsert the run performed, in
    /// order: each entry is a grid and the history it was offered with.
    pub journal: Ghost<Seq<(Seq<u8>, Seq<Direction>)>>,
    /// Number of distinct grids entered into the visited registry.
    pub visited_states: usize,
    /// Number of states popped from the frontier.
    pub processed_states: usize,
    /// Greatest history length among processed states.
    pub max_depth: usize,
    /// Wall-clock nanoseconds spent searching.
    pub time_spent: u128,
}

} // verus!
