//! The four directions a tile can slide from, relative to the blank cell.

use vstd::prelude::*;

verus! {

/// A move of the blank cell: the tile on the given side of the blank
/// slides into it, which is the same as moving the blank one cell in
/// that direction.  `Up`/`Down` and `Left`/`Right` are mutual inverses.
#[derive(Clone, Copy, Debug, PartialEq, Eq, Structural)]
pub enum Direction {
    Up,
    Down,
    Left,
    Right,
}

impl Direction {
    /// The move that undoes this one.
    pub open spec fn opposite_spec(self) -> Direction {
        match self {
            Direction::Up => Direction::Down,
            Direction::Down => Direction::Up,
            Direction::Left => Direction::Right,
            Direction::Right => Direction::Left,
        }
    }

    /// Returns the move that undoes this one.
    pub fn opposite(&self) -> (r: Direction)
        ensures
            r == self.opposite_spec(),
    {
        match self {
            Direction::Up => Direction::Down,
            Direction::Down => Direction::Up,
            Direction::Left => Direction::Right,
            Direction::Right => Direction::Left,
        }
    }
}

/// Taking the opposite twice yields the original direction.
pub proof fn lemma_opposite_involutive(d: Direction)
    ensures
        d.opposite_spec().opposite_spec() == d,
{
}

/// Every one of the four directions occurs in the sequence.
pub open spec fn full_order(s: Seq<Direction>) -> bool {
    &&& s.contains(Direction::Up)
    &&& s.contains(Direction::Down)
    &&& s.contains(Direction::Left)
    &&& s.contains(Direction::Right)
}

} // verus!
