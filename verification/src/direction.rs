//! Compass directions over a row-major grid of cells.
//!
//! A grid of `total_len` cells with rows of `line_length` cells is addressed
//! by a single index; `get_index` answers which cell lies one step away in a
//! given direction, or `None` at the border.

use vstd::prelude::*;

verus! {

#[derive(Clone, Copy, Debug, PartialEq, Eq, Structural, Hash)]
pub enum Direction {
    North,
    NorthEast,
    East,
    SouthEast,
    South,
    SouthWest,
    West,
    NorthWest,
}

impl Direction {
    /// The cell one step in this direction from `index`, if it stays on the
    /// grid; the grid is row-major with `line_length` cells per row.
    pub open spec fn step_spec(self, total_len: int, line_length: int, index: int) -> Option<int> {
        let at_top = index < line_length;
        let at_bottom = index >= total_len - line_length;
        let at_left = index % line_length == 0;
        let at_right = index % line_length == line_length - 1;
        match self {
            Direction::North => if !at_top { Some(index - line_length) } else { None },
            Direction::NorthEast => if !at_top && !at_right { Some(index - line_length + 1) } else { None },
            Direction::East => if !at_right { Some(index + 1) } else { None },
            Direction::SouthEast => if !at_bottom && !at_right { Some(index + line_length + 1) } else { None },
            Direction::South => if !at_bottom { Some(index + line_length) } else { None },
            Direction::SouthWest => if !at_bottom && !at_left { Some(index + line_length - 1) } else { None },
            Direction::West => if !at_left { Some(index - 1) } else { None },
            Direction::NorthWest => if !at_top && !at_left { Some(index - line_length - 1) } else { None },
        }
    }

    pub fn get_index(&self, total_len: usize, line_length: usize, index: usize) -> (r: Option<usize>)
        requires
            1 <= line_length <= total_len,
            index < total_len,
        ensures
            r is Some <==> self.step_spec(total_len as int, line_length as int, index as int) is Some,
            r is Some ==> r->0 == self.step_spec(total_len as int, line_length as int, index as int)->0,
    {
        match self {
            Direction::North => {
                if index >= line_length {
                    Some(index - line_length)
                } else {
                    None
                }
            }
            Direction::NorthEast => {
                if index >= line_length && index % line_length != line_length - 1 {
                    Some(index - line_length + 1)
                } else {
                    None
                }
            }
            Direction::East => {
                if index % line_length != line_length - 1 {
                    Some(index + 1)
                } else {
                    None
                }
            }
            Direction::SouthEast => {
                if index < total_len - line_length && index % line_length != line_length - 1 {
                    Some(index + line_length + 1)
                } else {
                    None
                }
            }
            Direction::South => {
                if index < total_len - line_length {
                    Some(index + line_length)
                } else {
                    None
                }
            }
            Direction::SouthWest => {
                if index < total_len - line_length && index % line_length != 0 {
                    Some(index + line_length - 1)
                } else {
                    None
                }
            }
            Direction::West => {
                if index % line_length != 0 {
                    proof {
                        lemma_index_off_column_zero(index as int, line_length as int);
                    }
                    Some(index - 1)
                } else {
                    None
                }
            }
            Direction::NorthWest => {
                if index >= line_length && index % line_length != 0 {
                    proof {
                        lemma_index_off_column_zero(index as int, line_length as int);
                    }
                    Some(index - line_length - 1)
                } else {
                    None
                }
            }
        }
    }

    /// The direction obtained by a half turn.
    pub open spec fn opposite_spec(self) -> Direction {
        match self {
            Direction::North => Direction::South,
            Direction::NorthEast => Direction::SouthWest,
            Direction::East => Direction::West,
            Direction::SouthEast => Direction::NorthWest,
            Direction::South => Direction::North,
            Direction::SouthWest => Direction::NorthEast,
            Direction::West => Direction::East,
            Direction::NorthWest => Direction::SouthEast,
        }
    }

    pub fn opposite(&self) -> (r: Self)
        ensures
            r == self.opposite_spec(),
    {
        match self {
            Direction::North => Direction::South,
            Direction::NorthEast => Direction::SouthWest,
            Direction::East => Direction::West,
            Direction::SouthEast => Direction::NorthWest,
            Direction::South => Direction::North,
            Direction::SouthWest => Direction::NorthEast,
            Direction::West => Direction::East,
            Direction::NorthWest => Direction::SouthEast,
        }
    }
}

/// An index off the left column is neither zero nor a multiple boundary,
/// so stepping west, even combined with a step north, stays non-negative.
proof fn lemma_index_off_column_zero(index: int, line_length: int)
    requires
        line_length >= 1,
        index >= 0,
        index % line_length != 0,
    ensures
        index >= 1,
        index >= line_length ==> index >= line_length + 1,
{
    vstd::arithmetic::div_mod::lemma_mod_self_0(line_length);
    if index == 0 {
        assert(index % line_length == 0) by (nonlinear_arith)
            requires line_length >= 1 && index == 0;
    }
    if index == line_length {
        assert(index % line_length == 0);
    }
}

/// A half turn twice returns to the starting direction.
pub proof fn lemma_opposite_involutive(d: Direction)
    ensures
        d.opposite_spec().opposite_spec() == d,
{
}

} // verus!
