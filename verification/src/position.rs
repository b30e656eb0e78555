use vstd::prelude::*;
use crate::color::Color;
use crate::error::BoardError;
use crate::grid::{
    cell_at, cell_index, cell_of_compact, compact_of, in_grid, lemma_cell_of_compact,
    lemma_compact_round_trip, shade_of, Cell,
};

verus! {

/// A cell of the grid. Every value of this type lies on the grid.
#[derive(Clone, Copy, Debug, PartialEq, Eq, Structural)]
pub struct Position {
    pub(crate) x: u8,
    pub(crate) y: u8,
}

impl Position {
    /// The cell that this position stands for.
    pub open(crate) spec fn view(self) -> Cell {
        (self.x as int, self.y as int)
    }

    #[verifier::type_invariant]
    pub open(crate) spec fn on_board(self) -> bool {
        in_grid(self@)
    }

    /// The position with file `x` and rank `y`, where the grid has such a
    /// cell.
    pub fn new(x: u8, y: u8) -> (r: Result<Position, BoardError>)
        ensures
            match r {
                Ok(p) => in_grid((x as int, y as int)) && p@ == (x as int, y as int),
                Err(e) => !in_grid((x as int, y as int)) && e == BoardError::OutOfRange,
            },
    {
        if x < 5 && y < 4 {
            Ok(Position { x, y })
        } else {
            Err(BoardError::OutOfRange)
        }
    }

    /// The file, from 0 to 4.
    pub fn x(&self) -> (r: u8)
        ensures
            r == self@.0,
            r < 5,
    {
        proof {
            use_type_invariant(self);
        }
        self.x
    }

    /// The rank, from 0 to 3.
    pub fn y(&self) -> (r: u8)
        ensures
            r == self@.1,
            r < 4,
    {
        proof {
            use_type_invariant(self);
        }
        self.y
    }

    /// The dense index of the cell, from which `from_usize` finds the cell
    /// again.
    pub fn as_usize(&self) -> (i: usize)
        ensures
            i == cell_index(self@),
            i < 20,
            cell_at(i as int) == self@,
    {
        proof {
            use_type_invariant(self);
        }
        (4 * self.x + self.y) as usize
    }

    /// The position with dense index `i`, where the grid has such a cell.
    pub fn from_usize(i: usize) -> (r: Result<Position, BoardError>)
        ensures
            match r {
                Ok(p) => i < 20 && p@ == cell_at(i as int) && cell_index(p@) == i,
                Err(e) => i >= 20 && e == BoardError::OutOfRange,
            },
    {
        if i < 20 {
            Ok(Position { x: (i / 4) as u8, y: (i % 4) as u8 })
        } else {
            Err(BoardError::OutOfRange)
        }
    }

    /// The shade of the cell and its number among the cells of that shade,
    /// from which `from_compact` finds the cell again.
    pub fn as_compact(&self) -> (r: (Color, u32))
        ensures
            r.0 == shade_of(self@),
            r.1 == compact_of(self@),
            r.1 < 10,
            cell_of_compact(r.0, r.1 as int) == self@,
    {
        proof {
            use_type_invariant(self);
            reveal(shade_of);
            reveal(compact_of);
            lemma_compact_round_trip(self@);
        }
        let c = if (self.x + self.y) % 2 == 0 {
            Color::White
        } else {
            Color::Black
        };
        (c, (2 * self.x + self.y / 2) as u32)
    }

    /// The position of shade `c` with number `val`, where `val` is below ten.
    pub fn from_compact(c: Color, val: u32) -> (r: Result<Position, BoardError>)
        ensures
            match r {
                Ok(p) => {
                    &&& val < 10
                    &&& p@ == cell_of_compact(c, val as int)
                    &&& shade_of(p@) == c
                    &&& compact_of(p@) == val
                },
                Err(e) => val >= 10 && e == BoardError::OutOfRange,
            },
    {
        proof {
            reveal(cell_of_compact);
            if val < 10 {
                lemma_cell_of_compact(c, val as int);
            }
        }
        if val >= 10 {
            return Err(BoardError::OutOfRange);
        }
        let x = val / 2;
        let y = (val % 2) * 2 + (match c {
            Color::White => x % 2,
            Color::Black => (x + 1) % 2,
        });
        Ok(Position { x: x as u8, y: y as u8 })
    }
}

} // verus!
