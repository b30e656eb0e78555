use vstd::prelude::*;
use crate::color::Color;
use crate::grid::{cell_at, in_grid, on_diagonal, Cell};

verus! {

/// The mathematical model of a board: for each side the cells of its four
/// tokens, in the order in which the board holds them.
pub struct Layout {
    pub white: Seq<Cell>,
    pub black: Seq<Cell>,
}

/// One of four tokens stands on `c`.
pub open spec fn holds(tokens: Seq<Cell>, c: Cell) -> bool {
    tokens[0] == c || tokens[1] == c || tokens[2] == c || tokens[3] == c
}

/// One of the first `n` of four tokens stands on `c`.
pub open spec fn holds_among(tokens: Seq<Cell>, n: int, c: Cell) -> bool {
    ||| n > 0 && tokens[0] == c
    ||| n > 1 && tokens[1] == c
    ||| n > 2 && tokens[2] == c
    ||| n > 3 && tokens[3] == c
}

/// One of four tokens attacks `c`: it stands on a diagonal through `c`, on
/// another cell. Tokens in between do not shield a cell.
pub open spec fn hits(tokens: Seq<Cell>, c: Cell) -> bool {
    ||| on_diagonal(tokens[0], c)
    ||| on_diagonal(tokens[1], c)
    ||| on_diagonal(tokens[2], c)
    ||| on_diagonal(tokens[3], c)
}

/// One of the first `n` of four tokens attacks `c`.
pub open spec fn hits_among(tokens: Seq<Cell>, n: int, c: Cell) -> bool {
    ||| n > 0 && on_diagonal(tokens[0], c)
    ||| n > 1 && on_diagonal(tokens[1], c)
    ||| n > 2 && on_diagonal(tokens[2], c)
    ||| n > 3 && on_diagonal(tokens[3], c)
}

/// Four tokens stand on the grid.
pub open spec fn all_in_grid(tokens: Seq<Cell>) -> bool {
    in_grid(tokens[0]) && in_grid(tokens[1]) && in_grid(tokens[2]) && in_grid(tokens[3])
}

/// No two of four tokens share a cell.
pub open spec fn no_repeat(tokens: Seq<Cell>) -> bool {
    &&& tokens[0] != tokens[1]
    &&& tokens[0] != tokens[2]
    &&& tokens[0] != tokens[3]
    &&& tokens[1] != tokens[2]
    &&& tokens[1] != tokens[3]
    &&& tokens[2] != tokens[3]
}

/// No token of one group of four shares a cell with a token of the other.
pub open spec fn disjoint(a: Seq<Cell>, b: Seq<Cell>) -> bool {
    !holds(b, a[0]) && !holds(b, a[1]) && !holds(b, a[2]) && !holds(b, a[3])
}

/// A bitmap over the dense indices marks the cells on which the tokens
/// stand, and no others.
pub open spec fn marks_cells(bits: Seq<bool>, tokens: Seq<Cell>) -> bool {
    forall|i: int| 0 <= i < 20 ==> bits[i] == holds(tokens, cell_at(i))
}

/// A bitmap over the dense indices marks the cells that the tokens attack,
/// and no others.
pub open spec fn marks_attacked(bits: Seq<bool>, tokens: Seq<Cell>) -> bool {
    forall|i: int| 0 <= i < 20 ==> bits[i] == hits(tokens, cell_at(i))
}

impl Layout {
    /// The tokens of one side.
    pub open spec fn side(self, s: Color) -> Seq<Cell> {
        match s {
            Color::White => self.white,
            Color::Black => self.black,
        }
    }

    /// Each side has four tokens.
    pub open spec fn sized(self) -> bool {
        self.white.len() == 4 && self.black.len() == 4
    }

    /// The eight tokens stand on eight different cells.
    pub open spec fn distinct(self) -> bool {
        no_repeat(self.white) && no_repeat(self.black) && disjoint(self.white, self.black)
    }

    /// What holds of every board: four tokens a side, all on the grid, no
    /// two on one cell.
    pub open spec fn valid(self) -> bool {
        &&& self.sized()
        &&& all_in_grid(self.white)
        &&& all_in_grid(self.black)
        &&& self.distinct()
    }

    /// A token of side `s` stands on `c`.
    pub open spec fn occupies(self, s: Color, c: Cell) -> bool {
        holds(self.side(s), c)
    }

    /// A token of side `s` attacks `c`.
    pub open spec fn attacked_by(self, s: Color, c: Cell) -> bool {
        hits(self.side(s), c)
    }

    /// The cells that side `s` occupies, as a set: the order of the tokens
    /// is forgotten.
    pub open spec fn cells(self, s: Color) -> Set<Cell> {
        Set::new(|c: Cell| self.occupies(s, c))
    }

    /// Both sides occupy the same cells in `self` and in `other`.
    pub open spec fn same_cells(self, other: Layout) -> bool {
        &&& self.cells(Color::White) == other.cells(Color::White)
        &&& self.cells(Color::Black) == other.cells(Color::Black)
    }

    /// The layout after token `j` of side `s` went to `c`.
    pub open spec fn moved(self, s: Color, j: int, c: Cell) -> Layout {
        match s {
            Color::White => Layout { white: self.white.update(j, c), black: self.black },
            Color::Black => Layout { white: self.white, black: self.black.update(j, c) },
        }
    }
}

/// The layout from which the puzzle starts: white on file 0, black on file 4.
pub open spec fn initial_layout() -> Layout {
    Layout {
        white: seq![(0int, 0int), (0int, 1int), (0int, 2int), (0int, 3int)],
        black: seq![(4int, 0int), (4int, 1int), (4int, 2int), (4int, 3int)],
    }
}

} // verus!
