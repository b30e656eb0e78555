use vstd::prelude::*;

verus! {

/// One of the two sides. The same two names stand for the two shades of the
/// grid's cells: a cell is white where file plus rank is even.
#[derive(Clone, Copy, Debug, PartialEq, Eq, Structural)]
pub enum Color {
    White,
    Black,
}

impl Color {
    /// The other side.
    pub open spec fn opposite(self) -> Color {
        match self {
            Color::White => Color::Black,
            Color::Black => Color::White,
        }
    }

    pub fn invert(&self) -> (r: Color)
        ensures
            r == self.opposite(),
    {
        match self {
            Color::White => Color::Black,
            Color::Black => Color::White,
        }
    }
}

/// Inverting twice gives the side back.
pub proof fn lemma_opposite_involution(c: Color)
    ensures
        c.opposite().opposite() == c,
        c.opposite() != c,
{
}

} // verus!
