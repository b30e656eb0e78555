use vstd::prelude::*;
use crate::color::Color;

verus! {

/// A cell as a pair of integers, file first, rank second. A cell need not lie
/// on the grid: stepping off its edge gives a cell too.
pub type Cell = (int, int);

/// The grid has files 0 to 4 and ranks 0 to 3.
pub open spec fn in_grid(c: Cell) -> bool {
    0 <= c.0 < 5 && 0 <= c.1 < 4
}

/// The dense index of a cell: 4 * file + rank, from 0 to 19 on the grid.
pub open spec fn cell_index(c: Cell) -> int {
    4 * c.0 + c.1
}

/// The cell with a given dense index.
pub open spec fn cell_at(i: int) -> Cell {
    (i / 4, i % 4)
}

/// The shade of a cell. A diagonal step keeps it.
#[verifier::opaque]
pub open spec fn shade_of(c: Cell) -> Color {
    if (c.0 + c.1) % 2 == 0 {
        Color::White
    } else {
        Color::Black
    }
}

/// The number of a cell among the ten cells of its shade, from 0 to 9.
#[verifier::opaque]
pub open spec fn compact_of(c: Cell) -> int {
    2 * c.0 + c.1 / 2
}

/// The cell of a given shade with a given number.
#[verifier::opaque]
pub open spec fn cell_of_compact(shade: Color, v: int) -> Cell {
    let file = v / 2;
    let low = match shade {
        Color::White => file % 2,
        Color::Black => (file + 1) % 2,
    };
    (file, (v % 2) * 2 + low)
}

/// Two distinct cells lie on a common diagonal.
pub open spec fn on_diagonal(a: Cell, b: Cell) -> bool {
    a != b && (a.0 - b.0 == a.1 - b.1 || a.0 - b.0 == b.1 - a.1)
}

/// `cell_at` is the exact inverse of `cell_index` on the grid.
pub proof fn lemma_index_round_trip(c: Cell)
    requires
        in_grid(c),
    ensures
        0 <= cell_index(c) < 20,
        cell_at(cell_index(c)) == c,
{
}

/// `cell_index` is the exact inverse of `cell_at` on the indices 0 to 19.
pub proof fn lemma_cell_round_trip(i: int)
    requires
        0 <= i < 20,
    ensures
        in_grid(cell_at(i)),
        cell_index(cell_at(i)) == i,
{
}

/// A cell of the grid is found again from its shade and its number.
pub proof fn lemma_compact_round_trip(c: Cell)
    requires
        in_grid(c),
    ensures
        0 <= compact_of(c) < 10,
        cell_of_compact(shade_of(c), compact_of(c)) == c,
{
    reveal(shade_of);
    reveal(compact_of);
    reveal(cell_of_compact);
}

/// A shade and a number below ten give a cell of the grid with that shade and
/// that number.
pub proof fn lemma_cell_of_compact(shade: Color, v: int)
    requires
        0 <= v < 10,
    ensures
        in_grid(cell_of_compact(shade, v)),
        shade_of(cell_of_compact(shade, v)) == shade,
        compact_of(cell_of_compact(shade, v)) == v,
{
    reveal(shade_of);
    reveal(compact_of);
    reveal(cell_of_compact);
}

} // verus!
