use vstd::prelude::*;
use vstd::string::*;
use crate::board::Board;
use crate::color::Color;
use crate::grid::{cell_at, Cell};
use crate::layout::{marks_cells, Layout};

verus! {

/// The mark of a cell in the picture of a layout: `W` or `B` for a token of
/// that side, a blank for a free cell.
pub open spec fn mark(l: Layout, c: Cell) -> char {
    if l.occupies(Color::White, c) {
        'W'
    } else if l.occupies(Color::Black, c) {
        'B'
    } else {
        ' '
    }
}

/// The line above and below each row of the picture.
pub open spec fn rule() -> Seq<char> {
    seq![
        '+', '-', '-', '-', '+', '-', '-', '-', '+', '-', '-', '-', '+', '-', '-', '-', '+', '-',
        '-', '-', '+',
    ]
}

/// The four characters of one cell: its mark between two blanks, and a bar.
pub open spec fn cell_text(l: Layout, c: Cell) -> Seq<char> {
    seq![' ', mark(l, c), ' ', '|']
}

/// The first `n` cells of rank `y`, from file 0 on.
pub open spec fn cells_text(l: Layout, y: int, n: nat) -> Seq<char>
    decreases n,
{
    if n == 0 {
        Seq::empty()
    } else {
        cells_text(l, y, (n - 1) as nat) + cell_text(l, (n - 1, y))
    }
}

/// The row of rank `y`: a line break and a bar, its five cells, a line
/// break and the line below.
pub open spec fn row_text(l: Layout, y: int) -> Seq<char> {
    seq!['\n', '|'] + cells_text(l, y, 5) + seq!['\n'] + rule()
}

/// The first `n` rows, from rank 0 on.
pub open spec fn rows_text(l: Layout, n: nat) -> Seq<char>
    decreases n,
{
    if n == 0 {
        Seq::empty()
    } else {
        rows_text(l, (n - 1) as nat) + row_text(l, n - 1)
    }
}

/// The picture of a layout: a grid of four rows of five cells, rank 0 at the
/// top and file 0 on the left.
pub open spec fn picture(l: Layout) -> Seq<char> {
    rule() + rows_text(l, 4)
}

impl Board {
    /// The picture of the board as text.
    pub fn render(&self) -> (r: String)
        ensures
            r@ == picture(self@),
    {
        let ghost l = self@;
        let white_array = self.get_array(&Color::White);
        let black_array = self.get_array(&Color::Black);
        let mut out = String::from_str("+---+---+---+---+---+");
        proof {
            reveal_strlit("+---+---+---+---+---+");
            reveal_strlit("\n|");
            reveal_strlit("\n+---+---+---+---+---+");
            reveal_strlit(" W |");
            reveal_strlit(" B |");
            reveal_strlit("   |");
            assert("+---+---+---+---+---+"@ =~= rule());
            assert("\n+---+---+---+---+---+"@ =~= seq!['\n'] + rule());
            assert(out@ =~= rule() + rows_text(l, 0));
        }
        let mut y: usize = 0;
        while y < 4
            invariant
                y <= 4,
                l == self@,
                marks_cells(white_array@, l.white),
                marks_cells(black_array@, l.black),
                "\n|"@ == seq!['\n', '|'],
                "\n+---+---+---+---+---+"@ == seq!['\n'] + rule(),
                " W |"@ == seq![' ', 'W', ' ', '|'],
                " B |"@ == seq![' ', 'B', ' ', '|'],
                "   |"@ == seq![' ', ' ', ' ', '|'],
                out@ == rule() + rows_text(l, y as nat),
            decreases 4 - y,
        {
            let ghost above = out@;
            out.append("\n|");
            assert(out@ =~= above + seq!['\n', '|'] + cells_text(l, y as int, 0));
            let mut x: usize = 0;
            while x < 5
                invariant
                    x <= 5,
                    y < 4,
                    l == self@,
                    marks_cells(white_array@, l.white),
                    marks_cells(black_array@, l.black),
                    " W |"@ == seq![' ', 'W', ' ', '|'],
                    " B |"@ == seq![' ', 'B', ' ', '|'],
                    "   |"@ == seq![' ', ' ', ' ', '|'],
                    out@ == above + seq!['\n', '|'] + cells_text(l, y as int, x as nat),
                decreases 5 - x,
            {
                let index = 4 * x + y;
                assert(cell_at(index as int) == (x as int, y as int));
                let piece = if white_array[index] {
                    " W |"
                } else if black_array[index] {
                    " B |"
                } else {
                    "   |"
                };
                assert(piece@ =~= cell_text(l, (x as int, y as int)));
                out.append(piece);
                assert(out@ =~= above + seq!['\n', '|'] + cells_text(l, y as int, (x + 1) as nat));
                x += 1;
            }
            out.append("\n+---+---+---+---+---+");
            assert(out@ =~= above + row_text(l, y as int));
            y += 1;
        }
        out
    }
}

} // verus!
