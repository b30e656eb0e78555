use vstd::prelude::*;
use crate::color::Color;
use crate::error::BoardError;
use crate::grid::{cell_at, in_grid, Cell};
use crate::layout::{
    all_in_grid, hits_among, holds, holds_among, initial_layout, marks_attacked, marks_cells,
    no_repeat, Layout,
};
use crate::moves::{
    direction_at, lemma_ray_leaves, lemma_ray_length, lemma_rays_are_diagonals, on_ray, on_rays,
    shift, Direction, Moves,
};
use crate::position::Position;

verus! {

/// The cells of a group of positions, in the same order.
pub open spec fn cells_of(ps: Seq<Position>) -> Seq<Cell> {
    Seq::new(ps.len(), |i: int| ps[i]@)
}

/// A board with its eight tokens. Every value of this type has its tokens on
/// eight different cells.
#[derive(Clone, Copy, Debug)]
pub struct Board {
    pub(crate) white_pos: [Position; 4],
    pub(crate) black_pos: [Position; 4],
}

/// `p` is one of the four positions.
fn occurs(ps: &[Position; 4], p: Position) -> (r: bool)
    ensures
        r == holds(cells_of(ps@), p@),
{
    ps[0] == p || ps[1] == p || ps[2] == p || ps[3] == p
}

/// The four positions are four different cells. They lie on the grid, as
/// every position does.
fn all_differ(ps: &[Position; 4]) -> (r: bool)
    ensures
        r == no_repeat(cells_of(ps@)),
        all_in_grid(cells_of(ps@)),
{
    let a = ps[0];
    let b = ps[1];
    let c = ps[2];
    let d = ps[3];
    proof {
        use_type_invariant(&a);
        use_type_invariant(&b);
        use_type_invariant(&c);
        use_type_invariant(&d);
    }
    a != b && a != c && a != d && b != c && b != d && c != d
}

/// The cells of an array of positions, marked in a bitmap over the dense
/// indices.
fn mark_cells(positions: &[Position; 4]) -> (ret: [bool; 20])
    ensures
        marks_cells(ret@, cells_of(positions@)),
{
    let mut ret = [false; 20];
    let mut n: usize = 0;
    while n < 4
        invariant
            n <= 4,
            forall|i: int|
                0 <= i < 20 ==> ret@[i] == holds_among(cells_of(positions@), n as int, cell_at(i)),
        decreases 4 - n,
    {
        let p = positions[n];
        let idx = p.as_usize();
        proof {
            use_type_invariant(&p);
        }
        let ghost before = ret@;
        ret[idx] = true;
        assert forall|i: int| 0 <= i < 20 implies ret@[i] == holds_among(
            cells_of(positions@),
            n as int + 1,
            cell_at(i),
        ) by {
            assert(cells_of(positions@)[n as int] == p@);
            assert(cell_at(i) == p@ <==> i == idx as int);
            assert(before[i] == holds_among(cells_of(positions@), n as int, cell_at(i)));
        }
        n += 1;
    }
    ret
}

/// The cells on the diagonals of an array of positions, marked in a bitmap
/// over the dense indices. Every diagonal is marked up to the edge of the
/// grid, whatever stands on it.
fn mark_diagonals(positions: &[Position; 4]) -> (ret: [bool; 20])
    ensures
        marks_attacked(ret@, cells_of(positions@)),
{
    let directions = Direction::get_directions();
    let mut ret = [false; 20];
    let mut n: usize = 0;
    while n < 4
        invariant
            n <= 4,
            forall|i: int| 0 <= i < 4 ==> directions@[i] == direction_at(i),
            forall|i: int|
                0 <= i < 20 ==> ret@[i] == hits_among(cells_of(positions@), n as int, cell_at(i)),
        decreases 4 - n,
    {
        let pos = positions[n];
        proof {
            use_type_invariant(&pos);
        }
        let ghost a = pos@;
        assert(cells_of(positions@)[n as int] == a);
        let mut m: usize = 0;
        while m < 4
            invariant
                m <= 4,
                n < 4,
                in_grid(a),
                a == pos@,
                cells_of(positions@)[n as int] == a,
                forall|i: int| 0 <= i < 4 ==> directions@[i] == direction_at(i),
                forall|i: int|
                    0 <= i < 20 ==> ret@[i] == (hits_among(
                        cells_of(positions@),
                        n as int,
                        cell_at(i),
                    ) || on_rays(a, m as int, cell_at(i))),
            decreases 4 - m,
        {
            let dir = directions[m];
            let mut moves = Moves::new(pos, dir);
            let ghost mut k: int = 0;
            loop
                invariant
                    0 <= k <= 3,
                    m < 4,
                    in_grid(a),
                    dir == direction_at(m as int),
                    moves.dir == dir,
                    moves.pos@ == shift(a, dir, k),
                    forall|i: int|
                        0 <= i < 20 ==> ret@[i] == (hits_among(
                            cells_of(positions@),
                            n as int,
                            cell_at(i),
                        ) || on_rays(a, m as int, cell_at(i)) || on_ray(a, dir, k, cell_at(i))),
                ensures
                    !in_grid(shift(a, dir, k + 1)),
                decreases 3 - k,
            {
                match moves.next() {
                    None => {
                        break ;
                    },
                    Some(valid_move) => {
                        let idx = valid_move.as_usize();
                        let ghost before = ret@;
                        ret[idx] = true;
                        proof {
                            lemma_ray_length(a, dir, k + 1);
                            assert forall|i: int| 0 <= i < 20 implies ret@[i] == (hits_among(
                                cells_of(positions@),
                                n as int,
                                cell_at(i),
                            ) || on_rays(a, m as int, cell_at(i)) || on_ray(
                                a,
                                dir,
                                k + 1,
                                cell_at(i),
                            )) by {
                                assert(cell_at(i) == valid_move@ <==> i == idx as int);
                                assert(before[i] == (hits_among(
                                    cells_of(positions@),
                                    n as int,
                                    cell_at(i),
                                ) || on_rays(a, m as int, cell_at(i)) || on_ray(
                                    a,
                                    dir,
                                    k,
                                    cell_at(i),
                                )));
                            }
                            k = k + 1;
                        }
                    },
                }
            }
            proof {
                assert forall|i: int| 0 <= i < 20 implies ret@[i] == (hits_among(
                    cells_of(positions@),
                    n as int,
                    cell_at(i),
                ) || on_rays(a, m as int + 1, cell_at(i))) by {
                    lemma_ray_leaves(a, dir, k, cell_at(i));
                }
            }
            m += 1;
        }
        proof {
            assert forall|i: int| 0 <= i < 20 implies ret@[i] == hits_among(
                cells_of(positions@),
                n as int + 1,
                cell_at(i),
            ) by {
                lemma_rays_are_diagonals(a, cell_at(i));
            }
        }
        n += 1;
    }
    ret
}

impl Board {
    /// The layout of the board: its mathematical model.
    pub open(crate) spec fn view(self) -> Layout {
        Layout { white: cells_of(self.white_pos@), black: cells_of(self.black_pos@) }
    }

    #[verifier::type_invariant]
    pub open(crate) spec fn well_formed(self) -> bool {
        self@.valid()
    }

    /// The board from which the puzzle starts.
    pub fn new() -> (r: Board)
        ensures
            r@ == initial_layout(),
            r@.valid(),
    {
        let white_pos = [
            Position { x: 0, y: 0 },
            Position { x: 0, y: 1 },
            Position { x: 0, y: 2 },
            Position { x: 0, y: 3 },
        ];
        let black_pos = [
            Position { x: 4, y: 0 },
            Position { x: 4, y: 1 },
            Position { x: 4, y: 2 },
            Position { x: 4, y: 3 },
        ];
        let r = Board { white_pos, black_pos };
        assert(r@.white =~= initial_layout().white);
        assert(r@.black =~= initial_layout().black);
        r
    }

    /// The board with the given tokens, where they stand on eight different
    /// cells.
    pub fn from_pos(white_pos: [Position; 4], black_pos: [Position; 4]) -> (r: Result<
        Board,
        BoardError,
    >)
        ensures
            match r {
                Ok(b) => {
                    &&& b@ == (Layout { white: cells_of(white_pos@), black: cells_of(black_pos@) })
                    &&& b@.valid()
                },
                Err(e) => {
                    &&& !(Layout {
                        white: cells_of(white_pos@),
                        black: cells_of(black_pos@),
                    }).distinct()
                    &&& e == BoardError::InvariantViolation
                },
            },
    {
        let distinct = all_differ(&white_pos) && all_differ(&black_pos) && !occurs(
            &black_pos,
            white_pos[0],
        ) && !occurs(&black_pos, white_pos[1]) && !occurs(&black_pos, white_pos[2]) && !occurs(
            &black_pos,
            white_pos[3],
        );
        if distinct {
            Ok(Board { white_pos, black_pos })
        } else {
            Err(BoardError::InvariantViolation)
        }
    }

    /// The white tokens.
    pub fn white_pos(&self) -> (r: [Position; 4])
        ensures
            cells_of(r@) == self@.white,
    {
        self.white_pos
    }

    /// The black tokens.
    pub fn black_pos(&self) -> (r: [Position; 4])
        ensures
            cells_of(r@) == self@.black,
    {
        self.black_pos
    }

    /// The cells that one side occupies, as a bitmap over the dense indices.
    pub fn get_array(&self, color: &Color) -> (r: [bool; 20])
        ensures
            marks_cells(r@, self@.side(*color)),
    {
        match color {
            Color::White => mark_cells(&self.white_pos),
            Color::Black => mark_cells(&self.black_pos),
        }
    }

    /// The cells that one side attacks, as a bitmap over the dense indices. A
    /// token attacks every other cell of its two diagonals, up to the edge of
    /// the grid: tokens in between, of either side, do not shield a cell.
    pub fn threatened_array(&self, color: &Color) -> (r: [bool; 20])
        ensures
            marks_attacked(r@, self@.side(*color)),
    {
        match color {
            Color::White => mark_diagonals(&self.white_pos),
            Color::Black => mark_diagonals(&self.black_pos),
        }
    }
}

} // verus!
