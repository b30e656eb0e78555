use vstd::prelude::*;
use crate::board::{cells_of, Board};
use crate::color::Color;
use crate::grid::{cell_at, cell_index, in_grid, Cell};
use crate::layout::{marks_attacked, marks_cells, Layout};
use crate::moves::{direction_at, lemma_ray_length, shift, Direction, Moves};
use crate::position::Position;

verus! {

/// A token of side `s` may pass over `c`: the cell is on the grid and no
/// token of its own side stands there.
pub open spec fn passable(l: Layout, s: Color, c: Cell) -> bool {
    in_grid(c) && !l.occupies(s, c)
}

/// The first `k` cells from `a` in direction `d` are passable for side `s`.
/// No slide on this grid is longer than three cells.
pub open spec fn clear_way(l: Layout, s: Color, a: Cell, d: Direction, k: int) -> bool {
    &&& k >= 1 ==> passable(l, s, shift(a, d, 1))
    &&& k >= 2 ==> passable(l, s, shift(a, d, 2))
    &&& k >= 3 ==> passable(l, s, shift(a, d, 3))
}

/// A token of side `s` may come to rest on `c`: the other side neither
/// attacks the cell nor stands on it.
pub open spec fn restful(l: Layout, s: Color, c: Cell) -> bool {
    !l.attacked_by(s.opposite(), c) && !l.occupies(s.opposite(), c)
}

/// Token `j` of side `s` may slide `k` cells in direction `d`: the cells on
/// its way, the last one included, are passable, and it may rest on the last.
pub open spec fn legal(l: Layout, s: Color, j: int, d: Direction, k: int) -> bool {
    &&& 0 <= j < 4
    &&& 1 <= k <= 3
    &&& clear_way(l, s, l.side(s)[j], d, k)
    &&& restful(l, s, shift(l.side(s)[j], d, k))
}

/// The layout after token `j` of side `s` slid `k` cells in direction `d`.
pub open spec fn slid(l: Layout, s: Color, j: int, d: Direction, k: int) -> Layout {
    l.moved(s, j, shift(l.side(s)[j], d, k))
}

/// The slides are numbered from 0 to 47: by token first, then by direction,
/// then by length. This is slide number `n`, if it is legal.
pub open spec fn nth_move(l: Layout, s: Color, n: int) -> Option<Layout> {
    let j = n / 12;
    let d = direction_at((n / 3) % 4);
    let k = n % 3 + 1;
    if legal(l, s, j, d, k) {
        Some(slid(l, s, j, d, k))
    } else {
        None
    }
}

/// What the legal ones among the first `n` slides lead to, in their order.
pub open spec fn successors_among(l: Layout, s: Color, n: nat) -> Seq<Layout>
    decreases n,
{
    if n == 0 {
        Seq::empty()
    } else {
        let before = successors_among(l, s, (n - 1) as nat);
        match nth_move(l, s, n - 1) {
            Some(t) => before.push(t),
            None => before,
        }
    }
}

/// The layouts that one move of side `s` leads to.
pub open spec fn successors(l: Layout, s: Color) -> Seq<Layout> {
    successors_among(l, s, 48)
}

/// One move of side `s` leads from `l` to `t`.
#[verifier::opaque]
pub open spec fn is_move(l: Layout, s: Color, t: Layout) -> bool {
    exists|j: int, i: int, k: int|
        0 <= i < 4 && legal(l, s, j, direction_at(i), k) && t == #[trigger] slid(
            l,
            s,
            j,
            direction_at(i),
            k,
        )
}

/// The layouts of a sequence of boards.
pub open spec fn layouts(boards: Seq<Board>) -> Seq<Layout> {
    Seq::new(boards.len(), |i: int| boards[i]@)
}

/// The three bitmaps that the search for moves reads: the cells of the side
/// that moves, the cells of the other side, and the cells that the other
/// side attacks.
#[verifier::opaque]
spec fn bitmaps_of(
    l: Layout,
    s: Color,
    own: Seq<bool>,
    other: Seq<bool>,
    threatened: Seq<bool>,
) -> bool {
    &&& marks_cells(own, l.side(s))
    &&& marks_cells(other, l.side(s.opposite()))
    &&& marks_attacked(threatened, l.side(s.opposite()))
}

/// What the three bitmaps say of a cell of the grid.
proof fn lemma_bitmaps_at(
    l: Layout,
    s: Color,
    own: Seq<bool>,
    other: Seq<bool>,
    threatened: Seq<bool>,
    c: Cell,
)
    requires
        bitmaps_of(l, s, own, other, threatened),
        in_grid(c),
    ensures
        own[cell_index(c)] == l.occupies(s, c),
        other[cell_index(c)] == l.occupies(s.opposite(), c),
        threatened[cell_index(c)] == l.attacked_by(s.opposite(), c),
{
    reveal(bitmaps_of);
    assert(cell_at(cell_index(c)) == c);
}

/// Slide number `12 * j + 3 * i + k - 1` is that of token `j` in direction
/// `i` over `k` cells; it adds its layout where it is legal.
proof fn lemma_extend(l: Layout, s: Color, j: int, i: int, k: int)
    requires
        0 <= j < 4,
        0 <= i < 4,
        1 <= k <= 3,
    ensures
        successors_among(l, s, (12 * j + 3 * i + k) as nat) == (if legal(
            l,
            s,
            j,
            direction_at(i),
            k,
        ) {
            successors_among(l, s, (12 * j + 3 * i + k - 1) as nat).push(
                slid(l, s, j, direction_at(i), k),
            )
        } else {
            successors_among(l, s, (12 * j + 3 * i + k - 1) as nat)
        }),
{
    let n = 12 * j + 3 * i + k - 1;
    assert(n / 12 == j && (n / 3) % 4 == i && n % 3 + 1 == k);
}

/// The layouts of a sequence of boards with one more board.
proof fn lemma_layouts_push(boards: Seq<Board>, b: Board)
    ensures
        layouts(boards.push(b)) == layouts(boards).push(b@),
{
    assert(layouts(boards.push(b)) =~= layouts(boards).push(b@));
}

/// Where a slide is stopped after `k` cells, the longer slides of the same
/// token in the same direction add nothing.
proof fn lemma_stopped(l: Layout, s: Color, j: int, i: int, k: int)
    requires
        0 <= j < 4,
        0 <= i < 4,
        0 <= k <= 3,
        !passable(l, s, shift(l.side(s)[j], direction_at(i), k + 1)),
    ensures
        successors_among(l, s, (12 * j + 3 * i + 3) as nat) == successors_among(
            l,
            s,
            (12 * j + 3 * i + k) as nat,
        ),
    decreases 3 - k,
{
    if k < 3 {
        lemma_extend(l, s, j, i, k + 1);
        if k + 1 < 3 {
            lemma_extend(l, s, j, i, k + 2);
            if k + 2 < 3 {
                lemma_extend(l, s, j, i, k + 3);
            }
        }
    }
}

/// What the first `n` slides lead to are the layouts of the legal ones among
/// them.
proof fn lemma_among(l: Layout, s: Color, n: nat, t: Layout)
    ensures
        successors_among(l, s, n).contains(t) <==> exists|m: int|
            0 <= m < n && #[trigger] nth_move(l, s, m) == Some(t),
    decreases n,
{
    if n > 0 {
        lemma_among(l, s, (n - 1) as nat, t);
        let before = successors_among(l, s, (n - 1) as nat);
        match nth_move(l, s, n - 1) {
            Some(x) => {
                assert(before.push(x).contains(t) <==> before.contains(t) || x == t) by {
                    if before.contains(t) {
                        let i = choose|i: int| 0 <= i < before.len() && before[i] == t;
                        assert(before.push(x)[i] == t);
                    }
                    if x == t {
                        assert(before.push(x)[before.len() as int] == t);
                    }
                }
            },
            None => {},
        }
    }
}

/// The successors of a layout are the layouts that one move leads to.
pub proof fn lemma_successors_are_moves(l: Layout, s: Color, t: Layout)
    ensures
        successors(l, s).contains(t) <==> is_move(l, s, t),
{
    reveal(is_move);
    lemma_among(l, s, 48, t);
    if successors(l, s).contains(t) {
        let m = choose|m: int| 0 <= m < 48 && #[trigger] nth_move(l, s, m) == Some(t);
        assert(0 <= (m / 3) % 4 < 4);
        assert(t == slid(l, s, m / 12, direction_at((m / 3) % 4), m % 3 + 1));
    }
    if is_move(l, s, t) {
        let (j, i, k) = choose|j: int, i: int, k: int|
            0 <= i < 4 && legal(l, s, j, direction_at(i), k) && t == #[trigger] slid(
                l,
                s,
                j,
                direction_at(i),
                k,
            );
        let m = 12 * j + 3 * i + k - 1;
        assert(m / 12 == j && (m / 3) % 4 == i && m % 3 + 1 == k);
        assert(nth_move(l, s, m) == Some(t));
    }
}

impl Board {
    /// The board after token `n` of side `side` went to the free cell `to`.
    fn with_token(&self, side: &Color, n: usize, to: Position) -> (r: Board)
        requires
            n < 4,
            !self@.occupies(Color::White, to@),
            !self@.occupies(Color::Black, to@),
        ensures
            r@ == self@.moved(*side, n as int, to@),
    {
        proof {
            use_type_invariant(self);
            use_type_invariant(&to);
        }
        match side {
            Color::White => {
                let mut moved = self.white_pos;
                moved[n] = to;
                assert(cells_of(moved@) =~= self@.white.update(n as int, to@));
                Board { white_pos: moved, black_pos: self.black_pos }
            },
            Color::Black => {
                let mut moved = self.black_pos;
                moved[n] = to;
                assert(cells_of(moved@) =~= self@.black.update(n as int, to@));
                Board { white_pos: self.white_pos, black_pos: moved }
            },
        }
    }

    /// Deals with the cell `to`, which token `n` of side `to_move` reaches
    /// after `k` cells in direction `m`. Where a token of its own side holds
    /// the cell, the slide is blocked and the answer is `true`. Otherwise
    /// the answer is `false`, and where the token may rest on the cell, the
    /// board with the token there joins `next_boards`.
    fn land(
        &self,
        to_move: &Color,
        n: usize,
        to: Position,
        my_color_pieces: &[bool; 20],
        other_color_pieces: &[bool; 20],
        threatened: &[bool; 20],
        next_boards: &mut Vec<Board>,
        Ghost(m): Ghost<int>,
        Ghost(k): Ghost<int>,
    ) -> (blocked: bool)
        requires
            n < 4,
            0 <= m < 4,
            1 <= k <= 3,
            bitmaps_of(self@, *to_move, my_color_pieces@, other_color_pieces@, threatened@),
            to@ == shift(self@.side(*to_move)[n as int], direction_at(m), k),
            clear_way(self@, *to_move, self@.side(*to_move)[n as int], direction_at(m), k - 1),
            layouts(old(next_boards)@) == successors_among(
                self@,
                *to_move,
                (12 * n + 3 * m + k - 1) as nat,
            ),
        ensures
            blocked ==> !passable(self@, *to_move, to@) && final(next_boards)@ == old(
                next_boards,
            )@,
            !blocked ==> clear_way(
                self@,
                *to_move,
                self@.side(*to_move)[n as int],
                direction_at(m),
                k,
            ) && layouts(final(next_boards)@) == successors_among(
                self@,
                *to_move,
                (12 * n + 3 * m + k) as nat,
            ),
    {
        let new_index = to.as_usize();
        proof {
            use_type_invariant(&to);
            lemma_bitmaps_at(
                self@,
                *to_move,
                my_color_pieces@,
                other_color_pieces@,
                threatened@,
                to@,
            );
            lemma_extend(self@, *to_move, n as int, m, k);
        }
        if my_color_pieces[new_index] {
            return true;
        }
        if threatened[new_index] || other_color_pieces[new_index] {
            return false;
        }
        let board = self.with_token(to_move, n, to);
        proof {
            lemma_layouts_push(next_boards@, board);
        }
        next_boards.push(board);
        false
    }

    /// The boards that one move of side `to_move` leads to.
    ///
    /// Each token of that side slides along each of its four diagonals. The
    /// slide ends before the first cell that a token of its own side holds,
    /// and at the edge of the grid. Of the cells that it passes, the token
    /// may rest on those that the other side neither attacks nor holds.
    /// The boards come in the order of the tokens, then of the directions,
    /// then of the length of the slide; in each, the token that moved keeps
    /// its place among the tokens of its side.
    pub fn next_boards(&self, to_move: &Color) -> (r: Vec<Board>)
        ensures
            layouts(r@) == successors(self@, *to_move),
    {
        proof {
            use_type_invariant(self);
        }
        let ghost l = self@;
        let ghost s = *to_move;
        let mine = match to_move {
            Color::White => self.white_pos,
            Color::Black => self.black_pos,
        };
        assert(cells_of(mine@) == l.side(s));
        let my_color_pieces = self.get_array(to_move);
        let other_color_pieces = self.get_array(&to_move.invert());
        let threatened = self.threatened_array(&to_move.invert());
        let directions = Direction::get_directions();

        let mut next_boards: Vec<Board> = Vec::new();
        assert(layouts(next_boards@) == successors_among(l, s, 0));
        assert(bitmaps_of(l, s, my_color_pieces@, other_color_pieces@, threatened@)) by {
            reveal(bitmaps_of);
        }
        let mut n: usize = 0;
        while n < 4
            invariant
                n <= 4,
                l == self@,
                l.valid(),
                s == *to_move,
                cells_of(mine@) == l.side(s),
                forall|i: int| 0 <= i < 4 ==> directions@[i] == direction_at(i),
                bitmaps_of(l, s, my_color_pieces@, other_color_pieces@, threatened@),
                layouts(next_boards@) == successors_among(l, s, (12 * n) as nat),
            decreases 4 - n,
        {
            let pos = mine[n];
            let ghost a = pos@;
            assert(a == l.side(s)[n as int]) by {
                assert(cells_of(mine@)[n as int] == pos@);
            }
            let mut m: usize = 0;
            while m < 4
                invariant
                    m <= 4,
                    n < 4,
                    l == self@,
                    l.valid(),
                    s == *to_move,
                    a == pos@,
                    a == l.side(s)[n as int],
                    mine@[n as int] == pos,
                    cells_of(mine@) == l.side(s),
                    forall|i: int| 0 <= i < 4 ==> directions@[i] == direction_at(i),
                    bitmaps_of(l, s, my_color_pieces@, other_color_pieces@, threatened@),
                    layouts(next_boards@) == successors_among(l, s, (12 * n + 3 * m) as nat),
                decreases 4 - m,
            {
                let dir = directions[m];
                let mut moves = Moves::new(pos, dir);
                let ghost mut k: int = 0;
                loop
                    invariant_except_break
                        moves.pos@ == shift(a, dir, k),
                    invariant
                        0 <= k <= 3,
                        n < 4,
                        m < 4,
                        l == self@,
                        l.valid(),
                        s == *to_move,
                        a == l.side(s)[n as int],
                        dir == direction_at(m as int),
                        moves.dir == dir,
                        clear_way(l, s, a, dir, k),
                        bitmaps_of(l, s, my_color_pieces@, other_color_pieces@, threatened@),
                        layouts(next_boards@) == successors_among(
                            l,
                            s,
                            (12 * n + 3 * m + k) as nat,
                        ),
                    ensures
                        !passable(l, s, shift(a, dir, k + 1)),
                    decreases 3 - k,
                {
                    let valid_move = match moves.next() {
                        None => {
                            break ;
                        },
                        Some(valid_move) => valid_move,
                    };
                    proof {
                        lemma_ray_length(a, dir, k + 1);
                    }
                    let blocked = self.land(
                        to_move,
                        n,
                        valid_move,
                        &my_color_pieces,
                        &other_color_pieces,
                        &threatened,
                        &mut next_boards,
                        Ghost(m as int),
                        Ghost(k + 1),
                    );
                    if blocked {
                        break ;
                    }
                    proof {
                        k = k + 1;
                    }
                }
                proof {
                    lemma_stopped(l, s, n as int, m as int, k);
                }
                m += 1;
            }
            n += 1;
        }
        next_boards
    }
}

} // verus!
