use vstd::prelude::*;
use crate::grid::{in_grid, on_diagonal, Cell};
use crate::position::Position;

verus! {

/// The four diagonal directions. Ranks grow downwards: "upper" is towards
/// rank 0, "left" towards file 0.
#[derive(Clone, Copy, Debug, PartialEq, Eq, Structural)]
pub enum Direction {
    UpperLeft,
    UpperRight,
    LowerLeft,
    LowerRight,
}

/// The cell `k` diagonal steps away from `c` in direction `d`.
pub open spec fn shift(c: Cell, d: Direction, k: int) -> Cell {
    match d {
        Direction::UpperLeft => (c.0 - k, c.1 - k),
        Direction::UpperRight => (c.0 + k, c.1 - k),
        Direction::LowerLeft => (c.0 - k, c.1 + k),
        Direction::LowerRight => (c.0 + k, c.1 + k),
    }
}

/// The direction at a given place of the order in which the directions are
/// tried.
pub open spec fn direction_at(i: int) -> Direction {
    if i == 0 {
        Direction::UpperLeft
    } else if i == 1 {
        Direction::UpperRight
    } else if i == 2 {
        Direction::LowerLeft
    } else {
        Direction::LowerRight
    }
}

/// `c` is one of the first `n` cells of the ray from `a` in direction `d`.
/// No ray on this grid is longer than three cells.
pub open spec fn on_ray(a: Cell, d: Direction, n: int, c: Cell) -> bool {
    ||| n >= 1 && c == shift(a, d, 1)
    ||| n >= 2 && c == shift(a, d, 2)
    ||| n >= 3 && c == shift(a, d, 3)
}

/// `c` is a cell of one of the first `n` rays from `a`.
pub open spec fn on_rays(a: Cell, n: int, c: Cell) -> bool {
    ||| n > 0 && on_ray(a, direction_at(0), 3, c)
    ||| n > 1 && on_ray(a, direction_at(1), 3, c)
    ||| n > 2 && on_ray(a, direction_at(2), 3, c)
    ||| n > 3 && on_ray(a, direction_at(3), 3, c)
}

impl Direction {
    /// The four directions in the order in which they are tried.
    pub fn get_directions() -> (r: [Direction; 4])
        ensures
            forall|i: int| 0 <= i < 4 ==> r@[i] == direction_at(i),
    {
        [
            Direction::UpperLeft,
            Direction::UpperRight,
            Direction::LowerLeft,
            Direction::LowerRight,
        ]
    }
}

/// The cells that a token passes when it slides from a cell in one direction.
/// It holds the cell reached so far and is used up when the edge is reached.
pub struct Moves {
    pub pos: Position,
    pub dir: Direction,
}

impl Moves {
    /// A slide that starts at `pos` and heads in direction `dir`.
    pub fn new(pos: Position, dir: Direction) -> (r: Moves)
        ensures
            r.pos == pos,
            r.dir == dir,
    {
        Moves { pos, dir }
    }

    /// The next cell of the slide: one step further, while that is on the
    /// grid. At the edge the answer is `None` and the slide stays where it is.
    pub fn next(&mut self) -> (r: Option<Position>)
        ensures
            final(self).dir == old(self).dir,
            match r {
                Some(p) => {
                    &&& p@ == shift(old(self).pos@, old(self).dir, 1)
                    &&& in_grid(p@)
                    &&& final(self).pos == p
                },
                None => {
                    &&& !in_grid(shift(old(self).pos@, old(self).dir, 1))
                    &&& final(self).pos == old(self).pos
                },
            },
    {
        let p = self.pos;
        proof {
            use_type_invariant(&p);
        }
        let x: u8 = p.x();
        let y: u8 = p.y();
        let (left, up): (bool, bool) = match self.dir {
            Direction::UpperLeft => (true, true),
            Direction::UpperRight => (false, true),
            Direction::LowerLeft => (true, false),
            Direction::LowerRight => (false, false),
        };
        if (left && x == 0) || (!left && x >= 4) || (up && y == 0) || (!up && y >= 3) {
            None
        } else {
            let nx: u8 = if left { x - 1 } else { x + 1 };
            let ny: u8 = if up { y - 1 } else { y + 1 };
            let q = Position { x: nx, y: ny };
            self.pos = q;
            Some(q)
        }
    }
}

/// On the grid the four rays from a cell are its diagonals.
pub proof fn lemma_rays_are_diagonals(a: Cell, c: Cell)
    requires
        in_grid(a),
        in_grid(c),
    ensures
        on_rays(a, 4, c) <==> on_diagonal(a, c),
{
}

/// A ray that has left the grid does not come back.
pub proof fn lemma_ray_leaves(a: Cell, d: Direction, k: int, c: Cell)
    requires
        in_grid(a),
        in_grid(c),
        0 <= k,
        !in_grid(shift(a, d, k + 1)),
    ensures
        on_ray(a, d, 3, c) <==> on_ray(a, d, k, c),
{
}

/// A ray stays on the grid for three steps at most.
pub proof fn lemma_ray_length(a: Cell, d: Direction, k: int)
    requires
        in_grid(a),
        in_grid(shift(a, d, k)),
        0 <= k,
    ensures
        k <= 3,
{
}

/// The cells that a slide passes are the cells on a diagonal of its start:
/// a cell lies on a common diagonal with `a` exactly if some number of steps
/// in one of the four directions leads from `a` to it.
pub proof fn lemma_diagonal_is_slide(a: Cell, b: Cell)
    ensures
        on_diagonal(a, b) <==> exists|i: int, k: int|
            0 <= i < 4 && 1 <= k && b == #[trigger] shift(a, direction_at(i), k),
{
    if on_diagonal(a, b) {
        if a.0 - b.0 == a.1 - b.1 {
            if a.0 > b.0 {
                assert(b == shift(a, direction_at(0), a.0 - b.0));
            } else {
                assert(b == shift(a, direction_at(3), b.0 - a.0));
            }
        } else {
            if a.0 > b.0 {
                assert(b == shift(a, direction_at(2), a.0 - b.0));
            } else {
                assert(b == shift(a, direction_at(1), b.0 - a.0));
            }
        }
    }
}

} // verus!
