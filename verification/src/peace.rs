use vstd::prelude::*;
use crate::color::Color;
use crate::grid::{on_diagonal, shade_of, Cell};
use crate::key::shade_count;
use crate::layout::{hits, initial_layout, Layout};
use crate::moves::{direction_at, shift, Direction};
use crate::successors::{is_move, legal, restful, slid};

verus! {

/// No white token shares a diagonal with a black token. The start of the
/// puzzle is such a layout and every move keeps it so.
pub open spec fn peaceful(l: Layout) -> bool {
    &&& !hits(l.black, l.white[0])
    &&& !hits(l.black, l.white[1])
    &&& !hits(l.black, l.white[2])
    &&& !hits(l.black, l.white[3])
}

/// The layout from which the puzzle starts is valid, balanced and peaceful.
pub proof fn lemma_initial_layout()
    ensures
        initial_layout().valid(),
        initial_layout().balanced(),
        peaceful(initial_layout()),
{
    reveal(shade_of);
    let l = initial_layout();
    assert(shade_count(l.white, Color::White) == 2);
    assert(shade_count(l.black, Color::White) == 2);
}

/// Sharing a diagonal goes both ways.
proof fn lemma_diagonal_both_ways(a: Cell, b: Cell)
    ensures
        on_diagonal(a, b) == on_diagonal(b, a),
{
}

/// A cell that a slide reaches shares a diagonal with the cell from which
/// the slide starts.
proof fn lemma_slide_on_diagonal(a: Cell, d: Direction, k: int)
    requires
        1 <= k,
    ensures
        on_diagonal(a, shift(a, d, k)),
{
}

/// In a peaceful layout no token of one side shares a diagonal with a token
/// of the other, whichever side is asked.
proof fn lemma_peace_both_ways(l: Layout, s: Color, i: int, j: int)
    requires
        l.sized(),
        peaceful(l),
        0 <= i < 4,
        0 <= j < 4,
    ensures
        !on_diagonal(l.side(s)[i], l.side(s.opposite())[j]),
{
    lemma_diagonal_both_ways(l.white[i], l.black[j]);
    lemma_diagonal_both_ways(l.black[i], l.white[j]);
    lemma_diagonal_both_ways(l.white[j], l.black[i]);
}

/// In a peaceful layout the cell at the end of a slide never holds a token
/// of the other side: what keeps a token from resting on a cell that it can
/// reach is an attack on that cell and nothing else.
pub proof fn lemma_no_capture(l: Layout, s: Color, j: int, d: Direction, k: int)
    requires
        l.valid(),
        peaceful(l),
        0 <= j < 4,
        1 <= k,
    ensures
        !l.occupies(s.opposite(), shift(l.side(s)[j], d, k)),
        restful(l, s, shift(l.side(s)[j], d, k)) == !l.attacked_by(
            s.opposite(),
            shift(l.side(s)[j], d, k),
        ),
{
    let a = l.side(s)[j];
    lemma_slide_on_diagonal(a, d, k);
    lemma_peace_both_ways(l, s, j, 0);
    lemma_peace_both_ways(l, s, j, 1);
    lemma_peace_both_ways(l, s, j, 2);
    lemma_peace_both_ways(l, s, j, 3);
}

/// A legal slide leads from a peaceful layout to a peaceful layout.
proof fn lemma_slide_keeps_peace(l: Layout, s: Color, j: int, d: Direction, k: int)
    requires
        l.valid(),
        peaceful(l),
        legal(l, s, j, d, k),
    ensures
        peaceful(slid(l, s, j, d, k)),
{
    let o = s.opposite();
    let c = shift(l.side(s)[j], d, k);
    let t = slid(l, s, j, d, k);
    assert(!hits(l.side(o), c));
    lemma_diagonal_both_ways(l.side(o)[0], c);
    lemma_diagonal_both_ways(l.side(o)[1], c);
    lemma_diagonal_both_ways(l.side(o)[2], c);
    lemma_diagonal_both_ways(l.side(o)[3], c);
    assert(t.side(s) == l.side(s).update(j, c));
    assert(t.side(o) == l.side(o));
}

/// A move leads from a peaceful layout to a peaceful layout.
pub proof fn lemma_move_keeps_peace(l: Layout, s: Color, t: Layout)
    requires
        l.valid(),
        peaceful(l),
        is_move(l, s, t),
    ensures
        peaceful(t),
{
    reveal(is_move);
    let (j, i, k) = choose|j: int, i: int, k: int|
        0 <= i < 4 && legal(l, s, j, direction_at(i), k) && t == #[trigger] slid(
            l,
            s,
            j,
            direction_at(i),
            k,
        );
    lemma_slide_keeps_peace(l, s, j, direction_at(i), k);
}

} // verus!
