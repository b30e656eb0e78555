use vstd::prelude::*;
use crate::color::Color;
use crate::grid::{
    cell_of_compact, compact_of, in_grid, lemma_cell_of_compact, lemma_compact_round_trip, shade_of,
    Cell,
};
use crate::key::{
    code_in_range, decode, decode_raw, decode_side, high_among, lemma_group_range,
    lemma_key_range, low_among, shade_count, side_code,
};
use crate::layout::{all_in_grid, disjoint, hits, holds, no_repeat, Layout};
use crate::moves::{direction_at, shift, Direction};
use crate::successors::{clear_way, is_move, legal, passable, restful, slid};

verus! {

/// A slide keeps the shade of the cell.
pub proof fn lemma_shift_keeps_shade(a: Cell, d: Direction, k: int)
    ensures
        shade_of(shift(a, d, k)) == shade_of(a),
{
    reveal(shade_of);
}

/// With one of four tokens on another cell of the same shade, as many
/// tokens stand on each shade as before.
proof fn lemma_count_after_move(tokens: Seq<Cell>, j: int, c: Cell, sh: Color)
    requires
        tokens.len() == 4,
        0 <= j < 4,
        shade_of(c) == shade_of(tokens[j]),
    ensures
        shade_count(tokens.update(j, c), sh) == shade_count(tokens, sh),
{
}

/// A legal slide leads from a valid layout to a valid layout.
proof fn lemma_slide_keeps_valid(l: Layout, s: Color, j: int, d: Direction, k: int)
    requires
        l.valid(),
        legal(l, s, j, d, k),
    ensures
        slid(l, s, j, d, k).valid(),
{
    let a = l.side(s)[j];
    let c = shift(a, d, k);
    assert(passable(l, s, c));
    assert(restful(l, s, c));
}

/// A legal slide leads from a balanced layout to a balanced layout.
proof fn lemma_slide_keeps_balance(l: Layout, s: Color, j: int, d: Direction, k: int)
    requires
        l.sized(),
        l.balanced(),
        0 <= j < 4,
    ensures
        slid(l, s, j, d, k).balanced(),
{
    let a = l.side(s)[j];
    lemma_shift_keeps_shade(a, d, k);
    lemma_count_after_move(l.side(s), j, shift(a, d, k), Color::White);
}

/// A move leads from a valid layout to a valid layout.
pub proof fn lemma_move_keeps_valid(l: Layout, s: Color, t: Layout)
    requires
        l.valid(),
        is_move(l, s, t),
    ensures
        t.valid(),
{
    reveal(is_move);
    let (j, i, k) = choose|j: int, i: int, k: int|
        0 <= i < 4 && legal(l, s, j, direction_at(i), k) && t == #[trigger] slid(
            l,
            s,
            j,
            direction_at(i),
            k,
        );
    lemma_slide_keeps_valid(l, s, j, direction_at(i), k);
}

/// A move keeps a layout valid and balanced: a token stays on its shade.
pub proof fn lemma_move_keeps_balance(l: Layout, s: Color, t: Layout)
    requires
        l.valid(),
        l.balanced(),
        is_move(l, s, t),
    ensures
        t.valid(),
        t.balanced(),
{
    reveal(is_move);
    let (j, i, k) = choose|j: int, i: int, k: int|
        0 <= i < 4 && legal(l, s, j, direction_at(i), k) && t == #[trigger] slid(
            l,
            s,
            j,
            direction_at(i),
            k,
        );
    lemma_slide_keeps_valid(l, s, j, direction_at(i), k);
    lemma_slide_keeps_balance(l, s, j, direction_at(i), k);
}

/// Every token of the group `x` stands on a cell on which a token of the
/// group `y` stands.
pub open spec fn within(x: Seq<Cell>, y: Seq<Cell>) -> bool {
    holds(y, x[0]) && holds(y, x[1]) && holds(y, x[2]) && holds(y, x[3])
}

/// Two layouts occupy the same cells exactly if, on either side, each token
/// of the one stands where a token of the other stands.
pub proof fn lemma_same_cells(a: Layout, b: Layout)
    ensures
        a.same_cells(b) <==> {
            &&& within(a.white, b.white)
            &&& within(b.white, a.white)
            &&& within(a.black, b.black)
            &&& within(b.black, a.black)
        },
{
    let aw = a.cells(Color::White);
    let bw = b.cells(Color::White);
    let ab = a.cells(Color::Black);
    let bb = b.cells(Color::Black);
    if a.same_cells(b) {
        assert(aw.contains(a.white[0]) && aw.contains(a.white[1]) && aw.contains(a.white[2])
            && aw.contains(a.white[3]));
        assert(bw.contains(b.white[0]) && bw.contains(b.white[1]) && bw.contains(b.white[2])
            && bw.contains(b.white[3]));
        assert(ab.contains(a.black[0]) && ab.contains(a.black[1]) && ab.contains(a.black[2])
            && ab.contains(a.black[3]));
        assert(bb.contains(b.black[0]) && bb.contains(b.black[1]) && bb.contains(b.black[2])
            && bb.contains(b.black[3]));
    }
    if within(a.white, b.white) && within(b.white, a.white) && within(a.black, b.black) && within(
        b.black,
        a.black,
    ) {
        assert(aw =~= bw);
        assert(ab =~= bb);
    }
}

/// Where each token of `x` stands on a cell of `y`, the largest number in
/// `x` is no larger than that in `y`, and the smallest no smaller.
proof fn lemma_within_bounds(x: Seq<Cell>, y: Seq<Cell>, sh: Color)
    requires
        all_in_grid(x),
        all_in_grid(y),
        within(x, y),
    ensures
        high_among(x, sh, 4) <= high_among(y, sh, 4),
        low_among(x, sh, 4) >= low_among(y, sh, 4),
{
}

/// The code of a side depends on the cells of its tokens alone.
proof fn lemma_same_group_same_code(x: Seq<Cell>, y: Seq<Cell>)
    requires
        all_in_grid(x),
        all_in_grid(y),
        within(x, y),
        within(y, x),
    ensures
        side_code(x) == side_code(y),
{
    lemma_within_bounds(x, y, Color::White);
    lemma_within_bounds(y, x, Color::White);
    lemma_within_bounds(x, y, Color::Black);
    lemma_within_bounds(y, x, Color::Black);
}

/// The key depends on the cells that each side occupies and not on the
/// order of the tokens: two valid layouts that occupy the same cells have
/// the same key.
pub proof fn lemma_same_cells_same_key(a: Layout, b: Layout)
    requires
        a.valid(),
        b.valid(),
        a.same_cells(b),
    ensures
        a.key() == b.key(),
{
    reveal(Layout::key);
    lemma_same_cells(a, b);
    lemma_same_group_same_code(a.white, b.white);
    lemma_same_group_same_code(a.black, b.black);
}

/// Two cells of the grid with the same shade have the same number only if
/// they are one cell.
proof fn lemma_number_tells_cell(a: Cell, b: Cell)
    requires
        in_grid(a),
        in_grid(b),
        shade_of(a) == shade_of(b),
    ensures
        compact_of(a) == compact_of(b) ==> a == b,
{
    lemma_compact_round_trip(a);
    lemma_compact_round_trip(b);
}

/// Where two of four tokens stand on shade `sh`, the eight bits of that
/// shade hold their two numbers, and these name their two cells.
proof fn lemma_balanced_group(tokens: Seq<Cell>, sh: Color)
    requires
        tokens.len() == 4,
        all_in_grid(tokens),
        no_repeat(tokens),
        shade_count(tokens, sh) == 2,
    ensures
        0 <= low_among(tokens, sh, 4) < high_among(tokens, sh, 4) < 10,
        holds(tokens, cell_of_compact(sh, high_among(tokens, sh, 4))),
        holds(tokens, cell_of_compact(sh, low_among(tokens, sh, 4))),
        forall|i: int|
            0 <= i < 4 && shade_of(#[trigger] tokens[i]) == sh ==> {
                ||| tokens[i] == cell_of_compact(sh, high_among(tokens, sh, 4))
                ||| tokens[i] == cell_of_compact(sh, low_among(tokens, sh, 4))
            },
{
    lemma_compact_round_trip(tokens[0]);
    lemma_compact_round_trip(tokens[1]);
    lemma_compact_round_trip(tokens[2]);
    lemma_compact_round_trip(tokens[3]);
    if shade_of(tokens[0]) == sh && shade_of(tokens[1]) == sh {
        lemma_number_tells_cell(tokens[0], tokens[1]);
    }
    if shade_of(tokens[0]) == sh && shade_of(tokens[2]) == sh {
        lemma_number_tells_cell(tokens[0], tokens[2]);
    }
    if shade_of(tokens[0]) == sh && shade_of(tokens[3]) == sh {
        lemma_number_tells_cell(tokens[0], tokens[3]);
    }
    if shade_of(tokens[1]) == sh && shade_of(tokens[2]) == sh {
        lemma_number_tells_cell(tokens[1], tokens[2]);
    }
    if shade_of(tokens[1]) == sh && shade_of(tokens[3]) == sh {
        lemma_number_tells_cell(tokens[1], tokens[3]);
    }
    if shade_of(tokens[2]) == sh && shade_of(tokens[3]) == sh {
        lemma_number_tells_cell(tokens[2], tokens[3]);
    }
}

/// The four numbers in the code of a side are the largest and the smallest
/// number on white cells and on black cells.
proof fn lemma_code_parts(tokens: Seq<Cell>)
    requires
        all_in_grid(tokens),
    ensures
        0 <= side_code(tokens) < 0x1_0000,
        side_code(tokens) / 4096 % 16 == high_among(tokens, Color::White, 4),
        side_code(tokens) / 256 % 16 == low_among(tokens, Color::White, 4),
        side_code(tokens) / 16 % 16 == high_among(tokens, Color::Black, 4),
        side_code(tokens) % 16 == low_among(tokens, Color::Black, 4),
{
    lemma_group_range(tokens, Color::White);
    lemma_group_range(tokens, Color::Black);
    lemma_four_numbers(
        high_among(tokens, Color::White, 4),
        low_among(tokens, Color::White, 4),
        high_among(tokens, Color::Black, 4),
        low_among(tokens, Color::Black, 4),
    );
}

/// Four numbers below sixteen are found again in the sixteen bits that pack
/// them.
proof fn lemma_four_numbers(a: int, b: int, c: int, d: int)
    requires
        0 <= a < 16,
        0 <= b < 16,
        0 <= c < 16,
        0 <= d < 16,
    ensures
        ({
            let code = 256 * (16 * a + b) + (16 * c + d);
            &&& 0 <= code < 0x1_0000
            &&& code / 4096 % 16 == a
            &&& code / 256 % 16 == b
            &&& code / 16 % 16 == c
            &&& code % 16 == d
        }),
{
}

/// The code of a balanced side stands for the cells of its tokens.
proof fn lemma_side_round_trip(tokens: Seq<Cell>)
    requires
        tokens.len() == 4,
        all_in_grid(tokens),
        no_repeat(tokens),
        shade_count(tokens, Color::White) == 2,
    ensures
        code_in_range(side_code(tokens)),
        all_in_grid(decode_side(side_code(tokens))),
        no_repeat(decode_side(side_code(tokens))),
        within(tokens, decode_side(side_code(tokens))),
        within(decode_side(side_code(tokens)), tokens),
{
    assert(shade_count(tokens, Color::Black) == 2);
    lemma_code_parts(tokens);
    lemma_balanced_group(tokens, Color::White);
    lemma_balanced_group(tokens, Color::Black);
    let back = decode_side(side_code(tokens));
    let wh = high_among(tokens, Color::White, 4);
    let wl = low_among(tokens, Color::White, 4);
    let bh = high_among(tokens, Color::Black, 4);
    let bl = low_among(tokens, Color::Black, 4);
    assert(back[0] == cell_of_compact(Color::White, wh));
    assert(back[1] == cell_of_compact(Color::White, wl));
    assert(back[2] == cell_of_compact(Color::Black, bh));
    assert(back[3] == cell_of_compact(Color::Black, bl));
    lemma_cell_of_compact(Color::White, wh);
    lemma_cell_of_compact(Color::White, wl);
    lemma_cell_of_compact(Color::Black, bh);
    lemma_cell_of_compact(Color::Black, bl);
    assert(holds(back, tokens[0]));
    assert(holds(back, tokens[1]));
    assert(holds(back, tokens[2]));
    assert(holds(back, tokens[3]));
}

/// The key of a layout splits into the codes of its two sides.
proof fn lemma_key_parts(l: Layout)
    requires
        l.valid(),
    ensures
        l.key() / 65536 == side_code(l.white),
        l.key() % 65536 == side_code(l.black),
{
    reveal(Layout::key);
    lemma_key_range(l);
}

/// Decoding the key of a valid and balanced layout gives a valid layout in
/// which each side occupies the same cells, and which has the same key.
pub proof fn lemma_decode_encode(l: Layout)
    requires
        l.valid(),
        l.balanced(),
    ensures
        decode(l.key()) is Ok,
        decode(l.key())->Ok_0.valid(),
        decode(l.key())->Ok_0.same_cells(l),
        decode(l.key())->Ok_0.key() == l.key(),
{
    lemma_key_parts(l);
    lemma_side_round_trip(l.white);
    lemma_side_round_trip(l.black);
    let t = decode_raw(l.key());
    assert(t.white == decode_side(side_code(l.white)));
    assert(t.black == decode_side(side_code(l.black)));
    assert(disjoint(t.white, t.black));
    lemma_same_cells(t, l);
    lemma_same_cells_same_key(t, l);
}

/// Two groups of four different tokens on the same cells have as many tokens
/// on each shade.
proof fn lemma_same_cells_same_count(x: Seq<Cell>, y: Seq<Cell>, sh: Color)
    requires
        x.len() == 4,
        y.len() == 4,
        no_repeat(x),
        no_repeat(y),
        within(x, y),
        within(y, x),
    ensures
        shade_count(x, sh) == shade_count(y, sh),
{
}

/// What a side code stands for has two tokens on white cells and two on
/// black cells.
proof fn lemma_decoded_side_balanced(code: int)
    requires
        code_in_range(code),
        0 <= code,
    ensures
        shade_count(decode_side(code), Color::White) == 2,
{
    lemma_cell_of_compact(Color::White, code / 4096 % 16);
    lemma_cell_of_compact(Color::White, code / 256 % 16);
    lemma_cell_of_compact(Color::Black, code / 16 % 16);
    lemma_cell_of_compact(Color::Black, code % 16);
}

/// Only a balanced layout comes back from its key: where decoding the key
/// of a valid layout gives a layout on the same cells, the layout is
/// balanced.
pub proof fn lemma_round_trip_needs_balance(l: Layout)
    requires
        l.valid(),
        decode(l.key()) is Ok,
        decode(l.key())->Ok_0.same_cells(l),
    ensures
        l.balanced(),
{
    lemma_key_range(l);
    let k = l.key();
    let t = decode_raw(k);
    assert(t == decode(k)->Ok_0);
    lemma_decoded_side_balanced(k / 65536);
    lemma_decoded_side_balanced(k % 65536);
    lemma_same_cells(t, l);
    lemma_same_cells_same_count(t.white, l.white, Color::White);
    lemma_same_cells_same_count(t.black, l.black, Color::White);
}

/// Where the largest number on a shade is above the smallest, two tokens at
/// least stand on that shade.
proof fn lemma_two_on_shade(tokens: Seq<Cell>, sh: Color)
    requires
        all_in_grid(tokens),
        low_among(tokens, sh, 4) < high_among(tokens, sh, 4),
    ensures
        shade_count(tokens, sh) >= 2,
{
    lemma_compact_round_trip(tokens[0]);
    lemma_compact_round_trip(tokens[1]);
    lemma_compact_round_trip(tokens[2]);
    lemma_compact_round_trip(tokens[3]);
}

/// The largest number on either shade of a balanced side is above the
/// smallest.
proof fn lemma_balanced_spread(tokens: Seq<Cell>)
    requires
        tokens.len() == 4,
        all_in_grid(tokens),
        no_repeat(tokens),
        shade_count(tokens, Color::White) == 2,
    ensures
        low_among(tokens, Color::White, 4) < high_among(tokens, Color::White, 4),
        low_among(tokens, Color::Black, 4) < high_among(tokens, Color::Black, 4),
{
    assert(shade_count(tokens, Color::Black) == 2);
    lemma_balanced_group(tokens, Color::White);
    lemma_balanced_group(tokens, Color::Black);
}

/// A side with the code of a balanced side is balanced.
proof fn lemma_code_tells_balance(x: Seq<Cell>, y: Seq<Cell>)
    requires
        x.len() == 4,
        y.len() == 4,
        all_in_grid(x),
        all_in_grid(y),
        no_repeat(x),
        shade_count(x, Color::White) == 2,
        side_code(x) == side_code(y),
    ensures
        shade_count(y, Color::White) == 2,
{
    lemma_code_parts(x);
    lemma_code_parts(y);
    lemma_balanced_spread(x);
    lemma_two_on_shade(y, Color::White);
    lemma_two_on_shade(y, Color::Black);
    assert(shade_count(y, Color::White) + shade_count(y, Color::Black) == 4);
}

/// Standing on the cells of another group carries over.
proof fn lemma_within_twice(x: Seq<Cell>, m: Seq<Cell>, y: Seq<Cell>)
    requires
        within(x, m),
        within(m, y),
    ensures
        within(x, y),
{
}

/// A side with the code of a balanced side is balanced and occupies the same
/// cells.
proof fn lemma_code_tells_cells(x: Seq<Cell>, y: Seq<Cell>)
    requires
        x.len() == 4,
        y.len() == 4,
        all_in_grid(x),
        all_in_grid(y),
        no_repeat(x),
        no_repeat(y),
        shade_count(x, Color::White) == 2,
        side_code(x) == side_code(y),
    ensures
        shade_count(y, Color::White) == 2,
        within(x, y),
        within(y, x),
{
    lemma_code_tells_balance(x, y);
    lemma_side_round_trip(x);
    lemma_side_round_trip(y);
    let m = decode_side(side_code(x));
    lemma_within_twice(x, m, y);
    lemma_within_twice(y, m, x);
}

/// The key tells balanced layouts apart: a valid layout with the key of a
/// valid and balanced layout is balanced too, and each side occupies the
/// same cells in both.
pub proof fn lemma_key_tells_cells(a: Layout, b: Layout)
    requires
        a.valid(),
        a.balanced(),
        b.valid(),
        a.key() == b.key(),
    ensures
        b.balanced(),
        a.same_cells(b),
{
    lemma_key_parts(a);
    lemma_key_parts(b);
    lemma_code_tells_cells(a.white, b.white);
    lemma_code_tells_cells(a.black, b.black);
    lemma_same_cells(a, b);
}

/// A cell of the group `x` is a cell of every group that `x` stands within.
proof fn lemma_holds_within(x: Seq<Cell>, y: Seq<Cell>, c: Cell)
    requires
        within(x, y),
        holds(x, c),
    ensures
        holds(y, c),
{
}

/// A cell that the group `x` attacks is attacked by every group that `x`
/// stands within.
proof fn lemma_hits_within(x: Seq<Cell>, y: Seq<Cell>, c: Cell)
    requires
        within(x, y),
        hits(x, c),
    ensures
        hits(y, c),
{
}

/// The place of a cell among four tokens.
spec fn place_of(tokens: Seq<Cell>, c: Cell) -> int {
    if tokens[0] == c {
        0
    } else if tokens[1] == c {
        1
    } else if tokens[2] == c {
        2
    } else {
        3
    }
}

/// Two groups on the same cells stay on the same cells when in each the
/// token on one cell goes to one other cell.
proof fn lemma_update_within(x: Seq<Cell>, y: Seq<Cell>, i: int, j: int, c: Cell)
    requires
        x.len() == 4,
        y.len() == 4,
        no_repeat(x),
        within(x, y),
        0 <= i < 4,
        0 <= j < 4,
        x[i] == y[j],
    ensures
        within(x.update(i, c), y.update(j, c)),
{
}

/// A cell is passable in one of two layouts on the same cells exactly if it
/// is in the other.
proof fn lemma_passable_same(a: Layout, b: Layout, s: Color, c: Cell)
    requires
        within(a.side(s), b.side(s)),
        passable(b, s, c),
    ensures
        passable(a, s, c),
{
    if holds(a.side(s), c) {
        lemma_holds_within(a.side(s), b.side(s), c);
    }
}

/// A slide that is legal in one of two valid layouts on the same cells is
/// legal in the other, for the token on the same cell, and leads to layouts
/// on the same cells.
proof fn lemma_same_cells_same_slide(
    a: Layout,
    b: Layout,
    s: Color,
    j: int,
    d: Direction,
    k: int,
) -> (i: int)
    requires
        a.valid(),
        b.valid(),
        a.same_cells(b),
        legal(b, s, j, d, k),
    ensures
        legal(a, s, i, d, k),
        slid(a, s, i, d, k).same_cells(slid(b, s, j, d, k)),
{
    lemma_same_cells(a, b);
    let o = s.opposite();
    assert(within(a.side(s), b.side(s)) && within(b.side(s), a.side(s)));
    assert(within(a.side(o), b.side(o)) && within(b.side(o), a.side(o)));
    let p = b.side(s)[j];
    let i = place_of(a.side(s), p);
    assert(holds(a.side(s), p));
    assert(a.side(s)[i] == p);
    let c = shift(p, d, k);
    if k >= 1 {
        lemma_passable_same(a, b, s, shift(p, d, 1));
    }
    if k >= 2 {
        lemma_passable_same(a, b, s, shift(p, d, 2));
    }
    if k >= 3 {
        lemma_passable_same(a, b, s, shift(p, d, 3));
    }
    assert(clear_way(a, s, p, d, k));
    if hits(a.side(o), c) {
        lemma_hits_within(a.side(o), b.side(o), c);
    }
    if holds(a.side(o), c) {
        lemma_holds_within(a.side(o), b.side(o), c);
    }
    assert(restful(a, s, c));
    let u = slid(a, s, i, d, k);
    let t = slid(b, s, j, d, k);
    lemma_update_within(a.side(s), b.side(s), i, j, c);
    lemma_update_within(b.side(s), a.side(s), j, i, c);
    assert(u.side(s) == a.side(s).update(i, c));
    assert(t.side(s) == b.side(s).update(j, c));
    assert(u.side(o) == a.side(o));
    assert(t.side(o) == b.side(o));
    lemma_same_cells(u, t);
    i
}

/// In two valid layouts on the same cells the same moves are legal: a move
/// from the one has a move from the other beside it that leads to the same
/// cells.
pub proof fn lemma_same_cells_same_moves(a: Layout, b: Layout, s: Color, t: Layout)
    requires
        a.valid(),
        b.valid(),
        a.same_cells(b),
        is_move(b, s, t),
    ensures
        exists|u: Layout| #[trigger] is_move(a, s, u) && u.same_cells(t) && u.valid() && t.valid(),
{
    reveal(is_move);
    let (j, n, k) = choose|j: int, n: int, k: int|
        0 <= n < 4 && legal(b, s, j, direction_at(n), k) && t == #[trigger] slid(
            b,
            s,
            j,
            direction_at(n),
            k,
        );
    let d = direction_at(n);
    let i = lemma_same_cells_same_slide(a, b, s, j, d, k);
    let u = slid(a, s, i, d, k);
    lemma_slide_keeps_valid(a, s, i, d, k);
    lemma_slide_keeps_valid(b, s, j, d, k);
    assert(0 <= n < 4 && legal(a, s, i, direction_at(n), k) && u == slid(
        a,
        s,
        i,
        direction_at(n),
        k,
    ));
    assert(is_move(a, s, u));
}

/// Two valid layouts with the same key, one of them balanced, have moves to
/// the same keys.
pub proof fn lemma_same_key_same_moves(a: Layout, b: Layout, s: Color, t: Layout)
    requires
        a.valid(),
        a.balanced(),
        b.valid(),
        a.key() == b.key(),
        is_move(b, s, t),
    ensures
        exists|u: Layout| #[trigger] is_move(a, s, u) && u.key() == t.key(),
{
    lemma_key_tells_cells(a, b);
    lemma_same_cells_same_moves(a, b, s, t);
    let u = choose|u: Layout| #[trigger]
        is_move(a, s, u) && u.same_cells(t) && u.valid() && t.valid();
    lemma_same_cells_same_key(u, t);
}

} // verus!
