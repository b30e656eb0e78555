use vstd::prelude::*;
use crate::board::{cells_of, Board};
use crate::color::Color;
use crate::error::BoardError;
use crate::grid::{
    cell_of_compact, compact_of, in_grid, lemma_compact_round_trip, shade_of, Cell,
};
use crate::layout::{all_in_grid, Layout};
use crate::position::Position;

verus! {

/// The larger of two integers.
pub open spec fn larger(a: int, b: int) -> int {
    if a >= b {
        a
    } else {
        b
    }
}

/// The smaller of two integers.
pub open spec fn smaller(a: int, b: int) -> int {
    if a <= b {
        a
    } else {
        b
    }
}

/// The number of a cell among the cells of shade `sh`, or `other` if the
/// cell has the other shade.
pub open spec fn number_in(c: Cell, sh: Color, other: int) -> int {
    if shade_of(c) == sh {
        compact_of(c)
    } else {
        other
    }
}

/// The largest number that a token on shade `sh` has, among the first `n` of
/// four tokens; 0 where none of them stands on that shade.
pub open spec fn high_among(tokens: Seq<Cell>, sh: Color, n: int) -> int {
    let a = if n > 0 { number_in(tokens[0], sh, 0) } else { 0 };
    let b = if n > 1 { number_in(tokens[1], sh, 0) } else { 0 };
    let c = if n > 2 { number_in(tokens[2], sh, 0) } else { 0 };
    let d = if n > 3 { number_in(tokens[3], sh, 0) } else { 0 };
    larger(larger(a, b), larger(c, d))
}

/// The smallest number that a token on shade `sh` has, among the first `n`
/// of four tokens; 15 where none of them stands on that shade.
pub open spec fn low_among(tokens: Seq<Cell>, sh: Color, n: int) -> int {
    let a = if n > 0 { number_in(tokens[0], sh, 15) } else { 15 };
    let b = if n > 1 { number_in(tokens[1], sh, 15) } else { 15 };
    let c = if n > 2 { number_in(tokens[2], sh, 15) } else { 15 };
    let d = if n > 3 { number_in(tokens[3], sh, 15) } else { 15 };
    smaller(smaller(a, b), smaller(c, d))
}

/// Eight bits for the tokens of one side on one shade: the largest of their
/// numbers in the upper four bits, the smallest in the lower four. Where two
/// tokens stand on the shade, these are their two numbers, whatever the
/// order of the tokens.
pub open spec fn group(tokens: Seq<Cell>, sh: Color) -> int {
    16 * high_among(tokens, sh, 4) + low_among(tokens, sh, 4)
}

/// Sixteen bits for one side: the group of the white cells above the group
/// of the black cells.
pub open spec fn side_code(tokens: Seq<Cell>) -> int {
    256 * group(tokens, Color::White) + group(tokens, Color::Black)
}

/// How many of four tokens stand on shade `sh`.
pub open spec fn shade_count(tokens: Seq<Cell>, sh: Color) -> int {
    (if shade_of(tokens[0]) == sh { 1int } else { 0 })
    + (if shade_of(tokens[1]) == sh { 1int } else { 0 })
    + (if shade_of(tokens[2]) == sh { 1int } else { 0 })
    + (if shade_of(tokens[3]) == sh { 1int } else { 0 })
}

impl Layout {
    /// The key of a layout: the code of the white side above the code of the
    /// black side. It depends on the cells that each side occupies and not
    /// on the order of the tokens.
    #[verifier::opaque]
    pub open spec fn key(self) -> int {
        65536 * side_code(self.white) + side_code(self.black)
    }

    /// Each side has two tokens on white cells and two on black cells. A
    /// move keeps this, and the key tells two such layouts apart.
    pub open spec fn balanced(self) -> bool {
        shade_count(self.white, Color::White) == 2 && shade_count(self.black, Color::White) == 2
    }
}

/// The four tokens that a side code stands for: two on white cells, then two
/// on black cells.
pub open spec fn decode_side(code: int) -> Seq<Cell> {
    seq![
        cell_of_compact(Color::White, code / 4096 % 16),
        cell_of_compact(Color::White, code / 256 % 16),
        cell_of_compact(Color::Black, code / 16 % 16),
        cell_of_compact(Color::Black, code % 16),
    ]
}

/// Each of the four numbers in a side code is below ten, so that it names a
/// cell.
pub open spec fn code_in_range(code: int) -> bool {
    &&& code / 4096 % 16 < 10
    &&& code / 256 % 16 < 10
    &&& code / 16 % 16 < 10
    &&& code % 16 < 10
}

/// The layout that a key stands for, before any check.
pub open spec fn decode_raw(k: int) -> Layout {
    Layout { white: decode_side(k / 65536), black: decode_side(k % 65536) }
}

/// The layout that a key stands for. A number of ten or more names no cell;
/// otherwise the eight cells must differ.
pub open spec fn decode(k: int) -> Result<Layout, BoardError> {
    if !code_in_range(k / 65536) || !code_in_range(k % 65536) {
        Err(BoardError::OutOfRange)
    } else if !decode_raw(k).distinct() {
        Err(BoardError::InvariantViolation)
    } else {
        Ok(decode_raw(k))
    }
}

/// The number of a cell of the grid is below ten.
proof fn lemma_number_range(c: Cell, sh: Color)
    requires
        in_grid(c),
    ensures
        0 <= number_in(c, sh, 0) < 10,
        0 <= number_in(c, sh, 15) <= 15,
{
    lemma_compact_round_trip(c);
}

/// A group of tokens on the grid fits in eight bits, a side in sixteen.
pub proof fn lemma_group_range(tokens: Seq<Cell>, sh: Color)
    requires
        all_in_grid(tokens),
    ensures
        0 <= high_among(tokens, sh, 4) < 10,
        0 <= low_among(tokens, sh, 4) <= 15,
        0 <= group(tokens, sh) < 256,
{
    lemma_number_range(tokens[0], sh);
    lemma_number_range(tokens[1], sh);
    lemma_number_range(tokens[2], sh);
    lemma_number_range(tokens[3], sh);
}

/// The key of a layout with its tokens on the grid fits in 32 bits.
pub proof fn lemma_key_range(l: Layout)
    requires
        l.valid(),
    ensures
        0 <= side_code(l.white) < 0x1_0000,
        0 <= side_code(l.black) < 0x1_0000,
        0 <= l.key() < 0x1_0000_0000,
{
    reveal(Layout::key);
    lemma_group_range(l.white, Color::White);
    lemma_group_range(l.white, Color::Black);
    lemma_group_range(l.black, Color::White);
    lemma_group_range(l.black, Color::Black);
}

/// Takes one more number into the largest and the smallest seen so far.
fn update(hi: &mut u32, lo: &mut u32, val: u32)
    ensures
        *final(hi) == larger(*old(hi) as int, val as int),
        *final(lo) == smaller(*old(lo) as int, val as int),
{
    if val > *hi {
        *hi = val;
    }
    if val < *lo {
        *lo = val;
    }
}

/// The code of one side.
fn side_bits(positions: &[Position; 4]) -> (r: u32)
    ensures
        r == side_code(cells_of(positions@)),
        r < 0x10000,
{
    let mut white_hi: u32 = 0;
    let mut white_lo: u32 = 15;
    let mut black_hi: u32 = 0;
    let mut black_lo: u32 = 15;
    let ghost tokens = cells_of(positions@);
    let mut n: usize = 0;
    while n < 4
        invariant
            n <= 4,
            tokens == cells_of(positions@),
            white_hi == high_among(tokens, Color::White, n as int),
            white_lo == low_among(tokens, Color::White, n as int),
            black_hi == high_among(tokens, Color::Black, n as int),
            black_lo == low_among(tokens, Color::Black, n as int),
            white_hi < 10,
            black_hi < 10,
            white_lo <= 15,
            black_lo <= 15,
        decreases 4 - n,
    {
        let position = positions[n];
        assert(tokens[n as int] == position@);
        let (c, val) = position.as_compact();
        match c {
            Color::White => update(&mut white_hi, &mut white_lo, val),
            Color::Black => update(&mut black_hi, &mut black_lo, val),
        }
        n += 1;
    }
    let white_group: u32 = white_hi << 4 | white_lo;
    let black_group: u32 = black_hi << 4 | black_lo;
    assert(white_group == 16 * white_hi + white_lo && white_group < 256) by (bit_vector)
        requires
            white_group == white_hi << 4 | white_lo,
            white_hi < 10,
            white_lo <= 15,
    ;
    assert(black_group == 16 * black_hi + black_lo && black_group < 256) by (bit_vector)
        requires
            black_group == black_hi << 4 | black_lo,
            black_hi < 10,
            black_lo <= 15,
    ;
    let r: u32 = white_group << 8 | black_group;
    assert(r == 256 * white_group + black_group && r < 0x10000) by (bit_vector)
        requires
            r == white_group << 8 | black_group,
            white_group < 256,
            black_group < 256,
    ;
    r
}

/// The four positions that the code of one side stands for.
fn side_positions(code: u32) -> (r: Result<[Position; 4], BoardError>)
    requires
        code < 0x10000,
    ensures
        match r {
            Ok(ps) => code_in_range(code as int) && cells_of(ps@) == decode_side(code as int),
            Err(e) => !code_in_range(code as int) && e == BoardError::OutOfRange,
        },
{
    let mask_4bit: u32 = 0xF;
    let a: u32 = code >> 12;
    let b: u32 = (code >> 8) & mask_4bit;
    let c: u32 = (code >> 4) & mask_4bit;
    let d: u32 = code & mask_4bit;
    assert(a == code / 4096 % 16 && b == code / 256 % 16 && c == code / 16 % 16 && d == code % 16)
        by (bit_vector)
        requires
            code < 0x10000,
            mask_4bit == 0xF,
            a == code >> 12,
            b == (code >> 8) & mask_4bit,
            c == (code >> 4) & mask_4bit,
            d == code & mask_4bit,
    ;
    let first = match Position::from_compact(Color::White, a) {
        Ok(p) => p,
        Err(e) => {
            return Err(e);
        },
    };
    let second = match Position::from_compact(Color::White, b) {
        Ok(p) => p,
        Err(e) => {
            return Err(e);
        },
    };
    let third = match Position::from_compact(Color::Black, c) {
        Ok(p) => p,
        Err(e) => {
            return Err(e);
        },
    };
    let fourth = match Position::from_compact(Color::Black, d) {
        Ok(p) => p,
        Err(e) => {
            return Err(e);
        },
    };
    let ps = [first, second, third, fourth];
    assert(cells_of(ps@) =~= decode_side(code as int));
    Ok(ps)
}

impl Board {
    /// The board that a key stands for. The tokens of each side come in the
    /// order of the key: two on white cells, then two on black cells, the
    /// larger number first.
    pub fn from_u32(encoded: u32) -> (r: Result<Board, BoardError>)
        ensures
            match r {
                Ok(b) => decode(encoded as int) == Ok::<Layout, BoardError>(b@),
                Err(e) => decode(encoded as int) == Err::<Layout, BoardError>(e),
            },
    {
        let mask_16bit: u32 = 0xFFFF;
        let white_code: u32 = encoded >> 16;
        let black_code: u32 = encoded & mask_16bit;
        assert(white_code == encoded / 65536 && black_code == encoded % 65536) by (bit_vector)
            requires
                mask_16bit == 0xFFFF,
                white_code == encoded >> 16,
                black_code == encoded & mask_16bit,
        ;
        let white_pos = match side_positions(white_code) {
            Ok(ps) => ps,
            Err(e) => {
                return Err(e);
            },
        };
        let black_pos = match side_positions(black_code) {
            Ok(ps) => ps,
            Err(e) => {
                return Err(e);
            },
        };
        Board::from_pos(white_pos, black_pos)
    }

    /// Two boards are the same state of the puzzle where their keys are the
    /// same.
    pub fn equals(&self, other: &Board) -> (r: bool)
        ensures
            r == (self@.key() == other@.key()),
    {
        self.as_u32() == other.as_u32()
    }

    /// The key of the board. It depends on the cells that each side occupies
    /// and not on the order of its tokens. Boards on which each side has two
    /// tokens on either shade have the same key only where each side
    /// occupies the same cells.
    pub fn as_u32(&self) -> (r: u32)
        ensures
            r == self@.key(),
    {
        reveal(Layout::key);
        let white: u32 = side_bits(&self.white_pos);
        let black: u32 = side_bits(&self.black_pos);
        let r: u32 = white << 16 | black;
        assert(r == 65536 * white + black) by (bit_vector)
            requires
                r == white << 16 | black,
                white < 0x10000,
                black < 0x10000,
        ;
        r
    }
}

} // verus!
