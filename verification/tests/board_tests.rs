use four_bishops::{Board, BoardError, Color, Position};

fn pos(x: u8, y: u8) -> Position {
    Position::new(x, y).unwrap()
}

fn cells(ps: [Position; 4]) -> Vec<(u8, u8)> {
    ps.iter().map(|p| (p.x(), p.y())).collect()
}

fn board(white: [(u8, u8); 4], black: [(u8, u8); 4]) -> Board {
    Board::from_pos(white.map(|(x, y)| pos(x, y)), black.map(|(x, y)| pos(x, y))).unwrap()
}

#[test]
fn test_new_valid_position() {
    let p = Position::new(1, 2).unwrap();
    assert_eq!(p.x(), 1);
    assert_eq!(p.y(), 2);
}

#[test]
#[should_panic]
fn test_invalid_position() {
    let _ = Position::new(5, 0).unwrap();
}

#[test]
fn test_board_conversions() {
    let board = Board::from_u32(Board::new().as_u32()).unwrap();
    let white_array = board.get_array(&Color::White);
    let black_array = board.get_array(&Color::Black);
    for i in 0..4 {
        assert!(white_array[pos(0, i).as_usize()]);
        assert!(black_array[pos(4, i).as_usize()]);
    }
}

#[test]
fn test_threatened() {
    let board = Board::new();
    let threatened_array = board.threatened_array(&Color::White);
    for y in 0..3 {
        assert!(!threatened_array[pos(0, y).as_usize()]);
        assert!(threatened_array[pos(1, y).as_usize()]);
        assert!(threatened_array[pos(2, y).as_usize()]);
        assert!(!threatened_array[pos(4, y).as_usize()]);
    }
    assert!(threatened_array[pos(3, 0).as_usize()]);
    assert!(!threatened_array[pos(3, 1).as_usize()]);
    assert!(!threatened_array[pos(3, 2).as_usize()]);
    assert!(threatened_array[pos(3, 3).as_usize()]);
}

#[test]
fn test_new_move() {
    let board = Board::new();
    let next_boards = board.next_boards(&Color::White);
    assert_eq!(next_boards.len(), 4);
}

#[test]
fn new_board_has_the_sides_on_the_outer_files() {
    let b = Board::new();
    assert_eq!(cells(b.white_pos()), vec![(0, 0), (0, 1), (0, 2), (0, 3)]);
    assert_eq!(cells(b.black_pos()), vec![(4, 0), (4, 1), (4, 2), (4, 3)]);
}

#[test]
fn from_pos_keeps_the_tokens_in_order() {
    let b = board([(1, 1), (0, 3), (2, 2), (0, 0)], [(4, 3), (3, 3), (4, 0), (4, 1)]);
    assert_eq!(cells(b.white_pos()), vec![(1, 1), (0, 3), (2, 2), (0, 0)]);
    assert_eq!(cells(b.black_pos()), vec![(4, 3), (3, 3), (4, 0), (4, 1)]);
}

#[test]
fn from_pos_refuses_two_tokens_of_one_side_on_a_cell() {
    let start = Board::new();
    let white = [pos(0, 0), pos(0, 1), pos(0, 2), pos(0, 0)];
    let r = Board::from_pos(white, start.black_pos());
    assert_eq!(r.err(), Some(BoardError::InvariantViolation));
    let black = [pos(4, 0), pos(4, 3), pos(4, 2), pos(4, 3)];
    let r = Board::from_pos(start.white_pos(), black);
    assert_eq!(r.err(), Some(BoardError::InvariantViolation));
}

#[test]
fn from_pos_refuses_tokens_of_both_sides_on_a_cell() {
    let white = [pos(0, 0), pos(0, 1), pos(0, 2), pos(0, 3)];
    let black = [pos(4, 0), pos(4, 1), pos(0, 3), pos(4, 3)];
    let r = Board::from_pos(white, black);
    assert_eq!(r.err(), Some(BoardError::InvariantViolation));
}

#[test]
fn occupancy_marks_the_four_cells_of_a_side() {
    let b = board([(1, 1), (0, 3), (2, 2), (0, 0)], [(4, 3), (3, 3), (4, 0), (4, 1)]);
    let white = b.get_array(&Color::White);
    let black = b.get_array(&Color::Black);
    for i in 0..20 {
        assert_eq!(white[i], [5, 3, 10, 0].contains(&i), "white {}", i);
        assert_eq!(black[i], [19, 15, 16, 17].contains(&i), "black {}", i);
    }
}

#[test]
fn threat_of_the_start_in_full() {
    let b = Board::new();
    let white = b.threatened_array(&Color::White);
    let black = b.threatened_array(&Color::Black);
    for x in 0..5u8 {
        for y in 0..4u8 {
            let i = pos(x, y).as_usize();
            let by_white = x == 1 || x == 2 || (x == 3 && (y == 0 || y == 3));
            let by_black = x == 3 || x == 2 || (x == 1 && (y == 0 || y == 3));
            assert_eq!(white[i], by_white, "white at {} {}", x, y);
            assert_eq!(black[i], by_black, "black at {} {}", x, y);
        }
    }
}

#[test]
fn threat_passes_through_tokens_of_either_side() {
    // White on (0,0) and (1,1), black on (2,2): the diagonal of (0,0) is
    // attacked up to (3,3) all the same.
    let b = board([(0, 0), (1, 1), (0, 1), (0, 3)], [(2, 2), (4, 1), (4, 2), (4, 3)]);
    let white = b.threatened_array(&Color::White);
    assert!(white[pos(1, 1).as_usize()]);
    assert!(white[pos(2, 2).as_usize()]);
    assert!(white[pos(3, 3).as_usize()]);
    // A token does not attack its own cell: (0,3) lies on no diagonal of
    // another white token.
    assert!(!white[pos(0, 3).as_usize()]);
}

#[test]
fn successors_of_the_start_in_order() {
    let b = Board::new();
    let next = b.next_boards(&Color::White);
    let whites: Vec<Vec<(u8, u8)>> = next.iter().map(|n| cells(n.white_pos())).collect();
    assert_eq!(
        whites,
        vec![
            vec![(1, 1), (0, 1), (0, 2), (0, 3)],
            vec![(0, 0), (1, 2), (0, 2), (0, 3)],
            vec![(0, 0), (0, 1), (1, 1), (0, 3)],
            vec![(0, 0), (0, 1), (0, 2), (1, 2)],
        ]
    );
    for n in next.iter() {
        assert_eq!(cells(n.black_pos()), vec![(4, 0), (4, 1), (4, 2), (4, 3)]);
    }
    let next = b.next_boards(&Color::Black);
    let blacks: Vec<Vec<(u8, u8)>> = next.iter().map(|n| cells(n.black_pos())).collect();
    assert_eq!(
        blacks,
        vec![
            vec![(3, 1), (4, 1), (4, 2), (4, 3)],
            vec![(4, 0), (3, 2), (4, 2), (4, 3)],
            vec![(4, 0), (4, 1), (3, 1), (4, 3)],
            vec![(4, 0), (4, 1), (4, 2), (3, 2)],
        ]
    );
}

#[test]
fn a_slide_stops_at_an_own_token_and_skips_attacked_cells() {
    // White (0,0) slides towards (3,3): (1,1) is attacked by black (2,0) and
    // skipped, (2,2) is free, (3,3) holds a white token and ends the slide.
    let b = board([(0, 0), (3, 3), (4, 1), (4, 3)], [(2, 0), (0, 3), (0, 1), (2, 3)]);
    let next = b.next_boards(&Color::White);
    let from_first: Vec<(u8, u8)> = next
        .iter()
        .map(|n| cells(n.white_pos()))
        .filter(|w| w[0] != (0, 0))
        .map(|w| w[0])
        .collect();
    assert_eq!(from_first, vec![(2, 2)]);
}

#[test]
fn a_token_never_comes_to_rest_on_a_token_of_the_other_side() {
    // Black (1,1) is attacked by no other black token, and white (0,0) could
    // slide onto it: that cell is left out. The cells behind it are attacked
    // by that black token, so white (0,0) has no move at all.
    let b = board([(0, 0), (0, 1), (4, 0), (4, 1)], [(1, 1), (0, 3), (2, 3), (4, 3)]);
    assert!(!b.threatened_array(&Color::Black)[pos(1, 1).as_usize()]);
    let next = b.next_boards(&Color::White);
    for n in next.iter() {
        let white = n.get_array(&Color::White);
        let black = n.get_array(&Color::Black);
        for i in 0..20 {
            assert!(!(white[i] && black[i]));
        }
    }
    let from_first: Vec<(u8, u8)> = next
        .iter()
        .map(|n| cells(n.white_pos()))
        .filter(|w| w[0] != (0, 0))
        .map(|w| w[0])
        .collect();
    assert_eq!(from_first, vec![]);
}

#[test]
fn picture_of_the_start() {
    let text = Board::new().render();
    let expected = "+---+---+---+---+---+\n\
                    | W |   |   |   | B |\n\
                    +---+---+---+---+---+\n\
                    | W |   |   |   | B |\n\
                    +---+---+---+---+---+\n\
                    | W |   |   |   | B |\n\
                    +---+---+---+---+---+\n\
                    | W |   |   |   | B |\n\
                    +---+---+---+---+---+";
    assert_eq!(text, expected);
}

#[test]
fn picture_puts_rank_zero_on_top() {
    let b = board([(1, 0), (0, 1), (0, 2), (0, 3)], [(4, 0), (4, 1), (4, 2), (3, 3)]);
    let text = b.render();
    let lines: Vec<&str> = text.split('\n').collect();
    assert_eq!(lines.len(), 9);
    assert_eq!(lines[1], "|   | W |   |   | B |");
    assert_eq!(lines[7], "| W |   |   | B |   |");
}
