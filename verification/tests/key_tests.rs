use four_bishops::{Board, BoardError, Color, Position};

fn board(white: [(u8, u8); 4], black: [(u8, u8); 4]) -> Board {
    let pos = |(x, y): (u8, u8)| Position::new(x, y).unwrap();
    Board::from_pos(white.map(pos), black.map(pos)).unwrap()
}

fn cells(ps: [Position; 4]) -> Vec<(u8, u8)> {
    ps.iter().map(|p| (p.x(), p.y())).collect()
}

#[test]
fn key_of_the_start() {
    assert_eq!(Board::new().as_u32(), 0x1010_9898);
}

#[test]
fn key_does_not_depend_on_the_order_of_the_tokens() {
    let a = board([(0, 0), (0, 1), (0, 2), (0, 3)], [(4, 0), (4, 1), (4, 2), (4, 3)]);
    let b = board([(0, 2), (0, 3), (0, 0), (0, 1)], [(4, 3), (4, 2), (4, 1), (4, 0)]);
    let c = board([(0, 3), (0, 2), (0, 1), (0, 0)], [(4, 1), (4, 0), (4, 3), (4, 2)]);
    assert_eq!(a.as_u32(), b.as_u32());
    assert_eq!(a.as_u32(), c.as_u32());
    assert!(a.equals(&b));
    assert!(b.equals(&c));
}

#[test]
fn key_tells_the_sides_apart() {
    let a = Board::new();
    let b = Board::from_pos(a.black_pos(), a.white_pos()).unwrap();
    assert_eq!(b.as_u32(), 0x9898_1010);
    assert!(!a.equals(&b));
    assert!(a.equals(&a));
}

#[test]
fn key_packs_the_larger_number_above_the_smaller() {
    // White: (1,1) is white cell 2, (3,3) white cell 7, (2,1) black cell 4,
    // (1,2) black cell 3. Black: (4,0) is white cell 8, (0,2) white cell 1,
    // (0,1) black cell 0, (4,3) black cell 9.
    let b = board([(1, 1), (2, 1), (3, 3), (1, 2)], [(0, 1), (4, 0), (4, 3), (0, 2)]);
    assert_eq!(b.as_u32(), 0x7243_8190);
}

#[test]
fn decoding_gives_the_tokens_in_the_order_of_the_key() {
    let b = Board::from_u32(0x7243_8190).unwrap();
    assert_eq!(cells(b.white_pos()), vec![(3, 3), (1, 1), (2, 1), (1, 2)]);
    assert_eq!(cells(b.black_pos()), vec![(4, 0), (0, 2), (4, 3), (0, 1)]);
    assert_eq!(b.as_u32(), 0x7243_8190);
}

#[test]
fn decoding_an_encoded_board_keeps_the_occupied_cells() {
    let boards = [
        Board::new(),
        board([(1, 1), (2, 1), (3, 3), (1, 2)], [(0, 1), (4, 0), (4, 3), (0, 2)]),
        board([(0, 0), (0, 1), (2, 2), (2, 3)], [(4, 2), (4, 3), (2, 0), (2, 1)]),
        board([(4, 0), (4, 1), (4, 2), (4, 3)], [(0, 0), (0, 1), (0, 2), (0, 3)]),
    ];
    for b in boards {
        let back = Board::from_u32(b.as_u32()).unwrap();
        assert_eq!(back.get_array(&Color::White), b.get_array(&Color::White));
        assert_eq!(back.get_array(&Color::Black), b.get_array(&Color::Black));
        assert_eq!(back.as_u32(), b.as_u32());
    }
}

#[test]
fn decoding_refuses_a_number_that_names_no_cell() {
    assert_eq!(Board::from_u32(0xA010_9898).err(), Some(BoardError::OutOfRange));
    assert_eq!(Board::from_u32(0x1010_989F).err(), Some(BoardError::OutOfRange));
    assert_eq!(Board::from_u32(0xFFFF_FFFF).err(), Some(BoardError::OutOfRange));
}

#[test]
fn decoding_refuses_two_tokens_on_a_cell() {
    assert_eq!(Board::from_u32(0).err(), Some(BoardError::InvariantViolation));
    assert_eq!(Board::from_u32(0x1010_1098).err(), Some(BoardError::InvariantViolation));
    assert_eq!(Board::from_u32(0x1110_9898).err(), Some(BoardError::InvariantViolation));
}

#[test]
fn out_of_range_is_reported_before_a_shared_cell() {
    assert_eq!(Board::from_u32(0x0000_000A).err(), Some(BoardError::OutOfRange));
}
