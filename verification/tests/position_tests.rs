use four_bishops::moves::{Direction, Moves};
use four_bishops::{BoardError, Color, Position};

#[test]
fn every_cell_is_found_again_from_its_index() {
    for x in 0..5u8 {
        for y in 0..4u8 {
            let p = Position::new(x, y).unwrap();
            let i = p.as_usize();
            assert_eq!(i, 4 * x as usize + y as usize);
            let q = Position::from_usize(i).unwrap();
            assert_eq!((q.x(), q.y()), (x, y));
            assert_eq!(q, p);
        }
    }
}

#[test]
fn every_index_is_found_again_from_its_cell() {
    for i in 0..20usize {
        assert_eq!(Position::from_usize(i).unwrap().as_usize(), i);
    }
}

#[test]
fn cells_off_the_grid_are_out_of_range() {
    assert_eq!(Position::new(5, 0).err(), Some(BoardError::OutOfRange));
    assert_eq!(Position::new(0, 4).err(), Some(BoardError::OutOfRange));
    assert_eq!(Position::new(255, 255).err(), Some(BoardError::OutOfRange));
    assert!(Position::new(4, 3).is_ok());
    assert_eq!(Position::from_usize(20).err(), Some(BoardError::OutOfRange));
    assert!(Position::from_usize(19).is_ok());
}

#[test]
fn compact_number_is_twice_the_file_plus_half_the_rank() {
    let p = Position::new(3, 2).unwrap();
    assert_eq!(p.as_compact(), (Color::Black, 7));
    let p = Position::new(4, 2).unwrap();
    assert_eq!(p.as_compact(), (Color::White, 9));
    let p = Position::new(0, 1).unwrap();
    assert_eq!(p.as_compact(), (Color::Black, 0));
    let p = Position::new(0, 0).unwrap();
    assert_eq!(p.as_compact(), (Color::White, 0));
}

#[test]
fn every_cell_is_found_again_from_its_compact_number() {
    let mut seen = Vec::new();
    for x in 0..5u8 {
        for y in 0..4u8 {
            let p = Position::new(x, y).unwrap();
            let (shade, number) = p.as_compact();
            assert!(number < 10);
            assert_eq!(shade == Color::White, (x + y) % 2 == 0);
            assert_eq!(Position::from_compact(shade, number).unwrap(), p);
            assert!(!seen.contains(&(shade, number)));
            seen.push((shade, number));
        }
    }
}

#[test]
fn compact_numbers_from_ten_on_are_out_of_range() {
    assert_eq!(Position::from_compact(Color::White, 10).err(), Some(BoardError::OutOfRange));
    assert_eq!(Position::from_compact(Color::Black, 15).err(), Some(BoardError::OutOfRange));
    let p = Position::from_compact(Color::Black, 9).unwrap();
    assert_eq!((p.x(), p.y()), (4, 3));
    let p = Position::from_compact(Color::White, 9).unwrap();
    assert_eq!((p.x(), p.y()), (4, 2));
}

#[test]
fn invert_gives_the_other_side() {
    assert_eq!(Color::White.invert(), Color::Black);
    assert_eq!(Color::Black.invert(), Color::White);
    assert_eq!(Color::White.invert().invert(), Color::White);
}

#[test]
fn directions_come_in_a_fixed_order() {
    assert_eq!(
        Direction::get_directions(),
        [
            Direction::UpperLeft,
            Direction::UpperRight,
            Direction::LowerLeft,
            Direction::LowerRight
        ]
    );
}

#[test]
fn a_slide_steps_to_the_edge_and_stops() {
    let mut moves = Moves::new(Position::new(1, 0).unwrap(), Direction::LowerRight);
    let mut passed = Vec::new();
    while let Some(p) = moves.next() {
        passed.push((p.x(), p.y()));
    }
    assert_eq!(passed, vec![(2, 1), (3, 2), (4, 3)]);
    assert_eq!(moves.next(), None);
    assert_eq!((moves.pos.x(), moves.pos.y()), (4, 3));
}

#[test]
fn a_slide_from_the_edge_is_empty() {
    for (dir, x, y) in [
        (Direction::UpperLeft, 0, 2),
        (Direction::UpperLeft, 2, 0),
        (Direction::UpperRight, 4, 2),
        (Direction::UpperRight, 2, 0),
        (Direction::LowerLeft, 0, 2),
        (Direction::LowerLeft, 2, 3),
        (Direction::LowerRight, 4, 2),
        (Direction::LowerRight, 2, 3),
    ] {
        let mut moves = Moves::new(Position::new(x, y).unwrap(), dir);
        assert_eq!(moves.next(), None);
    }
}

#[test]
fn each_direction_steps_its_own_way() {
    let from = Position::new(2, 2).unwrap();
    let step = |dir| {
        let p = Moves::new(from, dir).next().unwrap();
        (p.x(), p.y())
    };
    assert_eq!(step(Direction::UpperLeft), (1, 1));
    assert_eq!(step(Direction::UpperRight), (3, 1));
    assert_eq!(step(Direction::LowerLeft), (1, 3));
    assert_eq!(step(Direction::LowerRight), (3, 3));
}
