use four_bishops::{bfs, Board, Color, Position};

fn board(white: [(u8, u8); 4], black: [(u8, u8); 4]) -> Board {
    let pos = |(x, y): (u8, u8)| Position::new(x, y).unwrap();
    Board::from_pos(white.map(pos), black.map(pos)).unwrap()
}

fn same_tokens(a: &Board, b: &Board) -> bool {
    a.white_pos() == b.white_pos() && a.black_pos() == b.black_pos()
}

fn is_legal_route(path: &[Board]) -> bool {
    let mut side = Color::White;
    for pair in path.windows(2) {
        if !pair[0].next_boards(&side).iter().any(|n| same_tokens(n, &pair[1])) {
            return false;
        }
        side = side.invert();
    }
    true
}

#[test]
fn start_is_its_own_goal() {
    let start = Board::new();
    let path = bfs(start, start).unwrap();
    assert_eq!(path.len(), 1);
    assert!(same_tokens(&path[0], &start));
}

#[test]
fn a_goal_with_the_key_of_the_start_needs_no_move() {
    let start = board([(1, 1), (2, 1), (3, 3), (1, 2)], [(0, 1), (4, 0), (4, 3), (0, 2)]);
    let goal = board([(3, 3), (1, 2), (1, 1), (2, 1)], [(4, 3), (0, 2), (0, 1), (4, 0)]);
    let path = bfs(start, goal).unwrap();
    assert_eq!(path.len(), 1);
    assert!(same_tokens(&path[0], &start));
}

#[test]
fn one_move_away() {
    let start = Board::new();
    let goal = board([(0, 0), (1, 2), (0, 2), (0, 3)], [(4, 0), (4, 1), (4, 2), (4, 3)]);
    let path = bfs(start, goal).unwrap();
    assert_eq!(path.len(), 2);
    assert!(same_tokens(&path[0], &start));
    assert!(same_tokens(&path[1], &goal));
}

#[test]
fn a_move_of_black_alone_takes_three_plies() {
    // White moves first, so white has to step aside and back.
    let start = Board::new();
    let goal = board([(0, 0), (0, 1), (0, 2), (0, 3)], [(3, 1), (4, 1), (4, 2), (4, 3)]);
    let path = bfs(start, goal).unwrap();
    assert_eq!(path.len(), 4);
    assert!(is_legal_route(&path));
    assert!(same_tokens(&path[0], &start));
    assert!(path[3].equals(&goal));
}

#[test]
fn sides_swap_in_thirty_six_moves() {
    let start = Board::new();
    let end = Board::from_pos(start.black_pos(), start.white_pos()).unwrap();
    let path = bfs(start, end).unwrap();
    assert_eq!(path.len(), 37);
    assert!(same_tokens(&path[0], &start));
    assert!(path[36].equals(&end));
    assert!(is_legal_route(&path));
}

#[test]
fn a_goal_on_other_shades_is_never_reached() {
    // A token stays on its shade, so a white side with four tokens on white
    // cells cannot come from the start.
    let start = Board::new();
    let goal = board([(0, 0), (0, 2), (1, 1), (2, 0)], [(4, 0), (4, 1), (4, 2), (4, 3)]);
    assert!(bfs(start, goal).is_none());
}

#[test]
fn a_goal_with_a_token_on_an_attacked_cell_is_never_reached() {
    let start = Board::new();
    let goal = board([(0, 0), (0, 1), (0, 2), (3, 0)], [(4, 0), (4, 1), (4, 2), (4, 3)]);
    assert!(bfs(start, goal).is_none());
}

/// The least number of moves after which each key can stand on the board,
/// counted over all ways on which the sides move in turn. A key is taken up
/// once for each side that may move next.
fn least_moves(start: &Board) -> std::collections::HashMap<u32, usize> {
    let mut least = std::collections::HashMap::new();
    let mut seen = std::collections::HashSet::new();
    let mut level = vec![*start];
    let mut side = Color::White;
    let mut depth = 0;
    seen.insert((start.as_u32(), true));
    while !level.is_empty() {
        let mut next = Vec::new();
        for b in level.iter() {
            least.entry(b.as_u32()).or_insert(depth);
            for n in b.next_boards(&side) {
                if seen.insert((n.as_u32(), side != Color::White)) {
                    next.push(n);
                }
            }
        }
        level = next;
        side = side.invert();
        depth += 1;
    }
    least
}

#[test]
fn no_way_to_the_swapped_sides_is_shorter() {
    let start = Board::new();
    let end = Board::from_pos(start.black_pos(), start.white_pos()).unwrap();
    let least = least_moves(&start);
    assert_eq!(least.get(&end.as_u32()), Some(&36));
    println!("keys within reach: {}", least.len());
}

#[test]
fn a_key_is_taken_up_only_at_the_depth_at_which_it_is_first_found() {
    // After six moves this board can stand, with white to move next. The
    // search by levels finds on its way boards that it has met before with
    // the other side to move and does not take them up again: it finds this
    // one a move later.
    let start = Board::new();
    let goal = board([(1, 1), (0, 0), (1, 2), (0, 1)], [(3, 1), (1, 3), (4, 3), (3, 2)]);
    assert_eq!(least_moves(&start).get(&goal.as_u32()), Some(&6));
    let path = bfs(start, goal).unwrap();
    assert_eq!(path.len(), 8);
    assert!(is_legal_route(&path));
    assert!(path[7].equals(&goal));
}

#[test]
fn a_board_behind_a_key_met_with_the_other_side_to_move_is_not_found() {
    // Eight moves lead to this board, but only through boards that the
    // search has met before with the other side to move.
    let start = Board::new();
    let goal = board([(0, 2), (0, 0), (3, 0), (1, 2)], [(4, 2), (3, 1), (3, 2), (1, 0)]);
    assert_eq!(least_moves(&start).get(&goal.as_u32()), Some(&8));
    assert!(bfs(start, goal).is_none());
}

#[test]
fn decoding_the_key_of_an_unbalanced_board_does_not_give_it_back() {
    // Three white tokens on white cells: the key keeps the largest and the
    // smallest of their numbers only.
    let b = board([(0, 0), (0, 2), (1, 1), (0, 1)], [(4, 0), (4, 1), (4, 2), (4, 3)]);
    assert_eq!(b.as_u32(), 0x2000_9898);
    assert!(Board::from_u32(b.as_u32()).is_err());
}
