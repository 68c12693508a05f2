use go::board::Board;
use go::board::Color;
use go::board::GoString;
use go::board::IllegalMove;
use go::board::Point;

#[test]
fn color_next_toggles() {
    assert_eq!(Color::Black.next(), Color::White);
    assert_eq!(Color::White.next(), Color::Black);
}

#[test]
fn color_markers() {
    assert_eq!(Color::Black.to_string(), "X");
    assert_eq!(Color::White.to_string(), "O");
}

#[test]
fn neighbors_of_interior_point() {
    let ns = Point(3, 3).neighbors();
    assert_eq!(ns.len(), 4);
    assert!(ns.contains(&Point(2, 3)));
    assert!(ns.contains(&Point(4, 3)));
    assert!(ns.contains(&Point(3, 2)));
    assert!(ns.contains(&Point(3, 4)));
}

#[test]
fn neighbors_of_corner_point() {
    let ns = Point(0, 0).neighbors();
    assert_eq!(ns.len(), 2);
    assert!(ns.contains(&Point(1, 0)));
    assert!(ns.contains(&Point(0, 1)));
}

#[test]
fn new_board_is_empty() {
    let board = Board::new(5);
    assert_eq!(board.size(), 5);
    for x in 0..5 {
        for y in 0..5 {
            assert_eq!(board.occupant_at(Point(x, y)), None);
        }
    }
}

#[test]
fn go_string_accessors() {
    let s = GoString::new(
        Color::Black,
        vec![Point(1, 1), Point(1, 2)],
        vec![Point(0, 1), Point(2, 1)],
    );
    assert_eq!(s.color(), Color::Black);
    assert_eq!(s.num_liberties(), 2);
    assert!(s.has_stone(Point(1, 1)));
    assert!(s.has_stone(Point(1, 2)));
    assert!(!s.has_stone(Point(0, 1)));
    assert!(s.has_liberty(Point(0, 1)));
    assert!(!s.has_liberty(Point(1, 1)));
}

#[test]
fn off_board_placement_fails_and_mutates_nothing() {
    let mut board = Board::new(5);
    assert_eq!(board.place_stone(Color::Black, Point(5, 0)), Err(IllegalMove::OffBoard));
    assert_eq!(board.place_stone(Color::Black, Point(0, 5)), Err(IllegalMove::OffBoard));
    for x in 0..5 {
        for y in 0..5 {
            assert_eq!(board.occupant_at(Point(x, y)), None);
        }
    }
}

#[test]
fn occupied_placement_fails_and_mutates_nothing() {
    let mut board = Board::new(5);
    assert_eq!(board.place_stone(Color::Black, Point(2, 2)), Ok(()));
    assert_eq!(board.place_stone(Color::White, Point(2, 2)), Err(IllegalMove::Occupied));
    assert_eq!(board.place_stone(Color::Black, Point(2, 2)), Err(IllegalMove::Occupied));
    assert_eq!(board.occupant_at(Point(2, 2)), Some(Color::Black));
}

#[test]
fn single_stone_has_orthogonal_liberties() {
    let mut board = Board::new(5);
    board.place_stone(Color::Black, Point(2, 2)).unwrap();
    let group = board.get_go_string(Point(2, 2)).unwrap();
    assert_eq!(group.num_liberties(), 4);
    assert!(group.has_liberty(Point(1, 2)));
    assert!(group.has_liberty(Point(3, 2)));
    assert!(group.has_liberty(Point(2, 1)));
    assert!(group.has_liberty(Point(2, 3)));
}

#[test]
fn adjacent_same_color_stones_merge() {
    let mut board = Board::new(5);
    board.place_stone(Color::Black, Point(2, 2)).unwrap();
    board.place_stone(Color::Black, Point(2, 3)).unwrap();
    let group = board.get_go_string(Point(2, 2)).unwrap();
    assert!(group.has_stone(Point(2, 2)));
    assert!(group.has_stone(Point(2, 3)));
    assert_eq!(group.num_liberties(), 6);
    let same = board.get_go_string(Point(2, 3)).unwrap();
    assert!(same.has_stone(Point(2, 2)));
}

#[test]
fn suicide_is_rejected_and_mutates_nothing() {
    let mut board = Board::new(2);
    board.place_stone(Color::White, Point(1, 0)).unwrap();
    board.place_stone(Color::White, Point(0, 1)).unwrap();
    // Both neighbors of (0, 0) are white and each keeps another liberty,
    // so a black stone there would have no liberty and captures nothing.
    assert_eq!(board.place_stone(Color::Black, Point(0, 0)), Err(IllegalMove::Suicide));
    assert_eq!(board.occupant_at(Point(0, 0)), None);
    assert_eq!(board.occupant_at(Point(1, 0)), Some(Color::White));
    assert_eq!(board.occupant_at(Point(0, 1)), Some(Color::White));
}

#[test]
fn capturing_placement_on_last_liberty_is_legal() {
    let mut board = Board::new(3);
    board.place_stone(Color::White, Point(0, 1)).unwrap();
    board.place_stone(Color::White, Point(1, 0)).unwrap();
    board.place_stone(Color::Black, Point(0, 2)).unwrap();
    board.place_stone(Color::Black, Point(1, 1)).unwrap();
    // Playing (0, 0) gives the black stone no liberty of its own — both
    // neighbors are white — but it is the last liberty of white (0, 1),
    // so the placement captures and is legal.
    assert_eq!(board.place_stone(Color::Black, Point(0, 0)), Ok(()));
    assert_eq!(board.occupant_at(Point(0, 1)), None);
    assert_eq!(board.occupant_at(Point(0, 0)), Some(Color::Black));
    assert_eq!(board.occupant_at(Point(1, 0)), Some(Color::White));
    // The freed point is now the black corner stone's liberty.
    let group = board.get_go_string(Point(0, 0)).unwrap();
    assert!(group.has_liberty(Point(0, 1)));
}

#[test]
fn surrounding_a_stone_captures_it() {
    let mut board = Board::new(19);
    board.place_stone(Color::White, Point(1, 1)).unwrap();
    board.place_stone(Color::Black, Point(0, 1)).unwrap();
    board.place_stone(Color::Black, Point(2, 1)).unwrap();
    board.place_stone(Color::Black, Point(1, 0)).unwrap();
    board.place_stone(Color::Black, Point(1, 2)).unwrap();
    // The white stone is gone and its point is a liberty of every
    // neighboring black group.
    assert_eq!(board.occupant_at(Point(1, 1)), None);
    for p in [Point(0, 1), Point(2, 1), Point(1, 0), Point(1, 2)] {
        let group = board.get_go_string(p).unwrap();
        assert_eq!(group.color(), Color::Black);
        assert!(group.has_liberty(Point(1, 1)));
    }
}

#[test]
fn capture_decision_uses_liberties_before_removal() {
    let mut board = Board::new(5);
    // White (1, 1) keeps liberties (1, 0) and (1, 2) after two black
    // stones surround it above and below.
    board.place_stone(Color::White, Point(1, 1)).unwrap();
    board.place_stone(Color::Black, Point(0, 1)).unwrap();
    board.place_stone(Color::Black, Point(2, 1)).unwrap();
    // Playing one of the two liberties does not capture: the count that
    // matters is the liberty count before the stone goes down, here 2.
    board.place_stone(Color::Black, Point(1, 0)).unwrap();
    assert_eq!(board.occupant_at(Point(1, 1)), Some(Color::White));
    let group = board.get_go_string(Point(1, 1)).unwrap();
    assert_eq!(group.num_liberties(), 1);
    assert!(group.has_liberty(Point(1, 2)));
    // Playing the true last liberty now captures.
    board.place_stone(Color::Black, Point(1, 2)).unwrap();
    assert_eq!(board.occupant_at(Point(1, 1)), None);
}

#[test]
fn captured_group_of_several_stones_is_removed_whole() {
    let mut board = Board::new(5);
    board.place_stone(Color::White, Point(1, 1)).unwrap();
    board.place_stone(Color::White, Point(1, 2)).unwrap();
    for p in [Point(0, 1), Point(0, 2), Point(2, 1), Point(2, 2), Point(1, 0)] {
        board.place_stone(Color::Black, p).unwrap();
    }
    // (1, 3) is the white pair's last liberty.
    board.place_stone(Color::Black, Point(1, 3)).unwrap();
    assert_eq!(board.occupant_at(Point(1, 1)), None);
    assert_eq!(board.occupant_at(Point(1, 2)), None);
    let group = board.get_go_string(Point(1, 0)).unwrap();
    assert!(group.has_liberty(Point(1, 1)));
}

#[test]
fn board_snapshot_lists_rows_with_markers() {
    let mut board = Board::new(2);
    board.place_stone(Color::Black, Point(0, 0)).unwrap();
    board.place_stone(Color::White, Point(1, 1)).unwrap();
    assert_eq!(board.to_string(), "X.\n.O\n");
}
