use go::board::Color;
use go::board::IllegalMove;
use go::board::Point;
use go::game::Game;
use go::game::GameStatus;
use go::game::Move;

#[test]
fn new_game_defaults() {
    let game = Game::new(19);
    assert_eq!(game.current_turn, Color::Black);
    assert_eq!(game.move_count, 0);
    assert_eq!(game.status, GameStatus::Playing);
    assert_eq!(game.winner, None);
    assert_eq!(game.board.size(), 19);
}

#[test]
fn play_pass_scenario_on_fresh_board() {
    let mut game = Game::new(19);
    assert_eq!(game.play(Point(3, 3)), Ok(Move::Play(Color::Black, Point(3, 3))));
    assert_eq!(game.board.occupant_at(Point(3, 3)), Some(Color::Black));
    // The snapshot shows exactly one marker, at (3, 3) of the 19-wide rows.
    let snapshot = game.board.to_string();
    assert_eq!(snapshot.chars().nth(3 * 20 + 3), Some('X'));
    assert_eq!(snapshot.chars().filter(|c| *c == 'X').count(), 1);
    assert_eq!(snapshot.chars().filter(|c| *c == 'O').count(), 0);
    assert_eq!(game.current_turn, Color::White);
    assert_eq!(game.play(Point(3, 3)), Err(IllegalMove::Occupied));
    assert_eq!(game.current_turn, Color::White);
    assert_eq!(game.play(Point(3, 4)), Ok(Move::Play(Color::White, Point(3, 4))));
    assert_eq!(game.pass(), Ok(Move::Pass(Color::Black)));
    assert_eq!(game.status, GameStatus::Playing);
    assert_eq!(game.pass(), Ok(Move::Pass(Color::White)));
    assert_eq!(game.status, GameStatus::Finished);
    assert_eq!(game.move_count, 4);
}

#[test]
fn rejected_play_changes_nothing() {
    let mut game = Game::new(9);
    assert_eq!(game.play(Point(9, 9)), Err(IllegalMove::OffBoard));
    assert_eq!(game.current_turn, Color::Black);
    assert_eq!(game.move_count, 0);
    assert_eq!(game.status, GameStatus::Playing);
}

#[test]
fn play_between_passes_resets_the_counter() {
    let mut game = Game::new(9);
    assert_eq!(game.pass(), Ok(Move::Pass(Color::Black)));
    assert_eq!(game.play(Point(0, 0)), Ok(Move::Play(Color::White, Point(0, 0))));
    assert_eq!(game.pass(), Ok(Move::Pass(Color::Black)));
    // One pass after a play does not end the game.
    assert_eq!(game.status, GameStatus::Playing);
    assert_eq!(game.pass(), Ok(Move::Pass(Color::White)));
    assert_eq!(game.status, GameStatus::Finished);
}

#[test]
fn resign_finishes_and_names_the_opponent_winner() {
    let mut game = Game::new(9);
    assert_eq!(game.resign(), Ok(Move::Resign(Color::Black)));
    assert_eq!(game.status, GameStatus::Finished);
    assert_eq!(game.winner, Some(Color::White));
    assert_eq!(game.move_count, 0);
}

#[test]
fn resign_after_moves_names_the_opponent_winner() {
    let mut game = Game::new(9);
    game.play(Point(0, 0)).unwrap();
    assert_eq!(game.resign(), Ok(Move::Resign(Color::White)));
    assert_eq!(game.status, GameStatus::Finished);
    assert_eq!(game.winner, Some(Color::Black));
}

#[test]
fn operations_on_a_finished_game_fail() {
    let mut game = Game::new(9);
    game.resign().unwrap();
    assert_eq!(game.play(Point(0, 0)), Err(IllegalMove::GameOver));
    assert_eq!(game.pass(), Err(IllegalMove::GameOver));
    assert_eq!(game.resign(), Err(IllegalMove::GameOver));
    assert_eq!(game.status, GameStatus::Finished);
    assert_eq!(game.winner, Some(Color::White));
}

#[test]
fn capture_through_game_moves() {
    let mut game = Game::new(19);
    game.play(Point(0, 1)).unwrap(); // black
    game.play(Point(1, 1)).unwrap(); // white
    game.play(Point(2, 1)).unwrap(); // black
    game.play(Point(10, 10)).unwrap(); // white elsewhere
    game.play(Point(1, 0)).unwrap(); // black
    game.play(Point(10, 11)).unwrap(); // white elsewhere
    game.play(Point(1, 2)).unwrap(); // black captures (1, 1)
    assert_eq!(game.board.occupant_at(Point(1, 1)), None);
    let group = game.board.get_go_string(Point(0, 1)).unwrap();
    assert!(group.has_liberty(Point(1, 1)));
}

#[test]
fn game_report_combines_header_and_board() {
    let mut game = Game::new(2);
    game.play(Point(0, 0)).unwrap();
    assert_eq!(
        game.to_string(),
        "Current Turn: White\nMove Count: 1\nGame Status: Playing\nX.\n..\n"
    );
}

#[test]
fn game_report_counts_in_decimal() {
    let mut game = Game::new(5);
    for y in 0..5 {
        game.play(Point(0, y)).unwrap(); // black
        game.play(Point(2, y)).unwrap(); // white
    }
    game.play(Point(1, 0)).unwrap(); // black
    game.play(Point(3, 0)).unwrap(); // white
    assert_eq!(game.move_count, 12);
    let report = game.to_string();
    assert!(report.starts_with("Current Turn: Black\nMove Count: 12\nGame Status: Playing\n"));
}
