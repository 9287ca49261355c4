use console_games::games::checkers::internal::Checkers;
use console_games::games::checkers::internal::CheckersError;
use console_games::games::checkers::internal::Direction;
use console_games::games::checkers::internal::Player;

#[test]
fn opening_position_names_run_in_scan_order() {
    let game = Checkers::new();
    assert_eq!(game.find_checker_position('1'), Some((1, 0)));
    assert_eq!(game.find_checker_position('4'), Some((7, 0)));
    assert_eq!(game.find_checker_position('*'), Some((7, 2)));
    assert_eq!(game.find_checker_position('a'), Some((0, 5)));
    assert_eq!(game.find_checker_position('l'), Some((6, 7)));
    assert_eq!(game.find_checker_position('z'), None);
}

#[test]
fn only_the_player_to_move_can_be_selected() {
    let game = Checkers::new();
    // Math moves first: its checker is found, the opponent's is not
    assert!(game.find_checker(&(1, 0)).is_some());
    assert!(game.find_checker(&(0, 5)).is_none());
    assert!(game.find_checker(&(0, 0)).is_none());
}

#[test]
fn cell_queries_follow_the_dark_squares() {
    let game = Checkers::new();
    assert!(game.is_cell_in_any_path(&(1, 0)));
    assert!(!game.is_cell_in_any_path(&(0, 0)));
    assert!(!game.is_cell_in_any_path(&(8, 1)));
    // (1, 4) is dark and unoccupied in the opening position
    assert!(game.is_cell_empty(&(1, 4)));
    assert!(!game.is_cell_empty(&(1, 0)));
    assert!(!game.is_cell_empty(&(0, 4)));
    assert_eq!(game.verify_cell_pos((1, 4)), Some((1, 4)));
    assert_eq!(game.verify_cell_pos((0, 4)), None);
}

#[test]
fn front_row_checker_slides_down_the_free_diagonals() {
    let mut game = Checkers::new();
    // the checker '+' stands at (3, 2); both downward rays run through
    // empty cells until the enemy rows block them
    game.set_possible_moves((3, 2));
    assert_eq!(game.possible_moves.len(), 2);
    let dl = &game.possible_moves[0];
    assert!(matches!(dl.dir, Direction::DownLeft));
    assert_eq!(dl.final_pos, (1, 4));
    let dr = &game.possible_moves[1];
    assert!(matches!(dr.dir, Direction::DownRight));
    assert_eq!(dr.final_pos, (5, 4));
}

#[test]
fn blocked_checker_has_no_moves() {
    let mut game = Checkers::new();
    // the checker '1' at (1, 0) has both downward rays blocked by its
    // own team and both upward rays off the board
    game.set_possible_moves((1, 0));
    assert_eq!(game.possible_moves.len(), 0);
}

#[test]
fn adjacent_enemy_with_free_cell_behind_is_jumped() {
    let mut game = Checkers::empty();
    game.place_checker((1, 2), Player::Math, 'M');
    game.place_checker((2, 3), Player::Alphabet, 'A');
    game.set_possible_moves((1, 2));
    let jump = game
        .possible_moves
        .iter()
        .find(|mv| matches!(mv.dir, Direction::DownRight));
    assert_eq!(jump.map(|mv| mv.final_pos), Some((3, 4)));
}

#[test]
fn adjacent_enemy_with_occupied_cell_behind_gives_no_landing() {
    let mut game = Checkers::empty();
    game.place_checker((1, 2), Player::Math, 'M');
    game.place_checker((2, 3), Player::Alphabet, 'A');
    game.place_checker((3, 4), Player::Alphabet, 'B');
    game.set_possible_moves((1, 2));
    assert!(game
        .possible_moves
        .iter()
        .all(|mv| !matches!(mv.dir, Direction::DownRight)));
}

#[test]
fn enemy_on_the_board_edge_gives_no_landing() {
    let mut game = Checkers::empty();
    game.place_checker((1, 6), Player::Math, 'M');
    game.place_checker((0, 7), Player::Alphabet, 'A');
    game.set_possible_moves((1, 6));
    assert!(game
        .possible_moves
        .iter()
        .all(|mv| !matches!(mv.dir, Direction::DownLeft)));
}

#[test]
fn own_checker_blocks_the_ray_past_it() {
    let mut game = Checkers::empty();
    game.place_checker((1, 2), Player::Math, 'M');
    game.place_checker((3, 4), Player::Math, 'N');
    game.set_possible_moves((1, 2));
    let dr = game
        .possible_moves
        .iter()
        .find(|mv| matches!(mv.dir, Direction::DownRight));
    // the landing stops just short of the blocker, never beyond it
    assert_eq!(dr.map(|mv| mv.final_pos), Some((2, 3)));
}

#[test]
fn adjacent_own_checker_leaves_nothing_in_that_direction() {
    let mut game = Checkers::empty();
    game.place_checker((1, 2), Player::Math, 'M');
    game.place_checker((2, 3), Player::Math, 'N');
    game.set_possible_moves((1, 2));
    assert!(game
        .possible_moves
        .iter()
        .all(|mv| !matches!(mv.dir, Direction::DownRight)));
}

#[test]
fn make_move_slides_and_passes_the_turn() {
    let mut game = Checkers::new();
    assert_eq!(game.make_move('+', Direction::DownLeft), Ok(()));
    assert_eq!(game.find_checker_position('+'), Some((1, 4)));
    // now it is the other player's turn, so a Math name is rejected
    assert_eq!(
        game.make_move('1', Direction::DownLeft),
        Err(CheckersError::IllegalSelection)
    );
}

#[test]
fn make_move_captures_the_jumped_checker() {
    let mut game = Checkers::empty();
    game.place_checker((1, 2), Player::Math, 'M');
    game.place_checker((2, 3), Player::Alphabet, 'A');
    assert_eq!(game.make_move('M', Direction::DownRight), Ok(()));
    assert_eq!(game.find_checker_position('M'), Some((3, 4)));
    assert_eq!(game.find_checker_position('A'), None);
}

#[test]
fn selecting_an_unknown_name_is_rejected() {
    let mut game = Checkers::new();
    assert_eq!(
        game.make_move('z', Direction::DownLeft),
        Err(CheckersError::IllegalSelection)
    );
}

#[test]
fn a_checker_without_landing_reports_no_legal_move() {
    let mut game = Checkers::new();
    assert_eq!(
        game.make_move('1', Direction::DownLeft),
        Err(CheckersError::NoLegalMove)
    );
}

#[test]
fn a_direction_outside_the_move_list_is_rejected() {
    let mut game = Checkers::empty();
    game.place_checker((1, 2), Player::Math, 'M');
    game.place_checker((0, 1), Player::Math, 'N');
    game.place_checker((2, 1), Player::Math, 'O');
    game.place_checker((0, 3), Player::Math, 'P');
    assert_eq!(
        game.make_move('M', Direction::UpLeft),
        Err(CheckersError::IllegalDirection)
    );
}

#[test]
fn a_player_with_nothing_left_has_lost() {
    let mut empty = Checkers::empty();
    assert!(empty.is_won());
    empty.place_checker((1, 2), Player::Math, 'M');
    assert!(!empty.is_won());
    // the opponent still owns nothing, so after the turn passes the game
    // is over
    empty.set_turn(Player::Alphabet);
    assert!(empty.is_won());
}

#[test]
fn direction_symbols_match_the_prompt() {
    assert_eq!(Direction::from_symbol('q'), Some(Direction::UpLeft));
    assert_eq!(Direction::from_symbol('e'), Some(Direction::UpRight));
    assert_eq!(Direction::from_symbol('a'), Some(Direction::DownLeft));
    assert_eq!(Direction::from_symbol('d'), Some(Direction::DownRight));
    assert_eq!(Direction::from_symbol('x'), None);
    // the rendered symbols keep the original's swapped pairing
    assert_eq!(Direction::UpLeft.symbol(), 'e');
    assert_eq!(Direction::UpRight.symbol(), 'q');
    assert_eq!(Direction::DownLeft.symbol(), 'a');
    assert_eq!(Direction::DownRight.symbol(), 'd');
}

#[test]
fn player_names_and_turn_order() {
    let game = Checkers::new();
    assert!(matches!(game.turn_of, Player::Math));
    assert_eq!(Player::Math.name(), "Math");
    assert_eq!(Player::Alphabet.name(), "Alphabet");
    assert!(matches!(Player::Math.other(), Player::Alphabet));
    assert!(matches!(Player::Alphabet.other(), Player::Math));
}
