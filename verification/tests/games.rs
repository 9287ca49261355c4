use console_games::games::tower_of_hanoi::internal::Pole;
use console_games::games::tower_of_hanoi::internal::TowerOfHanoi;
use console_games::games::tower_of_hanoi::internal::error::ParseDiskMoveError;
use console_games::GameCenter;
use console_games::GameKind;
use console_games::GameManager;
use console_games::Play;
use console_games::util::below_threshold;
use console_games::util::probability;
use console_games::util::TimeCounter;

#[test]
fn a_fresh_tower_stacks_everything_on_the_left() {
    let game = TowerOfHanoi::new(3);
    assert_eq!(game.disk_count, 3);
    assert_eq!(game.poles[0].disks.len(), 3);
    assert_eq!(game.poles[0].disks[0].size, 3);
    assert_eq!(game.poles[0].disks[2].size, 1);
    assert!(game.poles[1].disks.is_empty());
    assert!(game.poles[2].disks.is_empty());
    assert!(!game.win());
}

#[test]
fn pole_build_counts_down_from_the_bottom() {
    let pole = Pole::build(4);
    assert_eq!(pole.disks.len(), 4);
    assert_eq!(pole.disks[0].size, 4);
    assert_eq!(pole.disks[3].size, 1);
}

#[test]
fn illegal_disk_moves_are_rejected() {
    let mut game = TowerOfHanoi::new(3);
    assert!(game.move_disk(1, 2).is_err());
    assert_eq!(game.move_disk(0, 2), Ok(()));
    // the next disk of the left pole is larger than the one just moved
    assert!(game.move_disk(0, 2).is_err());
    assert_eq!(game.poles[2].disks.len(), 1);
    assert_eq!(game.poles[0].disks.len(), 2);
}

#[test]
fn solving_three_disks_wins_the_game() {
    let mut game = TowerOfHanoi::new(3);
    let moves = [(0, 2), (0, 1), (2, 1), (0, 2), (1, 0), (1, 2), (0, 2)];
    for (from, to) in moves {
        assert_eq!(game.move_disk(from, to), Ok(()));
    }
    assert!(game.win());
    assert_eq!(game.poles[2].disks.len(), 3);
}

#[test]
fn disk_move_error_remembers_the_pole() {
    let err = ParseDiskMoveError::new(5);
    assert_eq!(err.pole_index, 5);
}

#[test]
fn the_game_center_offers_five_games() {
    let games = GameCenter::games();
    assert_eq!(
        games,
        vec![
            GameKind::GuessTheWord,
            GameKind::GuessTheNumber,
            GameKind::WordType,
            GameKind::FourInALine,
            GameKind::TowerOfHanoi,
        ]
    );
}

#[test]
fn the_reduced_menu_offers_the_guessing_games() {
    let games = GameManager::games();
    assert_eq!(games, vec![GameKind::GuessTheWord, GameKind::GuessTheNumber]);
}

#[test]
fn every_game_announces_itself() {
    assert_eq!(console_games::games::MineSweeper.name(), "Mine Sweeper");
    assert!(console_games::games::MineSweeper.instructions().is_some());
    assert_eq!(console_games::games::Checkers.name(), "Checkers");
    assert!(console_games::games::Checkers.instructions().is_some());
    assert_eq!(console_games::games::TowerOfHanoi.name(), "Tower of Hanoi");
    assert_eq!(console_games::games::GuessTheNumber.name(), "Guess the Number");
    assert!(console_games::games::GuessTheNumber.instructions().is_none());
    assert_eq!(console_games::games::GuessTheWord.name(), "Guess the Word");
    assert_eq!(console_games::games::WordType.name(), "Word Type");
    assert_eq!(console_games::games::FourInALine.name(), "Four in A Row");
}

#[test]
fn a_zero_chance_never_fires() {
    for _ in 0..200 {
        assert!(!probability(0));
    }
}

#[test]
fn a_certain_chance_always_fires() {
    for _ in 0..200 {
        assert!(probability(100));
    }
}

#[test]
fn the_threshold_decision_is_a_strict_comparison() {
    assert!(below_threshold(0, 20));
    assert!(below_threshold(19, 20));
    assert!(!below_threshold(20, 20));
    assert!(!below_threshold(99, 0));
}

#[test]
fn the_stopwatch_needs_both_ends() {
    let mut counter = TimeCounter::new();
    assert!(counter.duration().is_none());
    counter.start();
    assert!(counter.duration().is_none());
    counter.stop();
    assert!(counter.duration().is_some());
}
