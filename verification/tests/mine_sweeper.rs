use console_games::games::mine_sweeper::internal::cell::Cell;
use console_games::games::mine_sweeper::internal::MineSweeper;
use console_games::games::mine_sweeper::internal::MineSweeperError;

fn corner_mine_field() -> MineSweeper {
    // a 3-by-3 grid with a single mine in the top-left corner
    let mines = vec![
        vec![true, false, false],
        vec![false, false, false],
        vec![false, false, false],
    ];
    MineSweeper::from_mines(&mines)
}

#[test]
fn adjacency_counts_match_a_hand_scan() {
    let m = corner_mine_field();
    assert_eq!(m.size, 3);
    assert_eq!(m.cell_count, 9);
    assert_eq!(m.mines_count, 1);
    // the three cells around the mine count it; everything else counts zero
    assert_eq!(m.field[0][1].adjacent_count(), 1);
    assert_eq!(m.field[1][0].adjacent_count(), 1);
    assert_eq!(m.field[1][1].adjacent_count(), 1);
    assert_eq!(m.field[0][2].adjacent_count(), 0);
    assert_eq!(m.field[2][0].adjacent_count(), 0);
    assert_eq!(m.field[2][2].adjacent_count(), 0);
}

#[test]
fn cascade_reveals_whole_safe_region_and_wins() {
    let mut m = corner_mine_field();
    assert!(!m.is_won());
    // the far corner has no adjacent mines, so revealing it floods the
    // connected zero region together with its numbered rim
    assert_eq!(m.reveal_at(2, 2), Ok(()));
    assert_eq!(m.revealed_count, 8);
    for y in 0..3 {
        for x in 0..3 {
            if x == 0 && y == 0 {
                assert!(!m.field[y][x].is_revealed());
            } else {
                assert!(m.field[y][x].is_revealed());
            }
        }
    }
    assert!(m.is_won());
}

#[test]
fn revealing_a_numbered_cell_reveals_it_alone() {
    let mut m = corner_mine_field();
    assert_eq!(m.reveal_at(1, 0), Ok(()));
    assert_eq!(m.revealed_count, 1);
    assert!(m.field[0][1].is_revealed());
    assert!(!m.field[1][1].is_revealed());
    assert!(!m.is_won());
}

#[test]
fn revealing_twice_is_rejected_and_changes_nothing() {
    let mut m = corner_mine_field();
    assert_eq!(m.reveal_at(1, 0), Ok(()));
    let revealed_before = m.revealed_count;
    assert_eq!(m.reveal_at(1, 0), Err(MineSweeperError::IllegalReveal));
    assert_eq!(m.revealed_count, revealed_before);
    assert!(m.field[0][1].is_revealed());
}

#[test]
fn revealing_a_flagged_cell_is_rejected() {
    let mut m = corner_mine_field();
    assert_eq!(m.toggle_flag(1, 1), Ok(()));
    assert_eq!(m.reveal_at(1, 1), Err(MineSweeperError::IllegalReveal));
    assert!(!m.field[1][1].is_revealed());
}

#[test]
fn revealing_a_mine_is_the_terminal_signal() {
    let mut m = corner_mine_field();
    assert_eq!(m.reveal_at(0, 0), Err(MineSweeperError::MineTriggered));
    assert!(!m.field[0][0].is_revealed());
    assert_eq!(m.revealed_count, 0);
}

#[test]
fn out_of_bounds_coordinates_are_rejected() {
    let mut m = corner_mine_field();
    assert_eq!(m.reveal_at(3, 1), Err(MineSweeperError::InvalidCoordinate));
    assert_eq!(m.toggle_flag(1, 3), Err(MineSweeperError::InvalidCoordinate));
}

#[test]
fn toggling_a_flag_twice_restores_the_state() {
    let mut m = corner_mine_field();
    assert_eq!(m.placed_flags, 0);
    assert_eq!(m.toggle_flag(2, 1), Ok(()));
    assert!(m.field[1][2].is_flagged());
    assert_eq!(m.placed_flags, 1);
    assert_eq!(m.toggle_flag(2, 1), Ok(()));
    assert!(!m.field[1][2].is_flagged());
    assert_eq!(m.placed_flags, 0);
}

#[test]
fn flagging_a_revealed_cell_is_rejected() {
    let mut m = corner_mine_field();
    assert_eq!(m.reveal_at(1, 0), Ok(()));
    assert_eq!(m.toggle_flag(1, 0), Err(MineSweeperError::IllegalFlag));
    assert!(!m.field[0][1].is_flagged());
}

#[test]
fn flagging_every_mine_does_not_win() {
    let mut m = corner_mine_field();
    assert_eq!(m.toggle_flag(0, 0), Ok(()));
    assert!(!m.is_won());
}

#[test]
fn remaining_flags_can_go_negative() {
    let mut m = corner_mine_field();
    assert_eq!(m.remaining_flags(), 1);
    assert_eq!(m.toggle_flag(1, 1), Ok(()));
    assert_eq!(m.toggle_flag(2, 2), Ok(()));
    assert_eq!(m.remaining_flags(), -1);
}

#[test]
fn reveal_all_mines_touches_only_mines() {
    let mut m = corner_mine_field();
    assert_eq!(m.reveal_at(1, 0), Ok(()));
    let revealed_before = m.revealed_count;
    m.reveal_all_mines();
    assert!(m.field[0][0].is_revealed());
    assert!(!m.field[2][2].is_revealed());
    assert_eq!(m.revealed_count, revealed_before);
    assert_eq!(m.mines_count, 1);
}

#[test]
fn coordinate_symbols_map_digits_then_letters() {
    let mines = vec![vec![false; 10]; 10];
    let m = MineSweeper::from_mines(&mines);
    assert_eq!(m.find_coord_indices('1', '1'), Some((0, 0)));
    assert_eq!(m.find_coord_indices('a', '2'), Some((9, 1)));
    // a symbol beyond this grid, or outside the alphabet, is rejected
    assert_eq!(m.find_coord_indices('b', '1'), None);
    assert_eq!(m.find_coord_indices('?', '1'), None);
}

#[test]
fn adjacent_coordinates_stay_on_the_grid() {
    // the corner keeps three of the eight offsets, in scan order
    let corner = MineSweeper::get_adjacent_coord(3, 0, 0);
    assert_eq!(corner, vec![(1, 0), (0, 1), (1, 1)]);
    let center = MineSweeper::get_adjacent_coord(3, 1, 1);
    assert_eq!(
        center,
        vec![(0, 0), (1, 0), (2, 0), (0, 1), (2, 1), (0, 2), (1, 2), (2, 2)]
    );
    assert!(!center.contains(&(1, 1)));
}

#[test]
fn a_generated_field_starts_untouched() {
    let m = MineSweeper::new(9);
    assert_eq!(m.size, 9);
    assert_eq!(m.cell_count, 81);
    assert_eq!(m.revealed_count, 0);
    assert_eq!(m.placed_flags, 0);
    assert!(m.mines_count <= 81);
    assert!(!m.is_won() || m.mines_count == 81);
}

#[test]
fn cell_accessors_report_what_was_set() {
    let mut c = Cell::new(true);
    assert!(c.is_mine());
    assert!(!c.is_revealed());
    assert!(!c.is_flagged());
    assert_eq!(c.adjacent_count(), 0);
    c.set_adjacent_count(5);
    assert_eq!(c.adjacent_count(), 5);
    c.mark_revealed();
    assert!(c.is_revealed());
    let f = c.is_flagged_mut();
    *f = true;
    assert!(c.is_flagged());
}
