use game_2048::{Direction, Gameboard, GameboardController, Key};

fn count_tiles(board: &Gameboard) -> usize {
    let mut count = 0;
    for row in board.cells.iter() {
        for value in row.iter() {
            if *value != 0 {
                count += 1;
            }
        }
    }
    count
}

/// Checks that `after` is `before` with one more tile, a 2, on a cell that
/// was empty.
fn assert_one_new_tile(before: [[u16; 4]; 4], after: [[u16; 4]; 4]) {
    let mut changed = 0;
    for y in 0..4 {
        for x in 0..4 {
            if before[y][x] != after[y][x] {
                assert_eq!(before[y][x], 0);
                assert_eq!(after[y][x], 2);
                changed += 1;
            }
        }
    }
    assert_eq!(changed, 1);
}

#[test]
fn keys_and_their_directions() {
    assert_eq!(Key::Left.to_direction(), Some(Direction::LEFT));
    assert_eq!(Key::Right.to_direction(), Some(Direction::RIGHT));
    assert_eq!(Key::Up.to_direction(), Some(Direction::UP));
    assert_eq!(Key::Down.to_direction(), Some(Direction::DOWN));
    assert_eq!(Key::Other.to_direction(), None);
}

#[test]
fn new_controller_starts_with_one_tile() {
    for _ in 0..50 {
        let controller = GameboardController::new(Gameboard::new());
        assert_one_new_tile([[0; 4]; 4], controller.gameboard.cells);
    }
}

#[test]
fn new_controller_keeps_a_full_board() {
    let cells = [[2, 4, 2, 4], [4, 2, 4, 2], [2, 4, 2, 4], [4, 2, 4, 2]];
    let controller = GameboardController::new(Gameboard { cells });
    assert_eq!(controller.gameboard.cells, cells);
}

#[test]
fn event_without_a_direction_changes_nothing() {
    let mut controller = GameboardController::new(Gameboard::new());
    let before = controller.gameboard.cells;
    controller.event(None);
    assert_eq!(controller.gameboard.cells, before);
    controller.event(Some(Key::Other));
    assert_eq!(controller.gameboard.cells, before);
}

#[test]
fn blocked_move_brings_no_new_tile() {
    let cells = [[2, 4, 0, 0], [4, 0, 0, 0], [0, 0, 0, 0], [0, 0, 0, 0]];
    let mut controller = GameboardController::new(Gameboard::new());
    controller.gameboard.cells = cells;
    for _ in 0..10 {
        controller.event(Some(Key::Left));
        assert_eq!(controller.gameboard.cells, cells);
        controller.event(Some(Key::Up));
        assert_eq!(controller.gameboard.cells, cells);
    }
}

#[test]
fn blocked_move_on_a_full_board_changes_nothing() {
    let cells = [[2, 4, 2, 4], [4, 2, 4, 2], [2, 4, 2, 4], [4, 2, 4, 2]];
    let mut controller = GameboardController::new(Gameboard { cells });
    for key in [Key::Left, Key::Right, Key::Up, Key::Down].iter() {
        controller.event(Some(*key));
        assert_eq!(controller.gameboard.cells, cells);
    }
}

#[test]
fn move_is_followed_by_a_new_tile() {
    let cells = [[2, 2, 0, 4], [0, 0, 0, 0], [0, 8, 0, 0], [0, 0, 0, 0]];
    let moves = [
        (Key::Left, Direction::LEFT),
        (Key::Right, Direction::RIGHT),
        (Key::Up, Direction::UP),
        (Key::Down, Direction::DOWN),
    ];
    for (key, dir) in moves.iter() {
        for _ in 0..20 {
            let mut moved = Gameboard { cells };
            assert!(moved.collapse(*dir));

            let mut controller = GameboardController::new(Gameboard::new());
            controller.gameboard.cells = cells;
            controller.event(Some(*key));
            assert_one_new_tile(moved.cells, controller.gameboard.cells);
        }
    }
}

#[test]
fn move_that_fills_the_last_gap_is_followed_by_a_tile_on_the_freed_cell() {
    // only the merge in the top row frees a cell, the last in that row
    let cells = [[2, 2, 4, 8], [4, 8, 16, 32], [2, 4, 8, 16], [4, 8, 16, 32]];
    let mut controller = GameboardController::new(Gameboard { cells });
    controller.event(Some(Key::Left));
    assert_eq!(
        controller.gameboard.cells,
        [[4, 4, 8, 2], [4, 8, 16, 32], [2, 4, 8, 16], [4, 8, 16, 32]]
    );
}

#[test]
fn a_short_game_keeps_one_more_tile_per_move_at_most() {
    let mut controller = GameboardController::new(Gameboard::new());
    let keys = [Key::Left, Key::Up, Key::Right, Key::Down, Key::Other];
    for round in 0..40 {
        let before = count_tiles(&controller.gameboard);
        let key = keys[round % keys.len()];
        if let Some(dir) = key.to_direction() {
            assert!(controller.gameboard.can_collapse(dir));
        }
        controller.event(Some(key));
        let after = count_tiles(&controller.gameboard);
        assert!(after <= before + 1);
        assert!(after >= 1);
    }
}
