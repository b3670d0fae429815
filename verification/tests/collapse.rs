use game_2048::{Direction, Gameboard};

fn board(cells: [[u16; 4]; 4]) -> Gameboard {
    Gameboard { cells }
}

fn sum(board: &Gameboard) -> u32 {
    let mut sum = 0u32;
    for row in board.cells.iter() {
        for value in row.iter() {
            sum += *value as u32;
        }
    }
    sum
}

const DIRECTIONS: [Direction; 4] = [
    Direction::UP,
    Direction::DOWN,
    Direction::LEFT,
    Direction::RIGHT,
];

#[test]
fn row_of_four_equal_tiles_merges_in_pairs() {
    let mut b = board([[2, 2, 2, 2], [0, 0, 0, 0], [0, 0, 0, 0], [0, 0, 0, 0]]);
    assert!(b.can_collapse(Direction::LEFT));
    assert!(b.collapse(Direction::LEFT));
    assert_eq!(
        b.cells,
        [[4, 4, 0, 0], [0, 0, 0, 0], [0, 0, 0, 0], [0, 0, 0, 0]]
    );
}

#[test]
fn row_of_four_equal_tiles_merges_in_pairs_to_the_right() {
    let mut b = board([[0, 0, 0, 0], [0, 0, 0, 0], [8, 8, 8, 8], [0, 0, 0, 0]]);
    assert!(b.collapse(Direction::RIGHT));
    assert_eq!(
        b.cells,
        [[0, 0, 0, 0], [0, 0, 0, 0], [0, 0, 16, 16], [0, 0, 0, 0]]
    );
}

#[test]
fn slide_without_merge_keeps_order() {
    let mut b = board([[0, 2, 0, 4], [0, 0, 0, 0], [0, 0, 0, 0], [0, 0, 0, 0]]);
    assert!(b.collapse(Direction::LEFT));
    assert_eq!(
        b.cells,
        [[2, 4, 0, 0], [0, 0, 0, 0], [0, 0, 0, 0], [0, 0, 0, 0]]
    );
}

#[test]
fn slide_without_merge_keeps_order_in_every_direction() {
    let start = [[0, 2, 0, 4], [0, 0, 0, 0], [8, 0, 0, 0], [0, 0, 0, 16]];

    let mut b = board(start);
    assert!(b.collapse(Direction::RIGHT));
    assert_eq!(
        b.cells,
        [[0, 0, 2, 4], [0, 0, 0, 0], [0, 0, 0, 8], [0, 0, 0, 16]]
    );

    let mut b = board(start);
    assert!(b.collapse(Direction::UP));
    assert_eq!(
        b.cells,
        [[8, 2, 0, 4], [0, 0, 0, 16], [0, 0, 0, 0], [0, 0, 0, 0]]
    );

    let mut b = board(start);
    assert!(b.collapse(Direction::DOWN));
    assert_eq!(
        b.cells,
        [[0, 0, 0, 0], [0, 0, 0, 0], [0, 0, 0, 4], [8, 2, 0, 16]]
    );
}

#[test]
fn merge_starts_at_the_edge_the_tiles_move_to() {
    let mut b = board([[2, 2, 2, 0], [0, 0, 0, 0], [0, 0, 0, 0], [0, 0, 0, 0]]);
    assert!(b.collapse(Direction::LEFT));
    assert_eq!(b.cells[0], [4, 2, 0, 0]);

    let mut b = board([[2, 2, 2, 0], [0, 0, 0, 0], [0, 0, 0, 0], [0, 0, 0, 0]]);
    assert!(b.collapse(Direction::RIGHT));
    assert_eq!(b.cells[0], [0, 0, 2, 4]);
}

#[test]
fn merged_tile_does_not_merge_again() {
    let mut b = board([[4, 4, 8, 0], [0, 0, 0, 0], [0, 0, 0, 0], [0, 0, 0, 0]]);
    assert!(b.collapse(Direction::LEFT));
    assert_eq!(b.cells[0], [8, 8, 0, 0]);

    let mut b = board([[2, 2, 4, 8], [0, 0, 0, 0], [0, 0, 0, 0], [0, 0, 0, 0]]);
    assert!(b.collapse(Direction::LEFT));
    assert_eq!(b.cells[0], [4, 4, 8, 0]);
}

#[test]
fn tile_behind_a_merge_stops_behind_it() {
    let mut b = board([[2, 0, 2, 4], [0, 0, 0, 0], [0, 0, 0, 0], [0, 0, 0, 0]]);
    assert!(b.collapse(Direction::LEFT));
    assert_eq!(b.cells[0], [4, 4, 0, 0]);
}

#[test]
fn columns_collapse_up_and_down() {
    let start = [[2, 0, 4, 2], [0, 0, 4, 2], [2, 0, 8, 2], [0, 16, 8, 0]];

    let mut b = board(start);
    assert!(b.collapse(Direction::UP));
    assert_eq!(
        b.cells,
        [[4, 16, 8, 4], [0, 0, 16, 2], [0, 0, 0, 0], [0, 0, 0, 0]]
    );

    let mut b = board(start);
    assert!(b.collapse(Direction::DOWN));
    assert_eq!(
        b.cells,
        [[0, 0, 0, 0], [0, 0, 0, 0], [0, 0, 8, 2], [4, 16, 16, 4]]
    );
}

#[test]
fn every_line_merges_on_its_own() {
    let mut b = board([[2, 2, 0, 0], [2, 2, 0, 0], [4, 0, 4, 0], [0, 0, 8, 8]]);
    assert!(b.collapse(Direction::LEFT));
    assert_eq!(
        b.cells,
        [[4, 0, 0, 0], [4, 0, 0, 0], [8, 0, 0, 0], [16, 0, 0, 0]]
    );
}

#[test]
fn merge_in_one_line_does_not_block_the_next() {
    // The first column merges into its top cell; the second column must
    // still slide and merge past the row of that cell.
    let mut b = board([[2, 0, 0, 0], [2, 4, 0, 0], [0, 4, 0, 0], [0, 0, 0, 0]]);
    assert!(b.collapse(Direction::UP));
    assert_eq!(
        b.cells,
        [[4, 8, 0, 0], [0, 0, 0, 0], [0, 0, 0, 0], [0, 0, 0, 0]]
    );
}

#[test]
fn values_that_are_no_powers_of_two_merge_too() {
    let mut b = board([[3, 3, 0, 5], [0, 0, 0, 0], [0, 0, 0, 0], [0, 0, 0, 0]]);
    assert!(b.collapse(Direction::LEFT));
    assert_eq!(b.cells[0], [6, 5, 0, 0]);
}

#[test]
fn collapse_keeps_the_sum() {
    let boards = [
        [[2, 2, 2, 2], [0, 0, 0, 0], [0, 0, 0, 0], [0, 0, 0, 0]],
        [[2, 0, 4, 2], [0, 0, 4, 2], [2, 0, 8, 2], [0, 16, 8, 0]],
        [[2, 4, 8, 16], [32, 64, 128, 256], [512, 1024, 2048, 4096], [8192, 16384, 16384, 2]],
        [[0, 0, 0, 0], [0, 0, 0, 0], [0, 0, 0, 0], [0, 0, 0, 0]],
        [[4, 4, 4, 4], [4, 4, 4, 4], [4, 4, 4, 4], [4, 4, 4, 4]],
    ];
    for cells in boards.iter() {
        for dir in DIRECTIONS.iter() {
            let mut b = board(*cells);
            let before = sum(&b);
            assert!(b.can_collapse(*dir));
            b.collapse(*dir);
            assert_eq!(sum(&b), before);
        }
    }
}

#[test]
fn full_board_without_equal_neighbours_does_not_change() {
    let cells = [[2, 4, 2, 4], [4, 2, 4, 2], [2, 4, 2, 4], [4, 2, 4, 2]];
    for dir in DIRECTIONS.iter() {
        let mut b = board(cells);
        assert!(!b.collapse(*dir));
        assert_eq!(b.cells, cells);
    }
}

#[test]
fn empty_board_does_not_change() {
    for dir in DIRECTIONS.iter() {
        let mut b = Gameboard::new();
        assert!(!b.collapse(*dir));
        assert_eq!(b.cells, [[0; 4]; 4]);
    }
}

#[test]
fn collapse_reports_exactly_the_changes() {
    // packed against the left and upper edges, no equal neighbours in a
    // row, but equal neighbours in a column
    let cells = [[2, 4, 0, 0], [2, 8, 0, 0], [0, 0, 0, 0], [0, 0, 0, 0]];
    let mut b = board(cells);
    assert!(!b.collapse(Direction::LEFT));
    assert_eq!(b.cells, cells);
    assert!(b.collapse(Direction::RIGHT));
    assert_eq!(
        b.cells,
        [[0, 0, 2, 4], [0, 0, 2, 8], [0, 0, 0, 0], [0, 0, 0, 0]]
    );
    let mut b = board(cells);
    assert!(b.collapse(Direction::UP));
    assert_eq!(
        b.cells,
        [[4, 4, 0, 0], [0, 8, 0, 0], [0, 0, 0, 0], [0, 0, 0, 0]]
    );
}

#[test]
fn second_collapse_of_a_settled_board_changes_nothing() {
    let mut b = board([[0, 2, 0, 4], [0, 0, 0, 0], [8, 0, 0, 0], [0, 0, 0, 16]]);
    assert!(b.collapse(Direction::LEFT));
    let settled = b.cells;
    assert!(!b.collapse(Direction::LEFT));
    assert_eq!(b.cells, settled);
}

#[test]
fn second_collapse_merges_what_the_first_put_side_by_side() {
    let mut b = board([[2, 2, 4, 0], [0, 0, 0, 0], [0, 0, 0, 0], [0, 0, 0, 0]]);
    assert!(b.collapse(Direction::LEFT));
    assert_eq!(b.cells[0], [4, 4, 0, 0]);
    assert!(b.collapse(Direction::LEFT));
    assert_eq!(b.cells[0], [8, 0, 0, 0]);
    assert!(!b.collapse(Direction::LEFT));
    assert_eq!(b.cells[0], [8, 0, 0, 0]);
}

#[test]
fn can_collapse_tells_when_a_merge_is_too_large() {
    let b = board([[32768, 32768, 0, 0], [0, 0, 0, 0], [0, 0, 0, 0], [0, 0, 0, 0]]);
    assert!(!b.can_collapse(Direction::LEFT));
    assert!(!b.can_collapse(Direction::RIGHT));
    assert!(b.can_collapse(Direction::UP));
    assert!(b.can_collapse(Direction::DOWN));

    let b = board([[32768, 0, 0, 0], [0, 0, 0, 0], [32768, 0, 0, 0], [0, 0, 0, 0]]);
    assert!(!b.can_collapse(Direction::UP));
    assert!(!b.can_collapse(Direction::DOWN));
    assert!(b.can_collapse(Direction::LEFT));

    // the two large tiles do not meet: the tile between them differs
    let b = board([[32768, 2, 32768, 0], [0, 0, 0, 0], [0, 0, 0, 0], [0, 0, 0, 0]]);
    assert!(b.can_collapse(Direction::LEFT));

    // the pair at the edge merges first, the third tile stays alone
    let b = board([[16384, 16384, 32768, 0], [0, 0, 0, 0], [0, 0, 0, 0], [0, 0, 0, 0]]);
    assert!(b.can_collapse(Direction::LEFT));
    let b = board([[16384, 32768, 32768, 0], [0, 0, 0, 0], [0, 0, 0, 0], [0, 0, 0, 0]]);
    assert!(!b.can_collapse(Direction::LEFT));
    let b = board([[32768, 32768, 32768, 0], [0, 0, 0, 0], [0, 0, 0, 0], [0, 0, 0, 0]]);
    assert!(!b.can_collapse(Direction::LEFT));
}

#[test]
fn largest_merge_that_fits() {
    let mut b = board([[16384, 16384, 32768, 0], [0, 0, 0, 0], [0, 0, 0, 0], [0, 0, 0, 0]]);
    assert!(b.collapse(Direction::LEFT));
    assert_eq!(b.cells[0], [32768, 32768, 0, 0]);
}

#[test]
fn direction_vectors() {
    assert_eq!(Direction::UP.value(), (0, -1));
    assert_eq!(Direction::DOWN.value(), (0, 1));
    assert_eq!(Direction::LEFT.value(), (-1, 0));
    assert_eq!(Direction::RIGHT.value(), (1, 0));
}

#[test]
fn positions_on_and_off_the_board() {
    assert!(Gameboard::is_valid_pos((0, 0)));
    assert!(Gameboard::is_valid_pos((3, 3)));
    assert!(Gameboard::is_valid_pos((0, 3)));
    assert!(!Gameboard::is_valid_pos((4, 0)));
    assert!(!Gameboard::is_valid_pos((0, 4)));
    assert!(!Gameboard::is_valid_pos((usize::MAX, usize::MAX)));
}

#[test]
fn adding_a_step_to_a_position() {
    assert_eq!(Gameboard::add((1, 2), (0, -1)), Some((1, 1)));
    assert_eq!(Gameboard::add((1, 2), (1, 0)), Some((2, 2)));
    assert_eq!(Gameboard::add((3, 3), (1, 0)), Some((4, 3)));
    assert_eq!(Gameboard::add((0, 2), (-1, 0)), None);
    assert_eq!(Gameboard::add((2, 0), (0, -1)), None);
    assert_eq!(Gameboard::add((usize::MAX, 0), (1, 0)), None);
    assert_eq!(Gameboard::add((5, 7), (-5, -7)), Some((0, 0)));
}

#[test]
fn traversal_starts_at_the_edge_the_tiles_move_to() {
    let up = Gameboard::iterate(&Direction::UP);
    assert_eq!(up.len(), 16);
    assert_eq!(&up[0..5], &[(0, 0), (0, 1), (0, 2), (0, 3), (1, 0)]);
    assert_eq!(up[15], (3, 3));

    let down = Gameboard::iterate(&Direction::DOWN);
    assert_eq!(down.len(), 16);
    assert_eq!(&down[0..5], &[(0, 3), (0, 2), (0, 1), (0, 0), (1, 3)]);
    assert_eq!(down[15], (3, 0));

    let left = Gameboard::iterate(&Direction::LEFT);
    assert_eq!(left.len(), 16);
    assert_eq!(&left[0..5], &[(0, 0), (1, 0), (2, 0), (3, 0), (0, 1)]);
    assert_eq!(left[15], (3, 3));

    let right = Gameboard::iterate(&Direction::RIGHT);
    assert_eq!(right.len(), 16);
    assert_eq!(&right[0..5], &[(3, 0), (2, 0), (1, 0), (0, 0), (3, 1)]);
    assert_eq!(right[15], (0, 3));
}

#[test]
fn traversal_visits_every_cell_once() {
    for dir in DIRECTIONS.iter() {
        let order = Gameboard::iterate(dir);
        let mut seen = [[false; 4]; 4];
        for pos in order.iter() {
            assert!(Gameboard::is_valid_pos(*pos));
            assert!(!seen[pos.1][pos.0]);
            seen[pos.1][pos.0] = true;
        }
        assert_eq!(seen, [[true; 4]; 4]);
    }
}

#[test]
fn get_and_set_take_the_column_first() {
    let mut b = Gameboard::new();
    b.set(&(1, 2), 8);
    assert_eq!(b.get(&(1, 2)), 8);
    assert_eq!(b.cells[2][1], 8);
    assert_eq!(b.get(&(2, 1)), 0);
    b.set(&(1, 2), 0);
    assert_eq!(b.cells, [[0; 4]; 4]);
}

#[test]
fn new_board_is_empty() {
    let b = Gameboard::new();
    assert_eq!(b.cells, [[0; 4]; 4]);
}
