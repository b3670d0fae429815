use game_2048::{Direction, Gameboard};

fn count_tiles(board: &Gameboard) -> usize {
    let mut count = 0;
    for row in board.cells.iter() {
        for value in row.iter() {
            if *value != 0 {
                count += 1;
            }
        }
    }
    count
}

#[test]
fn no_tile_is_generated_on_a_full_board() {
    let cells = [[2, 4, 2, 4], [4, 2, 4, 2], [2, 4, 2, 4], [4, 2, 4, 2]];
    let mut b = Gameboard { cells };
    assert!(!b.generate_tile());
    assert_eq!(b.cells, cells);
    assert!(b.empty_cells().is_empty());
}

#[test]
fn the_one_empty_cell_gets_the_tile() {
    for y in 0..4 {
        for x in 0..4 {
            let mut cells = [[4u16; 4]; 4];
            cells[y][x] = 0;
            let mut b = Gameboard { cells };
            assert_eq!(b.empty_cells(), vec![(x, y)]);
            assert!(b.generate_tile());
            let mut expected = [[4u16; 4]; 4];
            expected[y][x] = 2;
            assert_eq!(b.cells, expected);
        }
    }
}

#[test]
fn generated_tile_is_a_two_on_an_empty_cell() {
    let start = [[2, 0, 0, 8], [0, 0, 4, 0], [0, 16, 0, 0], [0, 0, 0, 2]];
    for _ in 0..200 {
        let mut b = Gameboard { cells: start };
        assert!(b.generate_tile());
        let mut changed = 0;
        for y in 0..4 {
            for x in 0..4 {
                if b.cells[y][x] != start[y][x] {
                    assert_eq!(start[y][x], 0);
                    assert_eq!(b.cells[y][x], 2);
                    changed += 1;
                }
            }
        }
        assert_eq!(changed, 1);
    }
}

#[test]
fn generated_tiles_fill_the_board() {
    let mut b = Gameboard::new();
    for tiles in 1..=16 {
        assert!(b.generate_tile());
        assert_eq!(count_tiles(&b), tiles);
    }
    assert!(!b.generate_tile());
    assert_eq!(b.cells, [[2; 4]; 4]);
}

#[test]
fn every_empty_cell_can_get_the_tile() {
    // two empty cells: both must turn up in a long run
    let start = [[0, 4, 4, 4], [4, 4, 4, 4], [4, 4, 4, 4], [4, 4, 4, 0]];
    let mut first = false;
    let mut last = false;
    for _ in 0..400 {
        let mut b = Gameboard { cells: start };
        assert!(b.generate_tile());
        if b.cells[0][0] == 2 {
            first = true;
        }
        if b.cells[3][3] == 2 {
            last = true;
        }
    }
    assert!(first && last);
}

#[test]
fn empty_cells_go_down_the_columns() {
    let b = Gameboard::new();
    let free = b.empty_cells();
    assert_eq!(free.len(), 16);
    assert_eq!(&free[0..5], &[(0, 0), (0, 1), (0, 2), (0, 3), (1, 0)]);

    let b = Gameboard {
        cells: [[2, 0, 0, 8], [0, 4, 4, 4], [4, 16, 4, 4], [0, 4, 4, 0]],
    };
    assert_eq!(b.empty_cells(), vec![(0, 1), (0, 3), (1, 0), (2, 0), (3, 3)]);
}

#[test]
fn place_tile_takes_the_picked_empty_cell() {
    let start = [[2, 0, 0, 8], [0, 4, 4, 4], [4, 16, 4, 4], [0, 4, 4, 0]];

    let mut b = Gameboard { cells: start };
    assert!(b.place_tile(0));
    assert_eq!(
        b.cells,
        [[2, 0, 0, 8], [2, 4, 4, 4], [4, 16, 4, 4], [0, 4, 4, 0]]
    );

    let mut b = Gameboard { cells: start };
    assert!(b.place_tile(2));
    assert_eq!(
        b.cells,
        [[2, 2, 0, 8], [0, 4, 4, 4], [4, 16, 4, 4], [0, 4, 4, 0]]
    );

    let mut b = Gameboard { cells: start };
    assert!(b.place_tile(4));
    assert_eq!(
        b.cells,
        [[2, 0, 0, 8], [0, 4, 4, 4], [4, 16, 4, 4], [0, 4, 4, 2]]
    );
}

#[test]
fn place_tile_without_such_a_cell_changes_nothing() {
    let start = [[2, 0, 0, 8], [0, 4, 4, 4], [4, 16, 4, 4], [0, 4, 4, 0]];
    let mut b = Gameboard { cells: start };
    assert!(!b.place_tile(5));
    assert_eq!(b.cells, start);
    assert!(!b.place_tile(usize::MAX));
    assert_eq!(b.cells, start);

    let full = [[2, 4, 2, 4], [4, 2, 4, 2], [2, 4, 2, 4], [4, 2, 4, 2]];
    let mut b = Gameboard { cells: full };
    assert!(!b.place_tile(0));
    assert_eq!(b.cells, full);
}

#[test]
fn first_tile_then_a_move_towards_its_edge_and_one_away() {
    // empty board, first tile on a known cell: column 1 of the top row
    let mut b = Gameboard::new();
    assert!(b.place_tile(4));
    let placed = [[0, 2, 0, 0], [0, 0, 0, 0], [0, 0, 0, 0], [0, 0, 0, 0]];
    assert_eq!(b.cells, placed);

    // the tile lies at the upper edge: a move up changes nothing
    assert!(!b.collapse(Direction::UP));
    assert_eq!(b.cells, placed);

    // the nearest edge in its row is the left one
    assert!(b.collapse(Direction::LEFT));
    assert_eq!(
        b.cells,
        [[2, 0, 0, 0], [0, 0, 0, 0], [0, 0, 0, 0], [0, 0, 0, 0]]
    );

    // now it lies in the corner: neither up nor left changes anything
    assert!(!b.collapse(Direction::LEFT));
    assert!(!b.collapse(Direction::UP));
    assert!(b.collapse(Direction::DOWN));
    assert_eq!(
        b.cells,
        [[0, 0, 0, 0], [0, 0, 0, 0], [0, 0, 0, 0], [2, 0, 0, 0]]
    );
}
