//! What holds of every move, whatever the board and the direction.

use crate::gameboard::{Direction, SIZE};
use crate::grid::{
    collapsed, fits, full, grid_sum, lemma_lines_of_collapsed, lemma_settled_iff_fixed,
    lemma_sum_by_lines, line_cell, line_index, line_of, line_offset, on_board, settled,
    well_shaped,
};
use crate::line::{
    collapse_line, lemma_changed_line_has_room, lemma_collapse_line, lemma_collapse_line_bound,
    lemma_no_second_merge, lemma_settled_line_iff_fixed, lemma_slide_keeps_tiles,
    merged_once_at_most, settled_line, tiles, without_pairs,
};
use vstd::prelude::*;

verus! {

/// No two cells that lie side by side or one above the other hold the same
/// value.
pub open spec fn neighbours_differ(grid: Seq<Seq<nat>>) -> bool {
    forall|x: int, y: int|
        #![trigger on_board(x, y)]
        on_board(x, y) ==> (on_board(x + 1, y) ==> grid[y][x] != grid[y][x + 1]) && (on_board(
            x,
            y + 1,
        ) ==> grid[y][x] != grid[y + 1][x])
}

/// A move keeps the sum of all values on the board: a slide moves a value,
/// and a merge puts the sum of two equal values into one cell.
pub proof fn lemma_collapse_keeps_sum(grid: Seq<Seq<nat>>, dir: Direction)
    requires
        well_shaped(grid),
    ensures
        grid_sum(collapsed(grid, dir)) == grid_sum(grid),
{
    let after = collapsed(grid, dir);
    lemma_sum_by_lines(grid, dir);
    lemma_sum_by_lines(after, dir);
    lemma_lines_of_collapsed(grid, dir, 0);
    lemma_lines_of_collapsed(grid, dir, 1);
    lemma_lines_of_collapsed(grid, dir, 2);
    lemma_lines_of_collapsed(grid, dir, 3);
    lemma_collapse_line(line_of(grid, dir, 0));
    lemma_collapse_line(line_of(grid, dir, 1));
    lemma_collapse_line(line_of(grid, dir, 2));
    lemma_collapse_line(line_of(grid, dir, 3));
}

/// A move at most doubles a tile: every tile on the board after a move shows
/// the value of a tile that lay in its line before the move, or twice that
/// value.
pub proof fn lemma_tile_merges_once_at_most(grid: Seq<Seq<nat>>, dir: Direction, x: int, y: int)
    requires
        on_board(x, y),
        collapsed(grid, dir)[y][x] != 0,
    ensures
        merged_once_at_most(
            collapsed(grid, dir)[y][x],
            line_of(grid, dir, line_index(dir, x, y)),
        ),
{
    lemma_no_second_merge(line_of(grid, dir, line_index(dir, x, y)), line_offset(dir, x, y));
}

/// In a line in which no two neighbouring tiles are equal, a move merges
/// nothing: the line keeps its tiles, in their order.
pub proof fn lemma_slide_keeps_order(grid: Seq<Seq<nat>>, dir: Direction, line: int)
    requires
        0 <= line < SIZE,
        without_pairs(tiles(line_of(grid, dir, line))),
    ensures
        tiles(line_of(collapsed(grid, dir), dir, line)) == tiles(line_of(grid, dir, line)),
{
    lemma_lines_of_collapsed(grid, dir, line);
    lemma_slide_keeps_tiles(line_of(grid, dir, line));
}

/// On a full board on which no two neighbouring cells hold the same value,
/// a move in any direction changes nothing.
pub proof fn lemma_full_board_is_fixed(grid: Seq<Seq<nat>>, dir: Direction)
    requires
        well_shaped(grid),
        full(grid),
        neighbours_differ(grid),
    ensures
        settled(grid, dir),
        collapsed(grid, dir) == grid,
{
    assert forall|line: int| 0 <= line < SIZE implies settled_line(
        #[trigger] line_of(grid, dir, line),
    ) by {
        let cells = line_of(grid, dir, line);
        assert forall|i: int| 0 < i < cells.len() && cells[i] != 0 implies cells[i - 1] != 0
            && cells[i - 1] != #[trigger] cells[i] by {
            let here = line_cell(dir, line, i);
            let before = line_cell(dir, line, i - 1);
            assert(on_board(here.0, here.1));
            assert(on_board(before.0, before.1));
            assert(cells[i] == grid[here.1][here.0]);
            assert(cells[i - 1] == grid[before.1][before.0]);
        }
    }
    lemma_settled_iff_fixed(grid, dir);
}

/// Once a move has settled the board, the same move again changes nothing.
pub proof fn lemma_settled_board_stays(grid: Seq<Seq<nat>>, dir: Direction)
    requires
        settled(collapsed(grid, dir), dir),
    ensures
        collapsed(collapsed(grid, dir), dir) == collapsed(grid, dir),
{
    lemma_settled_iff_fixed(collapsed(grid, dir), dir);
}

/// A move that changes the board leaves an empty cell on it.
pub proof fn lemma_changed_board_has_room(grid: Seq<Seq<nat>>, dir: Direction)
    requires
        well_shaped(grid),
        collapsed(grid, dir) != grid,
    ensures
        !full(collapsed(grid, dir)),
{
    let after = collapsed(grid, dir);
    lemma_settled_iff_fixed(grid, dir);
    let line = choose|line: int|
        0 <= line < SIZE && !settled_line(#[trigger] line_of(grid, dir, line));
    let cells = line_of(grid, dir, line);
    lemma_settled_line_iff_fixed(cells);
    lemma_changed_line_has_room(cells);
    lemma_lines_of_collapsed(grid, dir, line);
    let last = line_cell(dir, line, SIZE - 1);
    assert(on_board(last.0, last.1));
    assert(line_of(after, dir, line)[SIZE - 1] == after[last.1][last.0]);
}

/// On a board on which no tile can move or merge, a move produces no value
/// that the board does not hold.
pub proof fn lemma_settled_fits(grid: Seq<Seq<nat>>, dir: Direction)
    requires
        well_shaped(grid),
        settled(grid, dir),
        forall|x: int, y: int| on_board(x, y) ==> #[trigger] grid[y][x] <= u16::MAX,
    ensures
        fits(grid, dir),
{
    assert forall|line: int, offset: int|
        0 <= line < SIZE && 0 <= offset < SIZE implies #[trigger] collapse_line(
        line_of(grid, dir, line),
    )[offset] <= u16::MAX by {
        let cells = line_of(grid, dir, line);
        lemma_settled_line_iff_fixed(cells);
        let cell = line_cell(dir, line, offset);
        assert(on_board(cell.0, cell.1));
        assert(cells[offset] == grid[cell.1][cell.0]);
    }
}

/// Where no value on the board is above 32767, every value that a move
/// produces fits into a cell.
pub proof fn lemma_small_values_fit(grid: Seq<Seq<nat>>, dir: Direction)
    requires
        well_shaped(grid),
        forall|x: int, y: int| on_board(x, y) ==> #[trigger] grid[y][x] <= 0x7fff,
    ensures
        fits(grid, dir),
{
    assert forall|line: int, offset: int|
        0 <= line < SIZE && 0 <= offset < SIZE implies #[trigger] collapse_line(
        line_of(grid, dir, line),
    )[offset] <= u16::MAX by {
        let cells = line_of(grid, dir, line);
        assert forall|i: int| 0 <= i < cells.len() implies cells[i] <= 0x7fff by {
            let cell = line_cell(dir, line, i);
            assert(on_board(cell.0, cell.1));
            assert(cells[i] == grid[cell.1][cell.0]);
        }
        lemma_collapse_line_bound(cells, 0x7fff);
    }
}

} // verus!
