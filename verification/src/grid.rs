//! The board as a mathematical grid, and what a move makes of it.
//!
//! A grid is a sequence of rows, each a sequence of cell values: `grid[y][x]`
//! is the cell in column `x` of row `y`. A move works on lines: the columns
//! for a vertical move, the rows for a horizontal one. Within a line the
//! cells are counted from the edge the tiles move to.

use crate::gameboard::{Direction, SIZE};
use crate::line::{
    collapse_line, lemma_collapse_line, lemma_settled_line_iff_fixed, settled_line, tile_value,
    total, valid_line,
};
use vstd::prelude::*;

verus! {

/// The grid has `SIZE` rows of `SIZE` cells.
pub open spec fn well_shaped(grid: Seq<Seq<nat>>) -> bool {
    &&& grid.len() == SIZE
    &&& forall|y: int| 0 <= y < SIZE ==> (#[trigger] grid[y]).len() == SIZE
}

/// The position lies on the board.
pub open spec fn on_board(x: int, y: int) -> bool {
    0 <= x < SIZE && 0 <= y < SIZE
}

/// The grid with the value `value` in column `x` of row `y`.
pub open spec fn with_cell(grid: Seq<Seq<nat>>, x: int, y: int, value: nat) -> Seq<Seq<nat>> {
    grid.update(y, grid[y].update(x, value))
}

/// The position, column first, of the cell of line `line` that lies `offset`
/// cells from the edge the tiles move to.
pub open spec fn line_cell(dir: Direction, line: int, offset: int) -> (int, int) {
    match dir {
        Direction::UP => (line, offset),
        Direction::DOWN => (line, SIZE - 1 - offset),
        Direction::LEFT => (offset, line),
        Direction::RIGHT => (SIZE - 1 - offset, line),
    }
}

/// The line that the cell in column `x` of row `y` belongs to.
pub open spec fn line_index(dir: Direction, x: int, y: int) -> int {
    match dir {
        Direction::UP | Direction::DOWN => x,
        Direction::LEFT | Direction::RIGHT => y,
    }
}

/// How far the cell in column `x` of row `y` lies from the edge the tiles
/// move to.
pub open spec fn line_offset(dir: Direction, x: int, y: int) -> int {
    match dir {
        Direction::UP => y,
        Direction::DOWN => SIZE - 1 - y,
        Direction::LEFT => x,
        Direction::RIGHT => SIZE - 1 - x,
    }
}

/// The values of line `line`, counted from the edge the tiles move to.
pub open spec fn line_of(grid: Seq<Seq<nat>>, dir: Direction, line: int) -> Seq<nat> {
    Seq::new(
        SIZE as nat,
        |offset: int|
            {
                let cell = line_cell(dir, line, offset);
                grid[cell.1][cell.0]
            },
    )
}

/// The grid after a move in direction `dir`: every line settled by
/// [`collapse_line`].
pub open spec fn collapsed(grid: Seq<Seq<nat>>, dir: Direction) -> Seq<Seq<nat>> {
    Seq::new(
        SIZE as nat,
        |y: int|
            Seq::new(
                SIZE as nat,
                |x: int|
                    collapse_line(line_of(grid, dir, line_index(dir, x, y)))[line_offset(
                        dir,
                        x,
                        y,
                    )],
            ),
    )
}

/// No tile can move or merge in direction `dir`.
pub open spec fn settled(grid: Seq<Seq<nat>>, dir: Direction) -> bool {
    forall|line: int| 0 <= line < SIZE ==> settled_line(#[trigger] line_of(grid, dir, line))
}

/// Every value that a move in direction `dir` produces fits into a cell.
pub open spec fn fits(grid: Seq<Seq<nat>>, dir: Direction) -> bool {
    forall|line: int, offset: int|
        0 <= line < SIZE && 0 <= offset < SIZE ==> #[trigger] collapse_line(
            line_of(grid, dir, line),
        )[offset] <= u16::MAX
}

/// Every cell of the grid is empty or holds a tile value, that is 2 or a
/// higher power of 2.
pub open spec fn valid(grid: Seq<Seq<nat>>) -> bool {
    &&& well_shaped(grid)
    &&& forall|x: int, y: int|
        on_board(x, y) ==> grid[y][x] == 0 || tile_value(#[trigger] grid[y][x])
}

/// The sum of the values of the first `rows` rows.
pub open spec fn rows_sum(grid: Seq<Seq<nat>>, rows: nat) -> nat
    decreases rows,
{
    if rows == 0 {
        0
    } else {
        rows_sum(grid, (rows - 1) as nat) + total(grid[rows - 1])
    }
}

/// The sum of all values on the grid.
pub open spec fn grid_sum(grid: Seq<Seq<nat>>) -> nat {
    rows_sum(grid, grid.len())
}

/// The positions of the board in the order in which a move in direction
/// `dir` deals with them: line by line, and within a line from the edge the
/// tiles move to.
pub open spec fn traversal(dir: Direction) -> Seq<(usize, usize)> {
    Seq::new(
        (SIZE * SIZE) as nat,
        |z: int|
            {
                let cell = line_cell(dir, z / SIZE as int, z % SIZE as int);
                (cell.0 as usize, cell.1 as usize)
            },
    )
}

/// The grid has no empty cell.
pub open spec fn full(grid: Seq<Seq<nat>>) -> bool {
    forall|x: int, y: int| on_board(x, y) ==> #[trigger] grid[y][x] != 0
}

/// The cell in column `x` of row `y` is the one empty cell of the grid.
pub open spec fn only_empty_cell(grid: Seq<Seq<nat>>, x: int, y: int) -> bool {
    &&& on_board(x, y)
    &&& grid[y][x] == 0
    &&& forall|other_x: int, other_y: int|
        on_board(other_x, other_y) && #[trigger] grid[other_y][other_x] == 0 ==> other_x == x
            && other_y == y
}

/// Holds of the positions of the empty cells of `grid`.
pub open spec fn empty_in(grid: Seq<Seq<nat>>) -> spec_fn((usize, usize)) -> bool {
    |pos: (usize, usize)| grid[pos.1 as int][pos.0 as int] == 0
}

/// The positions of the empty cells of the grid, column first, in the order
/// in which a move up deals with them: down the columns, the leftmost
/// column first.
pub open spec fn free_cells(grid: Seq<Seq<nat>>) -> Seq<(usize, usize)> {
    traversal(Direction::UP).filter(empty_in(grid))
}

/// The grid with a new tile of value 2 in the empty cell number `pick` of
/// [`free_cells`].
pub open spec fn with_new_tile(grid: Seq<Seq<nat>>, pick: int) -> Seq<Seq<nat>> {
    let pos = free_cells(grid)[pick];
    with_cell(grid, pos.0 as int, pos.1 as int, 2)
}

/// `after` is `before` with a new tile of value 2 in one of its empty cells.
pub open spec fn new_tile_in(before: Seq<Seq<nat>>, after: Seq<Seq<nat>>) -> bool {
    exists|pick: int|
        0 <= pick < free_cells(before).len() && after == #[trigger] with_new_tile(before, pick)
}

/// `after` is `before` with a new tile of value 2 in one of its empty cells,
/// or `before` itself where it has no empty cell.
pub open spec fn spawned(before: Seq<Seq<nat>>, after: Seq<Seq<nat>>) -> bool {
    if free_cells(before).len() == 0 {
        after == before
    } else {
        new_tile_in(before, after)
    }
}

/// The free cells are the empty cells of the board, each of them once.
pub proof fn lemma_free_cells(grid: Seq<Seq<nat>>)
    ensures
        free_cells(grid).len() <= SIZE * SIZE,
        forall|i: int|
            0 <= i < free_cells(grid).len() ==> {
                let pos = #[trigger] free_cells(grid)[i];
                on_board(pos.0 as int, pos.1 as int) && grid[pos.1 as int][pos.0 as int] == 0
            },
        forall|x: int, y: int|
            on_board(x, y) && grid[y][x] == 0 ==> free_cells(grid).contains(
                (x as usize, y as usize),
            ),
        free_cells(grid).len() == 0 <==> full(grid),
        free_cells(grid).no_duplicates(),
{
    let all = traversal(Direction::UP);
    let free = free_cells(grid);
    all.lemma_filter_len(empty_in(grid));
    assert forall|i: int| 0 <= i < free.len() implies {
        let pos = #[trigger] free[i];
        on_board(pos.0 as int, pos.1 as int) && grid[pos.1 as int][pos.0 as int] == 0
    } by {
        all.lemma_filter_pred(empty_in(grid), i);
        assert(free.contains(free[i]));
        all.lemma_filter_contains_rev(empty_in(grid), free[i]);
        let z = choose|z: int| 0 <= z < all.len() && all[z] == free[i];
        assert(on_board(all[z].0 as int, all[z].1 as int));
    }
    assert forall|x: int, y: int| on_board(x, y) && grid[y][x] == 0 implies free.contains(
        (x as usize, y as usize),
    ) by {
        let z = x * SIZE + y;
        assert(all[z] == (x as usize, y as usize));
        all.lemma_filter_contains(empty_in(grid), z);
    }
    if free.len() == 0 {
        assert forall|x: int, y: int| on_board(x, y) implies #[trigger] grid[y][x] != 0 by {
            if grid[y][x] == 0 {
                assert(free.contains((x as usize, y as usize)));
            }
        }
    } else {
        let pos = free[0];
        assert(grid[pos.1 as int][pos.0 as int] == 0);
    }
    assert(all.no_duplicates()) by {
        assert forall|i: int, j: int|
            0 <= i < all.len() && 0 <= j < all.len() && i != j implies all[i] != all[j] by {
            assert(i / SIZE as int != j / SIZE as int || i % SIZE as int != j % SIZE as int);
        }
    }
    lemma_filter_keeps_distinct(all, empty_in(grid));
}

/// A grid with one empty cell has that cell as its one free cell.
pub proof fn lemma_single_free_cell(grid: Seq<Seq<nat>>, x: int, y: int)
    requires
        only_empty_cell(grid, x, y),
    ensures
        free_cells(grid) == seq![(x as usize, y as usize)],
{
    let free = free_cells(grid);
    lemma_free_cells(grid);
    assert(free.contains((x as usize, y as usize)));
    assert forall|i: int| 0 <= i < free.len() implies free[i] == (x as usize, y as usize) by {
        let pos = free[i];
        assert(grid[pos.1 as int][pos.0 as int] == 0);
    }
    if free.len() >= 2 {
        assert(free[0] == free[1]);
    }
    assert(free =~= seq![(x as usize, y as usize)]);
}

/// Filtering a sequence without duplicates leaves no duplicates.
proof fn lemma_filter_keeps_distinct(
    positions: Seq<(usize, usize)>,
    keep: spec_fn((usize, usize)) -> bool,
)
    requires
        positions.no_duplicates(),
    ensures
        positions.filter(keep).no_duplicates(),
    decreases positions.len(),
{
    reveal(Seq::filter);
    if positions.len() > 0 {
        let front = positions.drop_last();
        let last = positions.last();
        lemma_filter_keeps_distinct(front, keep);
        if keep(last) {
            let kept = front.filter(keep);
            if kept.contains(last) {
                front.lemma_filter_contains_rev(keep, last);
                let i = choose|i: int| 0 <= i < front.len() && front[i] == last;
                assert(positions[i] == positions[positions.len() - 1]);
            }
            assert forall|i: int, j: int|
                0 <= i < kept.len() + 1 && 0 <= j < kept.len() + 1 && i != j implies kept.push(
                last,
            )[i] != kept.push(last)[j] by {
                if i < kept.len() {
                    assert(kept.contains(kept[i]));
                }
                if j < kept.len() {
                    assert(kept.contains(kept[j]));
                }
            }
        }
    }
}

/// Writing a cell changes that cell of its line and no other line.
pub proof fn lemma_line_with_cell(
    grid: Seq<Seq<nat>>,
    dir: Direction,
    line: int,
    offset: int,
    value: nat,
)
    requires
        well_shaped(grid),
        0 <= line < SIZE,
        0 <= offset < SIZE,
    ensures
        ({
            let cell = line_cell(dir, line, offset);
            let next = with_cell(grid, cell.0, cell.1, value);
            &&& well_shaped(next)
            &&& line_of(next, dir, line) == line_of(grid, dir, line).update(offset, value)
            &&& forall|other: int|
                0 <= other < SIZE && other != line ==> #[trigger] line_of(next, dir, other)
                    == line_of(grid, dir, other)
        }),
{
    let cell = line_cell(dir, line, offset);
    let next = with_cell(grid, cell.0, cell.1, value);
    assert(line_of(next, dir, line) =~= line_of(grid, dir, line).update(offset, value));
    assert forall|other: int| 0 <= other < SIZE && other != line implies #[trigger] line_of(
        next,
        dir,
        other,
    ) == line_of(grid, dir, other) by {
        assert(line_of(next, dir, other) =~= line_of(grid, dir, other));
    }
}

/// A grid whose lines are those of the move's result is that result.
pub proof fn lemma_collapsed_by_lines(now: Seq<Seq<nat>>, start: Seq<Seq<nat>>, dir: Direction)
    requires
        well_shaped(now),
        forall|line: int|
            0 <= line < SIZE ==> #[trigger] line_of(now, dir, line) == collapse_line(
                line_of(start, dir, line),
            ),
    ensures
        now == collapsed(start, dir),
{
    let goal = collapsed(start, dir);
    assert forall|y: int| 0 <= y < SIZE implies #[trigger] now[y] =~= goal[y] by {
        assert forall|x: int| 0 <= x < SIZE implies now[y][x] == goal[y][x] by {
            let line = line_index(dir, x, y);
            let offset = line_offset(dir, x, y);
            assert(line_cell(dir, line, offset) == (x, y));
            assert(line_of(now, dir, line)[offset] == now[y][x]);
        }
    }
    assert(now =~= goal);
}

/// The lines of the move's result are the settled lines of the grid.
pub proof fn lemma_lines_of_collapsed(grid: Seq<Seq<nat>>, dir: Direction, line: int)
    requires
        0 <= line < SIZE,
    ensures
        line_of(collapsed(grid, dir), dir, line) == collapse_line(line_of(grid, dir, line)),
{
    let after = line_of(collapsed(grid, dir), dir, line);
    let goal = collapse_line(line_of(grid, dir, line));
    assert forall|offset: int| 0 <= offset < SIZE implies after[offset] == goal[offset] by {
        let cell = line_cell(dir, line, offset);
        assert(line_index(dir, cell.0, cell.1) == line);
        assert(line_offset(dir, cell.0, cell.1) == offset);
    }
    assert(after =~= goal);
}

/// A move leaves the grid as it is if and only if no tile can move or merge.
pub proof fn lemma_settled_iff_fixed(grid: Seq<Seq<nat>>, dir: Direction)
    requires
        well_shaped(grid),
    ensures
        settled(grid, dir) <==> collapsed(grid, dir) == grid,
{
    if settled(grid, dir) {
        assert forall|line: int| 0 <= line < SIZE implies #[trigger] line_of(grid, dir, line)
            == collapse_line(line_of(grid, dir, line)) by {
            lemma_settled_line_iff_fixed(line_of(grid, dir, line));
        }
        lemma_collapsed_by_lines(grid, grid, dir);
    }
    if collapsed(grid, dir) == grid {
        assert forall|line: int| 0 <= line < SIZE implies settled_line(
            #[trigger] line_of(grid, dir, line),
        ) by {
            lemma_lines_of_collapsed(grid, dir, line);
            lemma_settled_line_iff_fixed(line_of(grid, dir, line));
        }
    }
}

/// The total of a line of four cells.
proof fn lemma_total_of_line(line: Seq<nat>)
    requires
        line.len() == SIZE,
    ensures
        total(line) == line[0] + line[1] + line[2] + line[3],
{
    reveal_with_fuel(total, 5);
    assert(line.skip(1)[0] == line[1]);
    assert(line.skip(1).skip(1)[0] == line[2]);
    assert(line.skip(1).skip(1).skip(1)[0] == line[3]);
    assert(line.skip(1).skip(1).skip(1).skip(1).len() == 0);
}

/// The sum of the grid is the sum of the totals of its lines, whichever way
/// the lines run.
pub proof fn lemma_sum_by_lines(grid: Seq<Seq<nat>>, dir: Direction)
    requires
        well_shaped(grid),
    ensures
        grid_sum(grid) == total(line_of(grid, dir, 0)) + total(line_of(grid, dir, 1)) + total(
            line_of(grid, dir, 2),
        ) + total(line_of(grid, dir, 3)),
{
    reveal_with_fuel(rows_sum, 5);
    lemma_total_of_line(grid[0]);
    lemma_total_of_line(grid[1]);
    lemma_total_of_line(grid[2]);
    lemma_total_of_line(grid[3]);
    lemma_total_of_line(line_of(grid, dir, 0));
    lemma_total_of_line(line_of(grid, dir, 1));
    lemma_total_of_line(line_of(grid, dir, 2));
    lemma_total_of_line(line_of(grid, dir, 3));
}

/// A new tile keeps a valid grid valid.
pub proof fn lemma_new_tile_valid(grid: Seq<Seq<nat>>, pick: int)
    requires
        valid(grid),
        0 <= pick < free_cells(grid).len(),
    ensures
        valid(with_new_tile(grid, pick)),
{
    lemma_free_cells(grid);
    vstd::arithmetic::power2::lemma2_to64();
    assert(tile_value(2)) by {
        assert(2 == vstd::arithmetic::power2::pow2(1));
    }
    let after = with_new_tile(grid, pick);
    assert forall|x: int, y: int| on_board(x, y) implies after[y][x] == 0 || tile_value(
        #[trigger] after[y][x],
    ) by {
        assert(after[y][x] == 2 || after[y][x] == grid[y][x]);
    }
}

/// A move keeps every cell of a valid grid empty or a tile value.
pub proof fn lemma_collapsed_valid(grid: Seq<Seq<nat>>, dir: Direction)
    requires
        valid(grid),
    ensures
        valid(collapsed(grid, dir)),
{
    let after = collapsed(grid, dir);
    assert forall|x: int, y: int| on_board(x, y) implies after[y][x] == 0 || tile_value(
        #[trigger] after[y][x],
    ) by {
        let line = line_of(grid, dir, line_index(dir, x, y));
        assert forall|i: int| 0 <= i < line.len() implies line[i] == 0 || tile_value(
            #[trigger] line[i],
        ) by {
            let cell = line_cell(dir, line_index(dir, x, y), i);
            assert(on_board(cell.0, cell.1));
            assert(line[i] == grid[cell.1][cell.0]);
        }
        lemma_collapse_line(line);
        assert(after[y][x] == collapse_line(line)[line_offset(dir, x, y)]);
    }
}

} // verus!
