//! The game board and its two operations: a move and a new tile.

use crate::grid::{
    collapsed, empty_in, fits, free_cells, full, grid_sum, lemma_collapsed_by_lines,
    lemma_collapsed_valid, lemma_free_cells, lemma_line_with_cell, lemma_new_tile_valid,
    lemma_settled_iff_fixed, lemma_single_free_cell, line_cell, line_index, line_of, line_offset,
    on_board, only_empty_cell, settled, spawned, traversal, valid, well_shaped, with_cell,
    with_new_tile,
};
use crate::laws::lemma_collapse_keeps_sum;
use crate::line::{collapse_line, lemma_collapse_line, merge_pairs, settled_line, tiles};
use crate::progress::{
    between_cells, lemma_begin, lemma_end, lemma_merge, lemma_merge_value, lemma_pass_empty,
    lemma_pick_up, lemma_rest, lemma_settle_end, lemma_settle_merge, lemma_settle_rest,
    lemma_slide, lemma_stopped, lemma_tiles_from, lemma_tiles_of_nothing, settle, tile_moving,
};
use crate::random::random_index;
use vstd::prelude::*;

verus! {

/// Side length of the game board.
pub const SIZE: usize = 4;

/// The four directions of a move.
#[allow(non_camel_case_types)]
#[derive(Clone, Copy, Debug, PartialEq, Eq)]
pub enum Direction {
    UP,
    DOWN,
    LEFT,
    RIGHT,
}

impl Direction {
    /// The step, column first, that takes a tile one cell in this direction.
    pub open spec fn vector(self) -> (int, int) {
        match self {
            Direction::UP => (0, -1),
            Direction::DOWN => (0, 1),
            Direction::LEFT => (-1, 0),
            Direction::RIGHT => (1, 0),
        }
    }

    /// The step, column first, that takes a tile one cell in this direction.
    pub fn value(&self) -> (step: (isize, isize))
        ensures
            step.0 == self.vector().0,
            step.1 == self.vector().1,
    {
        match *self {
            Direction::UP => (0, -1),
            Direction::DOWN => (0, 1),
            Direction::LEFT => (-1, 0),
            Direction::RIGHT => (1, 0),
        }
    }
}

/// The game board.
pub struct Gameboard {
    /// The cells, row by row: `cells[y][x]` is the cell in column `x` of row
    /// `y`. Row 0 is the top row and column 0 the leftmost column. 0 is an
    /// empty cell, any other value the number on the tile that lies there.
    pub cells: [[u16; SIZE]; SIZE],
}

/// The blocker is the cell at `cell`.
spec fn blocker_at(blocker: Option<(usize, usize)>, cell: (int, int)) -> bool {
    blocker matches Some(pos) && pos.0 == cell.0 && pos.1 == cell.1
}

/// The blocker, if there is one, lies in an earlier line than `line`, or in
/// `line` among its first `placed` cells.
spec fn blocker_behind(
    blocker: Option<(usize, usize)>,
    dir: Direction,
    line: int,
    placed: int,
) -> bool {
    blocker matches Some(pos) ==> {
        let at = line_index(dir, pos.0 as int, pos.1 as int);
        &&& on_board(pos.0 as int, pos.1 as int)
        &&& at < line || (at == line && line_offset(dir, pos.0 as int, pos.1 as int) < placed)
    }
}

/// Whether `pos` is the blocker.
fn is_blocker(blocker: Option<(usize, usize)>, pos: (usize, usize)) -> (hit: bool)
    ensures
        hit == blocker_at(blocker, (pos.0 as int, pos.1 as int)),
{
    match blocker {
        Some(cell) => cell.0 == pos.0 && cell.1 == pos.1,
        None => false,
    }
}

/// Before the first cell of a line all its tiles are still to come.
proof fn lemma_line_begun(cells: Seq<nat>)
    ensures
        merge_pairs(tiles(cells)) == settle(Seq::empty(), false, tiles(cells.skip(0))),
{
    assert(cells.skip(0) =~= cells);
    assert(Seq::<nat>::empty() + merge_pairs(tiles(cells)) =~= merge_pairs(tiles(cells)));
}

/// A line whose tiles have all been placed, none of them too large for a
/// cell, fits.
proof fn lemma_line_done(cells: Seq<nat>, placed: Seq<nat>, open: bool)
    requires
        merge_pairs(tiles(cells)) == settle(placed, open, tiles(cells.skip(cells.len() as int))),
        forall|i: int| 0 <= i < placed.len() ==> placed[i] <= u16::MAX,
    ensures
        forall|i: int| 0 <= i < cells.len() ==> #[trigger] collapse_line(cells)[i] <= u16::MAX,
{
    assert(cells.skip(cells.len() as int) =~= Seq::<nat>::empty());
    lemma_tiles_of_nothing();
    lemma_settle_end(placed, open);
}

impl View for Gameboard {
    type V = Seq<Seq<nat>>;

    open spec fn view(&self) -> Seq<Seq<nat>> {
        Seq::new(SIZE as nat, |y: int| Seq::new(SIZE as nat, |x: int| self.cells[y][x] as nat))
    }
}

impl Gameboard {
    /// Every cell is empty or holds 2 or a higher power of 2.
    pub open spec fn well_formed(&self) -> bool {
        valid(self@)
    }

    /// Creates an empty game board.
    pub fn new() -> (board: Gameboard)
        ensures
            forall|x: int, y: int| on_board(x, y) ==> board@[y][x] == 0,
            board.well_formed(),
    {
        Gameboard { cells: [[0; SIZE]; SIZE] }
    }

    /// Whether `pos` lies on the board.
    pub fn is_valid_pos(pos: (usize, usize)) -> (valid: bool)
        ensures
            valid == on_board(pos.0 as int, pos.1 as int),
    {
        pos.0 < SIZE && pos.1 < SIZE
    }

    /// The position one step of `second` away from `first`, column first, or
    /// `None` where a coordinate of it would be negative or too large for
    /// its type.
    pub fn add(first: (usize, usize), second: (isize, isize)) -> (sum: Option<(usize, usize)>)
        ensures
            sum matches Some(pos) ==> pos.0 == first.0 + second.0 && pos.1 == first.1 + second.1,
            sum is Some <==> 0 <= first.0 + second.0 <= usize::MAX && 0 <= first.1 + second.1
                <= usize::MAX,
    {
        match (first.0.checked_add_signed(second.0), first.1.checked_add_signed(second.1)) {
            (Some(x), Some(y)) => Some((x, y)),
            _ => None,
        }
    }

    /// The positions of the board, column first, in the order in which a
    /// move in direction `dir` deals with them: line by line, and within a
    /// line starting at the edge the tiles move to.
    pub fn iterate(dir: &Direction) -> (order: Vec<(usize, usize)>)
        ensures
            order@ == traversal(*dir),
    {
        let mut order: Vec<(usize, usize)> = Vec::new();
        let mut z: usize = 0;
        while z < SIZE * SIZE
            invariant
                z <= SIZE * SIZE,
                order@.len() == z,
                forall|i: int| 0 <= i < z ==> order@[i] == traversal(*dir)[i],
            decreases SIZE * SIZE - z,
        {
            let pos = match *dir {
                Direction::UP => (z / SIZE, z % SIZE),
                Direction::DOWN => (z / SIZE, SIZE - z % SIZE - 1),
                Direction::LEFT => (z % SIZE, z / SIZE),
                Direction::RIGHT => (SIZE - z % SIZE - 1, z / SIZE),
            };
            order.push(pos);
            z += 1;
        }
        assert(order@ =~= traversal(*dir));
        order
    }

    /// Whether no merge of a move in direction `dir` would produce a value
    /// too large for a cell. [`Gameboard::collapse`] asks for that.
    pub fn can_collapse(&self, dir: Direction) -> (ok: bool)
        ensures
            ok == fits(self@, dir),
    {
        let order = Gameboard::iterate(&dir);
        // the last tile of the line so far, if it can still merge
        let mut last: Option<u16> = None;

        let ghost mut line: int = 0;
        let ghost mut offset: int = 0;
        let ghost mut placed: Seq<nat> = Seq::empty();
        proof {
            lemma_line_begun(line_of(self@, dir, 0));
        }

        let mut z: usize = 0;
        while z < order.len()
            invariant
                order@ == traversal(dir),
                0 <= line <= SIZE,
                0 <= offset < SIZE,
                z == line * SIZE + offset,
                z <= SIZE * SIZE,
                forall|l: int, i: int|
                    0 <= l < line && 0 <= i < SIZE ==> #[trigger] collapse_line(
                        line_of(self@, dir, l),
                    )[i] <= u16::MAX,
                line < SIZE ==> merge_pairs(tiles(line_of(self@, dir, line))) == settle(
                    placed,
                    last is Some,
                    tiles(line_of(self@, dir, line).skip(offset)),
                ),
                forall|i: int| 0 <= i < placed.len() ==> placed[i] <= u16::MAX,
                last matches Some(value) ==> placed.len() > 0 && placed.last() == value,
            decreases order.len() - z,
        {
            let pos = order[z];
            assert(z / SIZE == line && z % SIZE == offset);
            assert(pos.0 == line_cell(dir, line, offset).0 && pos.1 == line_cell(
                dir,
                line,
                offset,
            ).1);
            let ghost cells = line_of(self@, dir, line);
            let ghost rest = tiles(cells.skip(offset + 1));
            assert(cells[offset] == self@[pos.1 as int][pos.0 as int]);
            proof {
                lemma_tiles_from(cells, offset);
                lemma_collapse_line(cells);
            }

            let value = self.get(&pos);
            if value != 0 {
                let merges = match last {
                    Some(open) => open == value,
                    None => false,
                };
                if merges {
                    proof {
                        lemma_settle_merge(placed, value as nat, rest);
                    }
                    if value > 0x7fff {
                        assert(collapse_line(cells)[placed.len() - 1] == 2 * value);
                        return false;
                    }
                    proof {
                        placed = placed.drop_last().push(2 * value as nat);
                    }
                    last = None;
                } else {
                    proof {
                        lemma_settle_rest(placed, last is Some, value as nat, rest);
                        placed = placed.push(value as nat);
                    }
                    last = Some(value);
                }
            } else {
                assert(Seq::<nat>::empty() + rest =~= rest);
            }
            z += 1;
            if z % SIZE == 0 {
                proof {
                    lemma_line_done(cells, placed, last is Some);
                    line = line + 1;
                    offset = 0;
                    placed = Seq::empty();
                    lemma_line_begun(line_of(self@, dir, line));
                }
                last = None;
            } else {
                proof {
                    offset = offset + 1;
                }
            }
        }
        true
    }

    /// Makes a move: every tile slides in direction `dir` as far as it can,
    /// and a tile that meets one of its own value merges into it, unless that
    /// tile came out of a merge of this move. Returns whether anything moved.
    pub fn collapse(&mut self, dir: Direction) -> (moved: bool)
        requires
            fits(old(self)@, dir),
        ensures
            final(self)@ == collapsed(old(self)@, dir),
            moved == (final(self)@ != old(self)@),
            moved == !settled(old(self)@, dir),
            grid_sum(final(self)@) == grid_sum(old(self)@),
            old(self).well_formed() ==> final(self).well_formed(),
    {
        // will be set, if a valid move has been made in this turn
        let mut was_valid_move = false;

        // The cell that took the last merge. No tile passes it or merges
        // into it. Since a line is dealt with from the edge the tiles move
        // to, one such cell is enough.
        let mut blocker: Option<(usize, usize)> = None;

        let order = Gameboard::iterate(&dir);
        let step = dir.value();

        let ghost start = self@;
        let ghost mut line: int = 0;
        let ghost mut offset: int = 0;
        let ghost mut placed: int = 0;
        let ghost mut open: bool = false;
        proof {
            lemma_begin(line_of(start, dir, 0));
        }

        let mut z: usize = 0;
        while z < order.len()
            invariant
                order@ == traversal(dir),
                step.0 == dir.vector().0,
                step.1 == dir.vector().1,
                fits(start, dir),
                well_shaped(start),
                well_shaped(self@),
                0 <= line <= SIZE,
                0 <= offset < SIZE,
                z == line * SIZE + offset,
                z <= SIZE * SIZE,
                forall|l: int|
                    0 <= l < line ==> #[trigger] line_of(self@, dir, l) == collapse_line(
                        line_of(start, dir, l),
                    ),
                forall|l: int|
                    line < l < SIZE ==> #[trigger] line_of(self@, dir, l) == line_of(start, dir, l),
                line < SIZE ==> between_cells(
                    line_of(self@, dir, line),
                    line_of(start, dir, line),
                    placed,
                    offset,
                    open,
                ),
                open <==> placed > 0 && !blocker_at(blocker, line_cell(dir, line, placed - 1)),
                blocker_behind(blocker, dir, line, placed),
                !was_valid_move ==> self@ == start,
                was_valid_move ==> !settled(start, dir),
            decreases order.len() - z,
        {
            let pos = order[z];
            assert(z / SIZE == line && z % SIZE == offset);
            assert(pos.0 == line_cell(dir, line, offset).0 && pos.1 == line_cell(
                dir,
                line,
                offset,
            ).1);
            assert(on_board(pos.0 as int, pos.1 as int));
            assert(line_of(self@, dir, line)[offset] == self@[pos.1 as int][pos.0 as int]);

            if self.get(&pos) == 0 {
                // skip if cell is empty
                proof {
                    lemma_pass_empty(
                        line_of(self@, dir, line),
                        line_of(start, dir, line),
                        placed,
                        offset,
                        open,
                    );
                }
            } else {
                // current position of the processed tile
                let mut source_pos = pos;
                let ghost mut at: int = offset;
                proof {
                    lemma_pick_up(
                        line_of(self@, dir, line),
                        line_of(start, dir, line),
                        placed,
                        offset,
                        open,
                    );
                }

                // move the current tile
                loop
                    invariant_except_break
                        tile_moving(
                            line_of(self@, dir, line),
                            line_of(start, dir, line),
                            placed,
                            offset,
                            at,
                            open,
                        ),
                        source_pos.0 == line_cell(dir, line, at).0,
                        source_pos.1 == line_cell(dir, line, at).1,
                    invariant
                        step.0 == dir.vector().0,
                        step.1 == dir.vector().1,
                        fits(start, dir),
                        well_shaped(start),
                        well_shaped(self@),
                        0 <= line < SIZE,
                        0 <= offset < SIZE,
                        forall|l: int|
                            0 <= l < line ==> #[trigger] line_of(self@, dir, l) == collapse_line(
                                line_of(start, dir, l),
                            ),
                        forall|l: int|
                            line < l < SIZE ==> #[trigger] line_of(self@, dir, l) == line_of(
                                start,
                                dir,
                                l,
                            ),
                        open <==> placed > 0 && !blocker_at(
                            blocker,
                            line_cell(dir, line, placed - 1),
                        ),
                        blocker_behind(blocker, dir, line, placed),
                        !was_valid_move ==> self@ == start,
                        was_valid_move ==> !settled(start, dir),
                    ensures
                        between_cells(
                            line_of(self@, dir, line),
                            line_of(start, dir, line),
                            placed,
                            offset + 1,
                            open,
                        ),
                    decreases at,
                {
                    let ghost now = line_of(self@, dir, line);
                    let ghost begun = line_of(start, dir, line);
                    let ghost grid = self@;

                    // cell where the current tile should move to
                    let target = Gameboard::add(source_pos, step);
                    let target_pos = match target {
                        Some(target_pos) if Gameboard::is_valid_pos(target_pos) && !is_blocker(
                            blocker,
                            target_pos,
                        ) => target_pos,
                        _ => {
                            // the edge of the board or the blocker is in the way
                            proof {
                                lemma_stopped(now, begun, placed, offset, at, open);
                                lemma_rest(now, begun, placed, offset, open);
                                placed = placed + 1;
                                open = true;
                            }
                            break ;
                        },
                    };
                    assert(target_pos.0 == line_cell(dir, line, at - 1).0 && target_pos.1
                        == line_cell(dir, line, at - 1).1);
                    assert(now[at - 1] == grid[target_pos.1 as int][target_pos.0 as int]);
                    assert(now[at] == grid[source_pos.1 as int][source_pos.0 as int]);

                    if self.get(&target_pos) == 0 {
                        // if there is no other tile -> move
                        let target_value = self.get(&source_pos);
                        self.set(&target_pos, target_value);
                        self.set(&source_pos, 0);
                        proof {
                            if !was_valid_move {
                                assert(begun[at] != 0 && begun[at - 1] == 0);
                                assert(!settled_line(begun));
                            }
                            lemma_line_with_cell(grid, dir, line, at - 1, now[at]);
                            let half = with_cell(
                                grid,
                                target_pos.0 as int,
                                target_pos.1 as int,
                                now[at],
                            );
                            lemma_line_with_cell(half, dir, line, at, 0);
                            lemma_slide(now, begun, placed, offset, at, open);
                            at = at - 1;
                        }
                        was_valid_move = true;
                    } else {
                        // there is another tile in the way!
                        proof {
                            lemma_stopped(now, begun, placed, offset, at, open);
                            assert(open);
                        }
                        // if the other tile has the same value -> collapse
                        if self.get(&target_pos) == self.get(&source_pos) {
                            proof {
                                lemma_merge_value(now, begun, placed, offset, open);
                                assert(collapse_line(begun)[placed - 1] <= u16::MAX);
                            }
                            // double the value of the collapsed cell
                            let target_value = self.get(&target_pos) * 2;
                            self.set(&target_pos, target_value);
                            self.set(&source_pos, 0);
                            // update the blocker position -> no collapses with this cell are allowed
                            blocker = Some(target_pos);
                            proof {
                                if !was_valid_move {
                                    assert(begun[at] != 0 && begun[at - 1] == begun[at]);
                                    assert(!settled_line(begun));
                                }
                                lemma_line_with_cell(grid, dir, line, at - 1, 2 * now[at]);
                                let half = with_cell(
                                    grid,
                                    target_pos.0 as int,
                                    target_pos.1 as int,
                                    2 * now[at],
                                );
                                lemma_line_with_cell(half, dir, line, at, 0);
                                lemma_merge(now, begun, placed, offset, open);
                                open = false;
                            }
                            was_valid_move = true;
                        } else {
                            proof {
                                lemma_rest(now, begun, placed, offset, open);
                                placed = placed + 1;
                                open = true;
                            }
                        }
                        break ;
                    }
                    // update positions after move
                    source_pos = target_pos;
                }
            }
            z += 1;
            proof {
                offset = offset + 1;
                if offset == SIZE {
                    lemma_end(line_of(self@, dir, line), line_of(start, dir, line), placed, open);
                    line = line + 1;
                    offset = 0;
                    placed = 0;
                    open = false;
                    if line < SIZE {
                        lemma_begin(line_of(start, dir, line));
                    }
                }
            }
        }
        proof {
            lemma_collapsed_by_lines(self@, start, dir);
            lemma_settled_iff_fixed(start, dir);
            lemma_collapse_keeps_sum(start, dir);
            if valid(start) {
                lemma_collapsed_valid(start, dir);
            }
        }
        was_valid_move
    }

    /// The positions of the empty cells, column first, in the order in which
    /// a move up deals with the cells.
    pub fn empty_cells(&self) -> (free: Vec<(usize, usize)>)
        ensures
            free@ == free_cells(self@),
    {
        let order = Gameboard::iterate(&Direction::UP);
        let mut free: Vec<(usize, usize)> = Vec::new();
        let mut z: usize = 0;
        proof {
            reveal(Seq::filter);
            assert(order@.take(0).filter(empty_in(self@)) =~= Seq::<(usize, usize)>::empty());
        }
        while z < order.len()
            invariant
                order@ == traversal(Direction::UP),
                z <= order.len(),
                free@ == order@.take(z as int).filter(empty_in(self@)),
            decreases order.len() - z,
        {
            let pos = order[z];
            proof {
                order@.take(z as int).lemma_filter_push(pos, empty_in(self@));
                assert(order@.take(z + 1) =~= order@.take(z as int).push(pos));
            }
            if self.get(&pos) == 0 {
                free.push(pos);
            }
            z += 1;
        }
        assert(order@.take(order.len() as int) =~= order@);
        free
    }

    /// Puts a tile of value 2 on the empty cell number `pick`, counted from
    /// 0 in the order of [`Gameboard::empty_cells`]. Returns whether there is
    /// such a cell; where there is none, the board stays as it is.
    pub fn place_tile(&mut self, pick: usize) -> (placed: bool)
        ensures
            placed == (pick < free_cells(old(self)@).len()),
            placed ==> final(self)@ == with_new_tile(old(self)@, pick as int),
            !placed ==> final(self)@ == old(self)@,
            old(self).well_formed() ==> final(self).well_formed(),
    {
        let free = self.empty_cells();
        if pick < free.len() {
            let pos = free[pick];
            proof {
                lemma_free_cells(self@);
                if valid(self@) {
                    lemma_new_tile_valid(self@, pick as int);
                }
            }
            self.set(&pos, 2);
            return true;
        }
        false
    }

    /// Randomly generates a new tile of value 2 on an empty cell of the
    /// board. Returns true if a tile has been created, and false, with the
    /// board as it was, if there is no empty cell left.
    pub fn generate_tile(&mut self) -> (created: bool)
        ensures
            created == !full(old(self)@),
            spawned(old(self)@, final(self)@),
            forall|x: int, y: int|
                only_empty_cell(old(self)@, x, y) ==> final(self)@ == with_cell(
                    old(self)@,
                    x,
                    y,
                    2,
                ),
            old(self).well_formed() ==> final(self).well_formed(),
    {
        let free = self.empty_cells();
        proof {
            lemma_free_cells(self@);
            assert forall|x: int, y: int| only_empty_cell(self@, x, y) implies free_cells(self@)
                == seq![(x as usize, y as usize)] by {
                lemma_single_free_cell(self@, x, y);
            }
        }
        if free.len() != 0 {
            let i = random_index(free.len());
            return self.place_tile(i);
        }
        false
    }

    /// Gets the value of the cell at `pos`, column first.
    pub fn get(&self, pos: &(usize, usize)) -> (value: u16)
        requires
            on_board(pos.0 as int, pos.1 as int),
        ensures
            value == self@[pos.1 as int][pos.0 as int],
    {
        self.cells[pos.1][pos.0]
    }

    /// Sets the value of the cell at `pos`, column first.
    pub fn set(&mut self, pos: &(usize, usize), value: u16)
        requires
            on_board(pos.0 as int, pos.1 as int),
        ensures
            final(self)@ == with_cell(old(self)@, pos.0 as int, pos.1 as int, value as nat),
    {
        self.cells[pos.1][pos.0] = value;
        assert(self@ =~~= with_cell(old(self)@, pos.0 as int, pos.1 as int, value as nat));
    }
}

} // verus!
