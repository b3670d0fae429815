//! A move in progress on one line: the states that the stepwise procedure
//! passes through, and why each step keeps it on course towards
//! [`collapse_line`].
//!
//! `start` is the line before the move and `now` the line as it stands. The
//! cells below `offset` have been dealt with: `placed` tiles rest at the
//! edge, and the cells between them and `offset` are empty. `open` says that
//! the last of the placed tiles may still take part in a merge.

use crate::line::{collapse_line, merge_pairs, occupied, pad, tiles};
use vstd::prelude::*;

verus! {

/// What the tiles at the edge and the tiles still to come settle to.
pub open spec fn settle(placed: Seq<nat>, open: bool, rest: Seq<nat>) -> Seq<nat> {
    if open && placed.len() > 0 {
        placed.drop_last() + merge_pairs(seq![placed.last()] + rest)
    } else {
        placed + merge_pairs(rest)
    }
}

/// A tile that does not merge comes to rest behind the placed tiles.
pub proof fn lemma_settle_rest(placed: Seq<nat>, open: bool, tile: nat, rest: Seq<nat>)
    requires
        !(open && placed.len() > 0 && placed.last() == tile),
    ensures
        settle(placed, open, seq![tile] + rest) == settle(placed.push(tile), true, rest),
{
    assert(placed.push(tile).drop_last() =~= placed);
    if open && placed.len() > 0 {
        let last = placed.last();
        let both = seq![last] + (seq![tile] + rest);
        assert(both.skip(1) =~= seq![tile] + rest);
        assert(merge_pairs(both) == seq![last] + merge_pairs(seq![tile] + rest));
        assert(placed.drop_last() + (seq![last] + merge_pairs(seq![tile] + rest)) =~= placed
            + merge_pairs(seq![tile] + rest));
    }
}

/// A tile that meets its equal, one that can still merge, doubles it.
pub proof fn lemma_settle_merge(placed: Seq<nat>, tile: nat, rest: Seq<nat>)
    requires
        placed.len() > 0,
        placed.last() == tile,
    ensures
        settle(placed, true, seq![tile] + rest) == settle(
            placed.drop_last().push(2 * tile),
            false,
            rest,
        ),
        settle(placed, true, seq![tile] + rest).len() >= placed.len(),
        settle(placed, true, seq![tile] + rest)[placed.len() - 1] == 2 * tile,
{
    let both = seq![placed.last()] + (seq![tile] + rest);
    assert(both.skip(2) =~= rest);
    assert(merge_pairs(both) == seq![2 * tile] + merge_pairs(rest));
    assert(placed.drop_last() + (seq![2 * tile] + merge_pairs(rest)) =~= placed.drop_last().push(
        2 * tile,
    ) + merge_pairs(rest));
}

/// With no tile left to come, the placed tiles are the result.
pub proof fn lemma_settle_end(placed: Seq<nat>, open: bool)
    ensures
        settle(placed, open, Seq::empty()) == placed,
{
    if open && placed.len() > 0 {
        let one = seq![placed.last()] + Seq::<nat>::empty();
        assert(one.skip(1) =~= Seq::<nat>::empty());
        assert(merge_pairs(one) =~= seq![placed.last()]) by {
            reveal_with_fuel(merge_pairs, 2);
        }
        assert(placed.drop_last() + seq![placed.last()] =~= placed);
    } else {
        assert(placed + merge_pairs(Seq::<nat>::empty()) =~= placed);
    }
}

/// A line without cells has no tiles.
pub proof fn lemma_tiles_of_nothing()
    ensures
        tiles(Seq::<nat>::empty()) == Seq::<nat>::empty(),
{
    reveal(Seq::filter);
    assert(tiles(Seq::<nat>::empty()) =~= Seq::<nat>::empty());
}

/// The state between two cells: every cell below `offset` is dealt with.
pub open spec fn between_cells(
    now: Seq<nat>,
    start: Seq<nat>,
    placed: int,
    offset: int,
    open: bool,
) -> bool {
    &&& now.len() == start.len()
    &&& 0 <= placed <= offset <= start.len()
    &&& open ==> placed > 0
    &&& forall|i: int| 0 <= i < placed ==> now[i] != 0
    &&& forall|i: int| placed <= i < offset ==> now[i] == 0
    &&& forall|i: int| offset <= i < start.len() ==> now[i] == start[i]
    &&& merge_pairs(tiles(start)) == settle(now.take(placed), open, tiles(start.skip(offset)))
}

/// The state while the tile that started at `offset` is on its way and has
/// reached the cell `at`.
pub open spec fn tile_moving(
    now: Seq<nat>,
    start: Seq<nat>,
    placed: int,
    offset: int,
    at: int,
    open: bool,
) -> bool {
    &&& now.len() == start.len()
    &&& 0 <= placed <= at <= offset < start.len()
    &&& open ==> placed > 0
    &&& start[offset] != 0
    &&& now[at] == start[offset]
    &&& forall|i: int| 0 <= i < placed ==> now[i] != 0
    &&& forall|i: int| placed <= i <= offset && i != at ==> now[i] == 0
    &&& forall|i: int| offset < i < start.len() ==> now[i] == start[i]
    &&& merge_pairs(tiles(start)) == settle(now.take(placed), open, tiles(start.skip(offset)))
}

/// The tiles from `offset` on are the tile at `offset`, if there is one,
/// and the tiles after it.
pub proof fn lemma_tiles_from(line: Seq<nat>, offset: int)
    requires
        0 <= offset < line.len(),
    ensures
        tiles(line.skip(offset)) == (if line[offset] != 0 {
            seq![line[offset]]
        } else {
            Seq::empty()
        }) + tiles(line.skip(offset + 1)),
{
    assert(line.skip(offset) =~= seq![line[offset]] + line.skip(offset + 1));
    line.skip(offset + 1).lemma_filter_prepend(line[offset], occupied());
}

/// Before the first cell nothing is placed.
pub proof fn lemma_begin(start: Seq<nat>)
    ensures
        between_cells(start, start, 0, 0, false),
{
    assert(start.skip(0) =~= start);
    assert(start.take(0) + merge_pairs(tiles(start)) =~= merge_pairs(tiles(start)));
}

/// An empty cell is passed over.
pub proof fn lemma_pass_empty(now: Seq<nat>, start: Seq<nat>, placed: int, offset: int, open: bool)
    requires
        between_cells(now, start, placed, offset, open),
        offset < start.len(),
        now[offset] == 0,
    ensures
        between_cells(now, start, placed, offset + 1, open),
{
    lemma_tiles_from(start, offset);
    assert(Seq::<nat>::empty() + tiles(start.skip(offset + 1)) =~= tiles(start.skip(offset + 1)));
}

/// A tile is picked up where it lies.
pub proof fn lemma_pick_up(now: Seq<nat>, start: Seq<nat>, placed: int, offset: int, open: bool)
    requires
        between_cells(now, start, placed, offset, open),
        offset < start.len(),
        now[offset] != 0,
    ensures
        tile_moving(now, start, placed, offset, offset, open),
{
}

/// The tile slides into the empty cell in front of it.
pub proof fn lemma_slide(
    now: Seq<nat>,
    start: Seq<nat>,
    placed: int,
    offset: int,
    at: int,
    open: bool,
)
    requires
        tile_moving(now, start, placed, offset, at, open),
        at >= 1,
        now[at - 1] == 0,
    ensures
        placed < at,
        tile_moving(now.update(at - 1, now[at]).update(at, 0), start, placed, offset, at - 1, open),
{
    let next = now.update(at - 1, now[at]).update(at, 0);
    assert(next.take(placed) =~= now.take(placed));
}

/// The tile has something in front of it, or the edge: it is where the
/// placed tiles end.
pub proof fn lemma_stopped(
    now: Seq<nat>,
    start: Seq<nat>,
    placed: int,
    offset: int,
    at: int,
    open: bool,
)
    requires
        tile_moving(now, start, placed, offset, at, open),
        at == 0 || now[at - 1] != 0,
    ensures
        at == placed,
{
}

/// The tile comes to rest behind the placed tiles without merging.
pub proof fn lemma_rest(
    now: Seq<nat>,
    start: Seq<nat>,
    placed: int,
    offset: int,
    open: bool,
)
    requires
        tile_moving(now, start, placed, offset, placed, open),
        !(open && now[placed - 1] == now[placed]),
    ensures
        between_cells(now, start, placed + 1, offset + 1, true),
{
    let tile = now[placed];
    lemma_tiles_from(start, offset);
    lemma_settle_rest(now.take(placed), open, tile, tiles(start.skip(offset + 1)));
    assert(now.take(placed + 1) =~= now.take(placed).push(tile));
}

/// What a merge puts into the cell in front of the tile is what that cell
/// holds after the move.
pub proof fn lemma_merge_value(
    now: Seq<nat>,
    start: Seq<nat>,
    placed: int,
    offset: int,
    open: bool,
)
    requires
        tile_moving(now, start, placed, offset, placed, open),
        open,
        now[placed - 1] == now[placed],
    ensures
        collapse_line(start)[placed - 1] == 2 * now[placed],
{
    lemma_tiles_from(start, offset);
    lemma_settle_merge(now.take(placed), now[placed], tiles(start.skip(offset + 1)));
}

/// The tile merges into the equal tile in front of it.
pub proof fn lemma_merge(
    now: Seq<nat>,
    start: Seq<nat>,
    placed: int,
    offset: int,
    open: bool,
)
    requires
        tile_moving(now, start, placed, offset, placed, open),
        open,
        now[placed - 1] == now[placed],
    ensures
        between_cells(
            now.update(placed - 1, 2 * now[placed]).update(placed, 0),
            start,
            placed,
            offset + 1,
            false,
        ),
{
    lemma_tiles_from(start, offset);
    lemma_settle_merge(now.take(placed), now[placed], tiles(start.skip(offset + 1)));
    let next = now.update(placed - 1, 2 * now[placed]).update(placed, 0);
    assert(next.take(placed) =~= now.take(placed).drop_last().push(2 * now[placed]));
}

/// Past the last cell the line is what the move makes of it.
pub proof fn lemma_end(now: Seq<nat>, start: Seq<nat>, placed: int, open: bool)
    requires
        between_cells(now, start, placed, start.len() as int, open),
    ensures
        now == collapse_line(start),
{
    assert(start.skip(start.len() as int) =~= Seq::<nat>::empty());
    lemma_tiles_of_nothing();
    lemma_settle_end(now.take(placed), open);
    assert(now =~= pad(now.take(placed), start.len()));
}

} // verus!
