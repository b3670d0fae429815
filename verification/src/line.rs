//! How one line of cells settles when its tiles are pushed towards index 0.
//!
//! A line is a sequence of cell values; 0 is an empty cell. Index 0 is the
//! cell at the edge the tiles move to.

use vstd::arithmetic::power2::{lemma_pow2_unfold, pow2};
use vstd::prelude::*;

verus! {

/// Holds of the value of a cell with a tile on it.
pub open spec fn occupied() -> spec_fn(nat) -> bool {
    |v: nat| v != 0
}

/// The tiles of a line, nearest to the edge first.
pub open spec fn tiles(line: Seq<nat>) -> Seq<nat> {
    line.filter(occupied())
}

/// Merges equal neighbours pairwise, starting at the edge. A tile that came
/// out of a merge does not merge again.
pub open spec fn merge_pairs(tiles: Seq<nat>) -> Seq<nat>
    decreases tiles.len(),
{
    if tiles.len() == 0 {
        Seq::empty()
    } else if tiles.len() >= 2 && tiles[0] == tiles[1] {
        seq![2 * tiles[0]] + merge_pairs(tiles.skip(2))
    } else {
        seq![tiles[0]] + merge_pairs(tiles.skip(1))
    }
}

/// A line of `len` cells that starts with `tiles` and is empty after them.
pub open spec fn pad(tiles: Seq<nat>, len: nat) -> Seq<nat> {
    Seq::new(
        len,
        |i: int|
            if i < tiles.len() {
                tiles[i]
            } else {
                0
            },
    )
}

/// The line after a move: its tiles merged pairwise and packed against the edge.
pub open spec fn collapse_line(line: Seq<nat>) -> Seq<nat> {
    pad(merge_pairs(tiles(line)), line.len())
}

/// The sum of the values of a line.
pub open spec fn total(line: Seq<nat>) -> nat
    decreases line.len(),
{
    if line.len() == 0 {
        0
    } else {
        line[0] + total(line.skip(1))
    }
}

/// Every tile of the line rests against the edge or against a tile of
/// another value: a move leaves such a line as it is.
pub open spec fn settled_line(line: Seq<nat>) -> bool {
    forall|i: int|
        0 < i < line.len() && line[i] != 0 ==> line[i - 1] != 0 && line[i - 1]
            != #[trigger] line[i]
}

/// The value is that of a tile of the line, or twice that: what a tile
/// shows that has merged once at most.
pub open spec fn merged_once_at_most(value: nat, line: Seq<nat>) -> bool {
    exists|j: int|
        0 <= j < line.len() && #[trigger] line[j] != 0 && (value == line[j] || value == 2 * line[j])
}

/// No two neighbours in the sequence are equal.
pub open spec fn without_pairs(tiles: Seq<nat>) -> bool {
    forall|i: int| 0 < i < tiles.len() ==> tiles[i - 1] != #[trigger] tiles[i]
}

/// The value can stand on a tile: it is 2 or a higher power of 2.
pub open spec fn tile_value(v: nat) -> bool {
    exists|k: nat| k >= 1 && v == #[trigger] pow2(k)
}

/// Every cell of the line is empty or holds a tile value.
pub open spec fn valid_line(line: Seq<nat>) -> bool {
    forall|i: int| 0 <= i < line.len() ==> line[i] == 0 || tile_value(#[trigger] line[i])
}

/// The double of a tile value is a tile value.
pub proof fn lemma_double_tile_value(v: nat)
    requires
        tile_value(v),
    ensures
        tile_value(2 * v),
{
    let k = choose|k: nat| k >= 1 && v == #[trigger] pow2(k);
    lemma_pow2_unfold(k + 1);
    assert(2 * v == pow2(k + 1));
}

/// The total of two sequences in a row is the sum of their totals.
pub proof fn lemma_total_add(a: Seq<nat>, b: Seq<nat>)
    ensures
        total(a + b) == total(a) + total(b),
    decreases a.len(),
{
    if a.len() == 0 {
        assert(a + b =~= b);
    } else {
        assert((a + b).skip(1) =~= a.skip(1) + b);
        lemma_total_add(a.skip(1), b);
    }
}

/// The total of a single value is that value.
pub proof fn lemma_total_one(v: nat)
    ensures
        total(seq![v]) == v,
{
    assert(seq![v].skip(1) =~= Seq::<nat>::empty());
    reveal_with_fuel(total, 2);
}

/// The tiles of a line are occupied, are no more than its cells, and add up
/// to what the line adds up to.
pub proof fn lemma_tiles(line: Seq<nat>)
    ensures
        tiles(line).len() <= line.len(),
        forall|i: int| 0 <= i < tiles(line).len() ==> #[trigger] tiles(line)[i] != 0,
        total(tiles(line)) == total(line),
        valid_line(line) ==> forall|i: int|
            0 <= i < tiles(line).len() ==> tile_value(#[trigger] tiles(line)[i]),
    decreases line.len(),
{
    reveal(Seq::filter);
    if line.len() > 0 {
        let front = line.drop_last();
        lemma_tiles(front);
        assert(line =~= front + seq![line.last()]);
        lemma_total_add(front, seq![line.last()]);
        lemma_total_one(line.last());
        if line.last() != 0 {
            assert(tiles(line) =~= tiles(front) + seq![line.last()]);
            lemma_total_add(tiles(front), seq![line.last()]);
        }
        if valid_line(line) {
            assert forall|i: int| 0 <= i < front.len() implies front[i] == 0 || tile_value(
                #[trigger] front[i],
            ) by {
                assert(front[i] == line[i]);
            }
            assert(line.last() == line[line.len() - 1]);
        }
    }
}

/// A line whose first `count` cells are occupied and whose other cells are
/// empty has those first cells as its tiles.
pub proof fn lemma_tiles_packed(line: Seq<nat>, count: int)
    requires
        0 <= count <= line.len(),
        forall|i: int| 0 <= i < count ==> line[i] != 0,
        forall|i: int| count <= i < line.len() ==> line[i] == 0,
    ensures
        tiles(line) == line.take(count),
    decreases line.len(),
{
    reveal(Seq::filter);
    if line.len() == 0 {
        assert(line.take(count) =~= line);
    } else {
        let front = line.drop_last();
        if count == line.len() {
            lemma_tiles_packed(front, count - 1);
            assert(front.take(count - 1).push(line.last()) =~= line.take(count));
        } else {
            lemma_tiles_packed(front, count);
            assert(front.take(count) =~= line.take(count));
        }
    }
}

/// Merging yields no more tiles than went in, no empty value, and the same
/// total; and tile values stay tile values.
pub proof fn lemma_merge_pairs(tiles: Seq<nat>)
    ensures
        merge_pairs(tiles).len() <= tiles.len(),
        total(merge_pairs(tiles)) == total(tiles),
        (forall|i: int| 0 <= i < tiles.len() ==> tiles[i] != 0) ==> forall|i: int|
            0 <= i < merge_pairs(tiles).len() ==> #[trigger] merge_pairs(tiles)[i] != 0,
        (forall|i: int| 0 <= i < tiles.len() ==> tile_value(tiles[i])) ==> forall|i: int|
            0 <= i < merge_pairs(tiles).len() ==> tile_value(#[trigger] merge_pairs(tiles)[i]),
    decreases tiles.len(),
{
    if tiles.len() == 0 {
    } else if tiles.len() >= 2 && tiles[0] == tiles[1] {
        let rest = tiles.skip(2);
        lemma_merge_pairs(rest);
        lemma_total_add(seq![2 * tiles[0]], merge_pairs(rest));
        lemma_total_one(2 * tiles[0]);
        assert(tiles.skip(1).skip(1) =~= rest);
        assert(total(tiles) == tiles[0] + tiles[1] + total(rest)) by {
            reveal_with_fuel(total, 2);
        }
        if forall|i: int| 0 <= i < tiles.len() ==> tile_value(tiles[i]) {
            lemma_double_tile_value(tiles[0]);
            assert forall|i: int| 0 <= i < rest.len() implies tile_value(rest[i]) by {
                assert(rest[i] == tiles[i + 2]);
            }
        }
        if forall|i: int| 0 <= i < tiles.len() ==> tiles[i] != 0 {
            assert forall|i: int| 0 <= i < rest.len() implies rest[i] != 0 by {
                assert(rest[i] == tiles[i + 2]);
            }
        }
    } else {
        let rest = tiles.skip(1);
        lemma_merge_pairs(rest);
        lemma_total_add(seq![tiles[0]], merge_pairs(rest));
        lemma_total_one(tiles[0]);
        if forall|i: int| 0 <= i < tiles.len() ==> tile_value(tiles[i]) {
            assert forall|i: int| 0 <= i < rest.len() implies tile_value(rest[i]) by {
                assert(rest[i] == tiles[i + 1]);
            }
        }
        if forall|i: int| 0 <= i < tiles.len() ==> tiles[i] != 0 {
            assert forall|i: int| 0 <= i < rest.len() implies rest[i] != 0 by {
                assert(rest[i] == tiles[i + 1]);
            }
        }
    }
}

/// Where no two neighbours are equal, merging changes nothing.
pub proof fn lemma_merge_without_pairs(tiles: Seq<nat>)
    requires
        without_pairs(tiles),
    ensures
        merge_pairs(tiles) == tiles,
    decreases tiles.len(),
{
    if tiles.len() == 0 {
        assert(merge_pairs(tiles) =~= tiles);
    } else {
        let rest = tiles.skip(1);
        assert forall|i: int| 0 < i < rest.len() implies rest[i - 1] != #[trigger] rest[i] by {
            assert(rest[i] == tiles[i + 1]);
        }
        lemma_merge_without_pairs(rest);
        if tiles.len() >= 2 {
            assert(tiles[1 - 1] != tiles[1]);
        }
        assert(seq![tiles[0]] + rest =~= tiles);
    }
}

/// Where two neighbours are equal, merging leaves fewer tiles.
pub proof fn lemma_merge_with_pair(tiles: Seq<nat>)
    requires
        !without_pairs(tiles),
    ensures
        merge_pairs(tiles).len() < tiles.len(),
    decreases tiles.len(),
{
    let i = choose|i: int| 0 < i < tiles.len() && tiles[i - 1] == #[trigger] tiles[i];
    if tiles[0] == tiles[1] {
        lemma_merge_pairs(tiles.skip(2));
    } else {
        let rest = tiles.skip(1);
        assert(rest[i - 1 - 1] == rest[i - 1]);
        lemma_merge_with_pair(rest);
    }
}

/// The total of a padded line is the total of its tiles.
pub proof fn lemma_total_pad(tiles: Seq<nat>, len: nat)
    requires
        tiles.len() <= len,
    ensures
        total(pad(tiles, len)) == total(tiles),
    decreases len,
{
    let line = pad(tiles, len);
    if len == 0 {
        assert(tiles =~= line);
    } else if tiles.len() == 0 {
        assert(line.skip(1) =~= pad(tiles, (len - 1) as nat));
        lemma_total_pad(tiles, (len - 1) as nat);
    } else {
        assert(line.skip(1) =~= pad(tiles.skip(1), (len - 1) as nat));
        lemma_total_pad(tiles.skip(1), (len - 1) as nat);
    }
}

/// A move keeps the length and the total of a line, and keeps a valid line
/// valid.
pub proof fn lemma_collapse_line(line: Seq<nat>)
    ensures
        collapse_line(line).len() == line.len(),
        total(collapse_line(line)) == total(line),
        valid_line(line) ==> valid_line(collapse_line(line)),
        merge_pairs(tiles(line)).len() <= line.len(),
        forall|i: int|
            0 <= i < merge_pairs(tiles(line)).len() ==> #[trigger] collapse_line(line)[i] != 0,
{
    lemma_tiles(line);
    lemma_merge_pairs(tiles(line));
    lemma_total_pad(merge_pairs(tiles(line)), line.len());
}

/// A settled line has its tiles at the edge, no two neighbours among them
/// equal.
pub proof fn lemma_settled_line_shape(line: Seq<nat>)
    requires
        settled_line(line),
    ensures
        tiles(line) == line.take(tiles(line).len() as int),
        tiles(line).len() <= line.len(),
        forall|i: int| tiles(line).len() <= i < line.len() ==> line[i] == 0,
        without_pairs(tiles(line)),
    decreases line.len(),
{
    reveal(Seq::filter);
    if line.len() == 0 {
        assert(tiles(line) =~= line.take(0));
    } else {
        let front = line.drop_last();
        assert forall|i: int| 0 < i < front.len() && front[i] != 0 implies front[i - 1] != 0
            && front[i - 1] != #[trigger] front[i] by {
            assert(front[i] == line[i]);
        }
        lemma_settled_line_shape(front);
        let count = tiles(front).len() as int;
        if line.last() == 0 {
            assert(front.take(count) =~= line.take(count));
            assert forall|i: int| count <= i < line.len() implies line[i] == 0 by {
                if i < front.len() {
                    assert(front[i] == 0);
                }
            }
        } else {
            let end = line.len() - 1;
            assert(line[end] != 0);
            if end > 0 {
                assert(line[end - 1] != 0);
                assert(front[end - 1] != 0);
            }
            assert(count == end);
            assert(tiles(line) =~= line.take(count + 1));
            assert forall|i: int| 0 < i < tiles(line).len() implies tiles(line)[i - 1]
                != #[trigger] tiles(line)[i] by {
                assert(tiles(line)[i] == line[i]);
            }
        }
    }
}

/// A move leaves a line as it is if and only if the line is settled.
pub proof fn lemma_settled_line_iff_fixed(line: Seq<nat>)
    ensures
        settled_line(line) <==> collapse_line(line) == line,
{
    let merged = merge_pairs(tiles(line));
    let after = collapse_line(line);
    lemma_collapse_line(line);
    if settled_line(line) {
        lemma_settled_line_shape(line);
        lemma_merge_without_pairs(tiles(line));
        assert(after =~= line);
    }
    if after == line {
        let count = merged.len() as int;
        assert forall|i: int| 0 <= i < count implies line[i] != 0 by {
            assert(after[i] != 0);
        }
        lemma_tiles_packed(line, count);
        assert(line.take(count) =~= merged);
        if !without_pairs(merged) {
            lemma_merge_with_pair(merged);
        }
        assert forall|i: int| 0 < i < line.len() && line[i] != 0 implies line[i - 1] != 0
            && line[i - 1] != #[trigger] line[i] by {
            assert(after[i] != 0);
            assert(i < count);
            assert(merged[i - 1] != merged[i]);
        }
    }
}

/// Where no value of a line is above `bound`, a move produces no value above
/// twice `bound`.
pub proof fn lemma_collapse_line_bound(line: Seq<nat>, bound: nat)
    requires
        forall|i: int| 0 <= i < line.len() ==> line[i] <= bound,
    ensures
        forall|i: int| 0 <= i < line.len() ==> #[trigger] collapse_line(line)[i] <= 2 * bound,
{
    lemma_tiles_bound(line, bound);
    lemma_merge_pairs_bound(tiles(line), bound);
}

/// The tiles of a line are no larger than its values.
proof fn lemma_tiles_bound(line: Seq<nat>, bound: nat)
    requires
        forall|i: int| 0 <= i < line.len() ==> line[i] <= bound,
    ensures
        forall|i: int| 0 <= i < tiles(line).len() ==> #[trigger] tiles(line)[i] <= bound,
    decreases line.len(),
{
    reveal(Seq::filter);
    if line.len() > 0 {
        let front = line.drop_last();
        assert forall|i: int| 0 <= i < front.len() implies front[i] <= bound by {
            assert(front[i] == line[i]);
        }
        lemma_tiles_bound(front, bound);
        assert(line.last() == line[line.len() - 1]);
        assert forall|i: int| 0 <= i < tiles(line).len() implies #[trigger] tiles(line)[i]
            <= bound by {
            if i < tiles(front).len() {
                assert(tiles(line)[i] == tiles(front)[i]);
            }
        }
    }
}

/// Merging at most doubles a value.
proof fn lemma_merge_pairs_bound(tiles: Seq<nat>, bound: nat)
    requires
        forall|i: int| 0 <= i < tiles.len() ==> tiles[i] <= bound,
    ensures
        forall|i: int|
            0 <= i < merge_pairs(tiles).len() ==> #[trigger] merge_pairs(tiles)[i] <= 2 * bound,
    decreases tiles.len(),
{
    let merged = merge_pairs(tiles);
    if tiles.len() == 0 {
    } else if tiles.len() >= 2 && tiles[0] == tiles[1] {
        let rest = tiles.skip(2);
        assert forall|i: int| 0 <= i < rest.len() implies rest[i] <= bound by {
            assert(rest[i] == tiles[i + 2]);
        }
        lemma_merge_pairs_bound(rest, bound);
        assert forall|i: int| 0 <= i < merged.len() implies #[trigger] merged[i] <= 2 * bound by {
            if i > 0 {
                assert(merged[i] == merge_pairs(rest)[i - 1]);
            }
        }
    } else {
        let rest = tiles.skip(1);
        assert forall|i: int| 0 <= i < rest.len() implies rest[i] <= bound by {
            assert(rest[i] == tiles[i + 1]);
        }
        lemma_merge_pairs_bound(rest, bound);
        assert forall|i: int| 0 <= i < merged.len() implies #[trigger] merged[i] <= 2 * bound by {
            if i > 0 {
                assert(merged[i] == merge_pairs(rest)[i - 1]);
            }
        }
    }
}

/// A move at most doubles a tile: every tile of a line after a move shows
/// the value of a tile of the line before it, or twice that value.
pub proof fn lemma_no_second_merge(line: Seq<nat>, i: int)
    requires
        0 <= i < line.len(),
        collapse_line(line)[i] != 0,
    ensures
        merged_once_at_most(collapse_line(line)[i], line),
{
    let merged = merge_pairs(tiles(line));
    lemma_merge_pairs_origin(tiles(line), i);
    let j = choose|j: int|
        0 <= j < tiles(line).len() && (merged[i] == tiles(line)[j] || merged[i] == 2 * tiles(
            line,
        )[j]);
    let tile = tiles(line)[j];
    lemma_tiles(line);
    assert(tiles(line).contains(tile));
    line.lemma_filter_contains_rev(occupied(), tile);
    let k = choose|k: int| 0 <= k < line.len() && line[k] == tile;
    assert(line[k] != 0);
}

/// Every merged tile is one of the tiles that went in, or the double of one.
proof fn lemma_merge_pairs_origin(tiles: Seq<nat>, i: int)
    requires
        0 <= i < merge_pairs(tiles).len(),
    ensures
        exists|j: int|
            0 <= j < tiles.len() && (merge_pairs(tiles)[i] == #[trigger] tiles[j] || merge_pairs(
                tiles,
            )[i] == 2 * tiles[j]),
    decreases tiles.len(),
{
    let merged = merge_pairs(tiles);
    if i == 0 {
        assert(merged[0] == tiles[0] || merged[0] == 2 * tiles[0]);
    } else {
        let step: int = if tiles.len() >= 2 && tiles[0] == tiles[1] {
            2
        } else {
            1
        };
        let rest = tiles.skip(step);
        assert(merged[i] == merge_pairs(rest)[i - 1]);
        lemma_merge_pairs_origin(rest, i - 1);
        let j = choose|j: int|
            0 <= j < rest.len() && (merge_pairs(rest)[i - 1] == #[trigger] rest[j] || merge_pairs(
                rest,
            )[i - 1] == 2 * rest[j]);
        assert(rest[j] == tiles[j + step]);
    }
}

/// A move that changes a line leaves its last cell empty.
pub proof fn lemma_changed_line_has_room(line: Seq<nat>)
    requires
        collapse_line(line) != line,
    ensures
        line.len() > 0,
        collapse_line(line)[line.len() - 1] == 0,
{
    let merged = merge_pairs(tiles(line));
    lemma_collapse_line(line);
    if line.len() == 0 {
        assert(collapse_line(line) =~= line);
    } else if merged.len() == line.len() {
        lemma_tiles(line);
        lemma_merge_pairs(tiles(line));
        assert(tiles(line).len() == line.len());
        assert forall|i: int| 0 <= i < line.len() implies line[i] != 0 by {
            if line[i] == 0 {
                lemma_tiles_short(line, i);
            }
        }
        lemma_tiles_packed(line, line.len() as int);
        assert(line.take(line.len() as int) =~= line);
        if !without_pairs(line) {
            lemma_merge_with_pair(line);
        }
        lemma_merge_without_pairs(line);
        assert(collapse_line(line) =~= line);
    }
}

/// A line with an empty cell has fewer tiles than cells.
proof fn lemma_tiles_short(line: Seq<nat>, empty: int)
    requires
        0 <= empty < line.len(),
        line[empty] == 0,
    ensures
        tiles(line).len() < line.len(),
    decreases line.len(),
{
    reveal(Seq::filter);
    let front = line.drop_last();
    if empty == line.len() - 1 {
        lemma_tiles(front);
    } else {
        lemma_tiles_short(front, empty);
    }
}

/// Where no two neighbouring tiles of a line are equal, a move keeps the
/// tiles, their order and their number, and packs them against the edge.
pub proof fn lemma_slide_keeps_tiles(line: Seq<nat>)
    requires
        without_pairs(tiles(line)),
    ensures
        collapse_line(line) == pad(tiles(line), line.len()),
        tiles(collapse_line(line)) == tiles(line),
{
    lemma_tiles(line);
    lemma_merge_without_pairs(tiles(line));
    let after = pad(tiles(line), line.len());
    lemma_tiles_packed(after, tiles(line).len() as int);
    assert(after.take(tiles(line).len() as int) =~= tiles(line));
}

} // verus!
