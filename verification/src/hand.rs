//! Tiles held in the hand: how often each kind occurs, and the one
//! sorted arrangement of them.

use crate::counting::{
    count_by, indicator, lemma_sum_bounds, lemma_sum_push, lemma_sum_update, sum_by,
};
use crate::tile::Tile;
use vstd::prelude::*;

verus! {

/// Counts that are all zero add up to zero.
pub proof fn lemma_total_zero(counts: Seq<u8>)
    requires
        forall|k: int| 0 <= k < counts.len() ==> counts[k] == 0,
    ensures
        total(counts) == 0,
    decreases counts.len(),
{
    if counts.len() > 0 {
        let front = counts.drop_last();
        assert forall|k: int| 0 <= k < front.len() implies front[k] == 0 by {
            assert(front[k] == counts[k]);
        }
        lemma_total_zero(front);
    }
}

/// Counts that add up to zero are all zero.
pub proof fn lemma_total_is_zero(counts: Seq<u8>)
    requires
        total(counts) == 0,
    ensures
        forall|k: int| 0 <= k < counts.len() ==> counts[k] == 0,
{
    let f = as_int();
    assert forall|i: int| 0 <= i < counts.len() implies f(#[trigger] counts[i]) >= 0 by {}
    lemma_sum_bounds(counts, f);
    assert forall|k: int| 0 <= k < counts.len() implies counts[k] == 0 by {
        assert(f(counts[k]) <= sum_by(counts, f));
    }
}

/// Why a hand cannot be made or changed as asked.
#[derive(Debug, Clone, Copy, PartialEq, Eq, Structural)]
pub enum HandError {
    /// The tile to discard is not in the hand.
    NoSuchTile,
    /// The tiles named do not number thirteen.
    WrongTileCount,
    /// A part of the text names no tile, or repeats one more often
    /// than can be counted.
    Malformed,
}

/// 1 for a tile of kind `k`, 0 for any other.
pub open spec fn kind_is(k: int) -> spec_fn(Tile) -> int {
    |t: Tile|
        if t.id == k {
            1int
        } else {
            0int
        }
}

/// How many tiles of kind `k` there are in `tiles`.
pub open spec fn tile_count(tiles: Seq<Tile>, k: int) -> int {
    sum_by(tiles, kind_is(k))
}

/// The tiles stand in the canonical order.
pub open spec fn sorted_tiles(tiles: Seq<Tile>) -> bool {
    forall|i: int, j: int| 0 <= i < j < tiles.len() ==> tiles[i].id <= tiles[j].id
}

/// Every tile is one of the 34 kinds.
pub open spec fn all_valid(tiles: Seq<Tile>) -> bool {
    forall|i: int| 0 <= i < tiles.len() ==> (#[trigger] tiles[i]).valid()
}

/// The sorted tiles with `t` put in at its place.
pub open spec fn insert_tile(tiles: Seq<Tile>, t: Tile) -> Seq<Tile>
    decreases tiles.len(),
{
    if tiles.len() == 0 || tiles.last().id <= t.id {
        tiles.push(t)
    } else {
        insert_tile(tiles.drop_last(), t).push(tiles.last())
    }
}

/// The tiles without one `t`; the same tiles where there is no `t`.
pub open spec fn remove_tile(tiles: Seq<Tile>, t: Tile) -> Seq<Tile>
    decreases tiles.len(),
{
    if tiles.len() == 0 {
        tiles
    } else if tiles.last() == t {
        tiles.drop_last()
    } else {
        remove_tile(tiles.drop_last(), t).push(tiles.last())
    }
}

/// Whether `t` is among the tiles.
pub open spec fn has_tile(tiles: Seq<Tile>, t: Tile) -> bool {
    exists|i: int| 0 <= i < tiles.len() && tiles[i] == t
}

/// The tiles that are related to `t`.
pub open spec fn related_to(t: Tile) -> spec_fn(Tile) -> bool {
    |x: Tile| t.is_related_spec(x)
}

/// The counts are those of the tiles, kind by kind.
pub open spec fn counts_match(counts: Seq<u8>, tiles: Seq<Tile>) -> bool {
    &&& counts.len() == 34
    &&& forall|k: int| 0 <= k < 34 ==> #[trigger] counts[k] == tile_count(tiles, k)
}

/// A count as a number.
pub open spec fn as_int() -> spec_fn(u8) -> int {
    |c: u8| c as int
}

/// The sum of the counts.
pub open spec fn total(counts: Seq<u8>) -> int {
    sum_by(counts, as_int())
}

/// A tile is counted once by its own kind and by no other.
pub proof fn lemma_count_push(tiles: Seq<Tile>, t: Tile, k: int)
    ensures
        tile_count(tiles.push(t), k) == tile_count(tiles, k) + (if t.id == k {
            1int
        } else {
            0int
        }),
{
    lemma_sum_push(tiles, t, kind_is(k));
}

/// Every kind that occurs is counted, and no count is negative.
pub proof fn lemma_count_bounds(tiles: Seq<Tile>, k: int)
    ensures
        0 <= tile_count(tiles, k) <= tiles.len(),
        tile_count(tiles, k) > 0 <==> exists|i: int|
            0 <= i < tiles.len() && (#[trigger] tiles[i]).id == k,
    decreases tiles.len(),
{
    if tiles.len() > 0 {
        let front = tiles.drop_last();
        lemma_count_bounds(front, k);
        if exists|i: int| 0 <= i < front.len() && (#[trigger] front[i]).id == k {
            let i = choose|i: int| 0 <= i < front.len() && (#[trigger] front[i]).id == k;
            assert(tiles[i].id == k);
        }
        if exists|i: int| 0 <= i < tiles.len() && (#[trigger] tiles[i]).id == k {
            let i = choose|i: int| 0 <= i < tiles.len() && (#[trigger] tiles[i]).id == k;
            if i < front.len() {
                assert(front[i].id == k);
            }
        }
    }
}

/// Sorted tiles with the same count of every kind are the same tiles.
pub proof fn lemma_sorted_unique(a: Seq<Tile>, b: Seq<Tile>)
    requires
        sorted_tiles(a),
        sorted_tiles(b),
        forall|k: int| 0 <= k < 256 ==> tile_count(a, k) == tile_count(b, k),
    ensures
        a == b,
    decreases a.len(),
{
    if a.len() == 0 {
        if b.len() > 0 {
            lemma_count_bounds(b, b[0].id as int);
            lemma_count_bounds(a, b[0].id as int);
        }
        assert(a =~= b);
    } else {
        let x = a.last();
        lemma_count_bounds(a, x.id as int);
        lemma_count_bounds(b, x.id as int);
        assert(a[a.len() - 1].id == x.id);
        let j = choose|j: int| 0 <= j < b.len() && (#[trigger] b[j]).id == x.id;
        let y = b.last();
        lemma_count_bounds(b, y.id as int);
        lemma_count_bounds(a, y.id as int);
        assert(b[b.len() - 1].id == y.id);
        let i = choose|i: int| 0 <= i < a.len() && (#[trigger] a[i]).id == y.id;
        assert(x.id == y.id);
        assert(x == y);
        let a1 = a.drop_last();
        let b1 = b.drop_last();
        assert forall|k: int| 0 <= k < 256 implies tile_count(a1, k) == tile_count(b1, k) by {
            assert(tile_count(a, k) == tile_count(b, k));
        }
        lemma_sorted_unique(a1, b1);
        assert(a =~= a1.push(x));
        assert(b =~= b1.push(y));
    }
}

/// Putting a tile in at a place that keeps the order gives the
/// sorted tiles with that tile.
pub proof fn lemma_insert_at(tiles: Seq<Tile>, t: Tile, i: int)
    requires
        sorted_tiles(tiles),
        0 <= i <= tiles.len(),
        forall|j: int| 0 <= j < i ==> tiles[j].id <= t.id,
        forall|j: int| i <= j < tiles.len() ==> t.id <= tiles[j].id,
    ensures
        insert_tile(tiles, t) == tiles.insert(i, t),
        sorted_tiles(tiles.insert(i, t)),
    decreases tiles.len(),
{
    if tiles.len() == 0 {
        assert(tiles.push(t) =~= tiles.insert(i, t));
    } else if tiles.last().id <= t.id {
        // every tile from `i` on equals `t`
        assert forall|j: int| i <= j < tiles.len() implies tiles[j] == t by {
            assert(tiles[j].id <= tiles.last().id);
        }
        assert(tiles.push(t) =~= tiles.insert(i, t));
    } else {
        let front = tiles.drop_last();
        assert(i < tiles.len());
        lemma_insert_at(front, t, i);
        assert(front.insert(i, t).push(tiles.last()) =~= tiles.insert(i, t));
    }
}

/// Taking out any one of the equal tiles of sorted tiles gives the
/// tiles without one of them.
pub proof fn lemma_remove_at(tiles: Seq<Tile>, t: Tile, i: int)
    requires
        sorted_tiles(tiles),
        0 <= i < tiles.len(),
        tiles[i] == t,
    ensures
        remove_tile(tiles, t) == tiles.remove(i),
        sorted_tiles(tiles.remove(i)),
    decreases tiles.len(),
{
    if tiles.last() == t {
        assert forall|j: int| i <= j < tiles.len() implies tiles[j] == t by {
            assert(tiles[i].id <= tiles[j].id);
            assert(tiles[j].id <= tiles.last().id);
        }
        assert(tiles.drop_last() =~= tiles.remove(i));
    } else {
        let front = tiles.drop_last();
        lemma_remove_at(front, t, i);
        assert(front.remove(i).push(tiles.last()) =~= tiles.remove(i));
    }
}

/// Sorted tiles are what they were once a tile has gone in and come
/// out again.
pub proof fn lemma_insert_then_remove(tiles: Seq<Tile>, t: Tile)
    requires
        sorted_tiles(tiles),
    ensures
        remove_tile(insert_tile(tiles, t), t) == tiles,
        sorted_tiles(insert_tile(tiles, t)),
        insert_tile(tiles, t).len() == tiles.len() + 1,
    decreases tiles.len(),
{
    if tiles.len() == 0 || tiles.last().id <= t.id {
        assert(tiles.push(t).drop_last() =~= tiles);
        assert(sorted_tiles(tiles.push(t)));
    } else {
        let front = tiles.drop_last();
        lemma_insert_then_remove(front, t);
        let ins = insert_tile(front, t);
        let whole = ins.push(tiles.last());
        assert(whole.drop_last() =~= ins);
        assert(whole.last() == tiles.last());
        assert(remove_tile(whole, t) == remove_tile(ins, t).push(tiles.last()));
        assert(front.push(tiles.last()) =~= tiles);
        lemma_insert_members(front, t);
        assert forall|a: int, b: int| 0 <= a < b < whole.len() implies whole[a].id
            <= whole[b].id by {
            if b == whole.len() - 1 {
                assert(ins[a] == t || has_tile(front, ins[a]));
                if ins[a] != t {
                    let m = choose|m: int| 0 <= m < front.len() && front[m] == ins[a];
                    assert(tiles[m].id <= tiles.last().id);
                }
            } else {
                assert(ins[a].id <= ins[b].id);
            }
        }
    }
}

/// What the tiles hold after a tile went in: that tile, and what they
/// held.
pub proof fn lemma_insert_members(tiles: Seq<Tile>, t: Tile)
    ensures
        forall|a: int|
            0 <= a < insert_tile(tiles, t).len() ==> #[trigger] insert_tile(tiles, t)[a] == t
                || has_tile(tiles, insert_tile(tiles, t)[a]),
        insert_tile(tiles, t).len() == tiles.len() + 1,
        forall|k: int|
            tile_count(insert_tile(tiles, t), k) == tile_count(tiles, k) + (if t.id == k {
                1int
            } else {
                0int
            }),
    decreases tiles.len(),
{
    let ins = insert_tile(tiles, t);
    if tiles.len() == 0 || tiles.last().id <= t.id {
        assert forall|a: int| 0 <= a < ins.len() implies #[trigger] ins[a] == t || has_tile(
            tiles,
            ins[a],
        ) by {
            if a < tiles.len() {
                assert(tiles[a] == ins[a]);
            }
        }
        assert forall|k: int|
            tile_count(ins, k) == tile_count(tiles, k) + (if t.id == k {
                1int
            } else {
                0int
            }) by {
            lemma_count_push(tiles, t, k);
        }
    } else {
        let front = tiles.drop_last();
        lemma_insert_members(front, t);
        let inner = insert_tile(front, t);
        assert forall|a: int| 0 <= a < ins.len() implies #[trigger] ins[a] == t || has_tile(
            tiles,
            ins[a],
        ) by {
            if a < inner.len() {
                assert(ins[a] == inner[a]);
                if inner[a] != t {
                    let m = choose|m: int| 0 <= m < front.len() && front[m] == inner[a];
                    assert(tiles[m] == inner[a]);
                }
            } else {
                assert(tiles[tiles.len() - 1] == ins[a]);
            }
        }
        assert forall|k: int|
            tile_count(ins, k) == tile_count(tiles, k) + (if t.id == k {
                1int
            } else {
                0int
            }) by {
            lemma_count_push(inner, tiles.last(), k);
            assert(front.push(tiles.last()) =~= tiles);
            lemma_count_push(front, tiles.last(), k);
        }
    }
}

/// Counts the tiles kind by kind.
pub fn count_tiles(tiles: &Vec<Tile>) -> (counts: Vec<u8>)
    requires
        all_valid(tiles@),
        tiles@.len() <= 255,
    ensures
        counts_match(counts@, tiles@),
        total(counts@) == tiles@.len(),
{
    let mut counts: Vec<u8> = Vec::new();
    let mut k: usize = 0;
    while k < 34
        invariant
            k <= 34,
            counts@.len() == k,
            forall|j: int| 0 <= j < k ==> counts@[j] == 0,
            total(counts@) == 0,
        decreases 34 - k,
    {
        proof {
            lemma_sum_push(counts@, 0u8, as_int());
        }
        counts.push(0);
        k += 1;
    }
    let mut i: usize = 0;
    while i < tiles.len()
        invariant
            i <= tiles@.len(),
            tiles@.len() <= 255,
            all_valid(tiles@),
            counts_match(counts@, tiles@.subrange(0, i as int)),
            total(counts@) == i,
        decreases tiles@.len() - i,
    {
        let id: usize = tiles[i].id as usize;
        let ghost before = counts@;
        let ghost prefix = tiles@.subrange(0, i as int);
        proof {
            assert(tiles@[i as int].valid());
            lemma_count_bounds(prefix, id as int);
            assert(before[id as int] == tile_count(prefix, id as int));
            lemma_sum_update(before, id as int, (before[id as int] + 1) as u8, as_int());
        }
        let c: u8 = counts[id];
        counts.set(id, c + 1);
        proof {
            assert(prefix.push(tiles@[i as int]) =~= tiles@.subrange(0, i + 1));
            assert forall|k: int| 0 <= k < 34 implies #[trigger] counts@[k] == tile_count(
                tiles@.subrange(0, i + 1),
                k,
            ) by {
                lemma_count_push(prefix, tiles@[i as int], k);
                assert(before[k] == tile_count(prefix, k));
            }
        }
        i += 1;
    }
    assert(tiles@.subrange(0, i as int) =~= tiles@);
    counts
}

/// The counts of the tiles, kind by kind.
pub open spec fn counts_of_tiles(tiles: Seq<Tile>) -> Seq<u8> {
    Seq::new(34, |k: int| tile_count(tiles, k) as u8)
}

/// The number of tiles that are related to `t`.
pub fn count_related(tiles: &Vec<Tile>, t: Tile) -> (r: usize)
    ensures
        r == count_by(tiles@, related_to(t)),
        r <= tiles@.len(),
{
    let ghost f = indicator(related_to(t));
    let mut c: usize = 0;
    let mut i: usize = 0;
    while i < tiles.len()
        invariant
            i <= tiles@.len(),
            c <= i,
            c == sum_by(tiles@.subrange(0, i as int), f),
            f == indicator(related_to(t)),
        decreases tiles@.len() - i,
    {
        proof {
            lemma_sum_push(tiles@.subrange(0, i as int), tiles@[i as int], f);
            assert(tiles@.subrange(0, i as int).push(tiles@[i as int]) =~= tiles@.subrange(
                0,
                i + 1,
            ));
        }
        if t.is_related(tiles[i]) {
            c += 1;
        }
        i += 1;
    }
    assert(tiles@.subrange(0, i as int) =~= tiles@);
    c
}

/// Whether the tiles are valid and stand in the canonical order.
pub fn valid_in_order(tiles: &Vec<Tile>) -> (r: bool)
    ensures
        r == (all_valid(tiles@) && sorted_tiles(tiles@)),
{
    let mut i: usize = 0;
    while i < tiles.len()
        invariant
            i <= tiles@.len(),
            forall|j: int| 0 <= j < i ==> (#[trigger] tiles@[j]).valid(),
            forall|a: int, b: int| 0 <= a < b < i ==> tiles@[a].id <= tiles@[b].id,
        decreases tiles@.len() - i,
    {
        if tiles[i].id >= 34 {
            assert(!tiles@[i as int].valid());
            return false;
        }
        if i > 0 && tiles[i - 1].id > tiles[i].id {
            return false;
        }
        proof {
            assert forall|a: int, b: int| 0 <= a < b < i + 1 implies tiles@[a].id
                <= tiles@[b].id by {
                if b == i && a < i - 1 {
                    assert(tiles@[a].id <= tiles@[i - 1].id);
                }
            }
        }
        i += 1;
    }
    true
}

/// Whether `t` is among the tiles.
pub fn holds_tile(tiles: &Vec<Tile>, t: Tile) -> (r: bool)
    ensures
        r == has_tile(tiles@, t),
{
    let mut i: usize = 0;
    while i < tiles.len()
        invariant
            i <= tiles@.len(),
            forall|j: int| 0 <= j < i ==> tiles@[j] != t,
        decreases tiles@.len() - i,
    {
        if tiles[i] == t {
            return true;
        }
        i += 1;
    }
    false
}

/// The counts of valid tiles add up to the number of the tiles.
pub proof fn lemma_total_counts(tiles: Seq<Tile>)
    requires
        all_valid(tiles),
        tiles.len() <= 255,
    ensures
        total(counts_of_tiles(tiles)) == tiles.len(),
    decreases tiles.len(),
{
    let counts = counts_of_tiles(tiles);
    if tiles.len() == 0 {
        assert forall|k: int| 0 <= k < counts.len() implies counts[k] == 0 by {}
        lemma_total_zero(counts);
    } else {
        let front = tiles.drop_last();
        let t = tiles.last();
        assert(tiles[tiles.len() - 1].valid());
        assert forall|i: int| 0 <= i < front.len() implies (#[trigger] front[i]).valid() by {
            assert(front[i] == tiles[i]);
        }
        lemma_total_counts(front);
        let before = counts_of_tiles(front);
        let k = t.id as int;
        lemma_count_bounds(front, k);
        assert forall|j: int| 0 <= j < 34 implies counts[j] == before.update(
            k,
            (before[k] + 1) as u8,
        )[j] by {
            lemma_count_bounds(front, j);
            lemma_count_bounds(tiles, j);
        }
        assert(counts =~= before.update(k, (before[k] + 1) as u8));
        lemma_sum_update(before, k, (before[k] + 1) as u8, as_int());
    }
}

} // verus!
