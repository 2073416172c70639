//! The readings of a hand of fourteen as a complete hand, and the
//! list of them.

use crate::counting::{lemma_sum_concat, lemma_sum_one, lemma_sum_positive};
use crate::groups::{
    blocks_count, blocks_sorted, code_leq, fits_tiles, holds_of, lemma_block_counts,
    lemma_blocks_count_bounds, lemma_body_permutation, lemma_code_order, standard_body,
};
use crate::hand::{
    all_valid, has_tile, kind_is, lemma_count_bounds, lemma_count_push, lemma_sorted_unique,
    sorted_tiles, tile_count,
};
use crate::lex::{lemma_lex_irreflexive, lemma_lex_total, lex_lt, strictly_sorted};
use crate::tile::Tile;
use crate::tile_block::{lemma_code_injective, BlockType, TileBlock};
use crate::tile_pattern::{Reading, TilePattern};
use crate::yaku::{han_lt, han_sum, Yaku};
use vstd::prelude::*;

verus! {

/// What a hand of fourteen is: its tiles in order, and the tile drawn
/// last.
pub struct FullHand {
    pub tiles: Seq<Tile>,
    pub last_draw: Tile,
}

impl FullHand {
    /// Fourteen valid tiles in order, the tile drawn last among them.
    pub open spec fn wf(self) -> bool {
        &&& self.tiles.len() == 14
        &&& all_valid(self.tiles)
        &&& sorted_tiles(self.tiles)
        &&& has_tile(self.tiles, self.last_draw)
    }
}

/// Each tile as a group of its own.
pub open spec fn orphans_of(tiles: Seq<Tile>) -> Seq<TileBlock> {
    Seq::new(
        tiles.len(),
        |i: int| TileBlock { block_type: BlockType::Orphan, first: tiles[i], second: tiles[i] },
    )
}

/// Every second tile as a pair.
pub open spec fn pairs_of(tiles: Seq<Tile>) -> Seq<TileBlock> {
    Seq::new(
        tiles.len() / 2,
        |i: int|
            TileBlock { block_type: BlockType::Pair, first: tiles[2 * i], second: tiles[2 * i] },
    )
}

/// The first tile of every group.
pub open spec fn firsts_of(blocks: Seq<TileBlock>) -> Seq<Tile> {
    Seq::new(blocks.len(), |i: int| blocks[i].first)
}

/// The first tile of every group, twice.
pub open spec fn doubled_firsts(blocks: Seq<TileBlock>) -> Seq<Tile> {
    Seq::new(2 * blocks.len(), |i: int| blocks[i / 2].first)
}

/// Single tiles hold what their tiles are.
pub proof fn lemma_orphans_count(blocks: Seq<TileBlock>, k: int)
    requires
        forall|i: int| 0 <= i < blocks.len() ==> (#[trigger] blocks[i]).is_orphan(),
    ensures
        blocks_count(blocks, k) == tile_count(firsts_of(blocks), k),
    decreases blocks.len(),
{
    if blocks.len() > 0 {
        let front = blocks.drop_last();
        assert forall|i: int| 0 <= i < front.len() implies (#[trigger] front[i]).is_orphan() by {
            assert(front[i] == blocks[i]);
        }
        lemma_orphans_count(front, k);
        assert(firsts_of(blocks).drop_last() =~= firsts_of(front));
        assert(blocks[blocks.len() - 1].is_orphan());
    } else {
        assert(firsts_of(blocks) =~= Seq::<Tile>::empty());
    }
}

/// Pairs hold their tiles twice.
pub proof fn lemma_pairs_count(blocks: Seq<TileBlock>, k: int)
    requires
        forall|i: int| 0 <= i < blocks.len() ==> (#[trigger] blocks[i]).is_pair(),
    ensures
        blocks_count(blocks, k) == tile_count(doubled_firsts(blocks), k),
    decreases blocks.len(),
{
    if blocks.len() > 0 {
        let front = blocks.drop_last();
        assert forall|i: int| 0 <= i < front.len() implies (#[trigger] front[i]).is_pair() by {
            assert(front[i] == blocks[i]);
        }
        lemma_pairs_count(front, k);
        let d = doubled_firsts(blocks);
        let t = blocks.last().first;
        assert(d =~= doubled_firsts(front).push(t).push(t));
        lemma_count_push(doubled_firsts(front), t, k);
        lemma_count_push(doubled_firsts(front).push(t), t, k);
        assert(blocks[blocks.len() - 1].is_pair());
    } else {
        assert(doubled_firsts(blocks) =~= Seq::<Tile>::empty());
    }
}

/// The tile at `i` has no neighbour in the sorted tiles that it is
/// related to.
pub open spec fn is_isolated(tiles: Seq<Tile>, i: int) -> bool {
    &&& (i == 0 || !tiles[i - 1].is_related_spec(tiles[i]))
    &&& (i == tiles.len() - 1 || !tiles[i].is_related_spec(tiles[i + 1]))
}

/// Some tile of the sorted tiles has no neighbour that it is related
/// to.
pub open spec fn has_isolated(tiles: Seq<Tile>) -> bool {
    exists|i: int| 0 <= i < tiles.len() && is_isolated(tiles, i)
}

/// A kind that occurs at least twice in sorted tiles stands beside
/// itself.
pub proof fn lemma_twice_adjacent(tiles: Seq<Tile>, i: int)
    requires
        sorted_tiles(tiles),
        0 <= i < tiles.len(),
        tile_count(tiles, tiles[i].id as int) >= 2,
    ensures
        (i > 0 && tiles[i - 1] == tiles[i]) || (i + 1 < tiles.len() && tiles[i + 1] == tiles[i]),
{
    let k = tiles[i].id as int;
    if !((i > 0 && tiles[i - 1] == tiles[i]) || (i + 1 < tiles.len() && tiles[i + 1]
        == tiles[i])) {
        let a = tiles.subrange(0, i);
        let b = tiles.subrange(i + 1, tiles.len() as int);
        assert(tiles =~= a + seq![tiles[i]] + b);
        lemma_sum_concat(a + seq![tiles[i]], b, kind_is(k));
        lemma_sum_concat(a, seq![tiles[i]], kind_is(k));
        lemma_sum_one(tiles[i], kind_is(k));
        lemma_count_bounds(a, k);
        lemma_count_bounds(b, k);
        if tile_count(a, k) > 0 {
            let m = choose|m: int| 0 <= m < a.len() && (#[trigger] a[m]).id == k;
            assert(tiles[m].id <= tiles[i - 1].id);
            assert(tiles[i - 1].id <= tiles[i].id);
        }
        if tile_count(b, k) > 0 {
            let m = choose|m: int| 0 <= m < b.len() && (#[trigger] b[m]).id == k;
            assert(b[m] == tiles[i + 1 + m]);
            assert(tiles[i + 1].id <= tiles[i + 1 + m].id);
            assert(tiles[i].id <= tiles[i + 1].id);
        }
    }
}

/// In sorted tiles that can be read as triplets, runs and pairs, every
/// tile has a neighbour that it is related to.
pub proof fn lemma_body_not_isolated(tiles: Seq<Tile>, blocks: Seq<TileBlock>, g: int, p: int)
    requires
        sorted_tiles(tiles),
        all_valid(tiles),
        standard_body(blocks, g, p),
        forall|k: int| 0 <= k < 34 ==> blocks_count(blocks, k) == tile_count(tiles, k),
    ensures
        !has_isolated(tiles),
{
    assert forall|i: int| 0 <= i < tiles.len() implies !is_isolated(tiles, i) by {
        let t = tiles[i];
        let k = t.id as int;
        assert(t.valid());
        lemma_count_bounds(tiles, k);
        let f = holds_of(k);
        assert forall|j: int| 0 <= j < blocks.len() implies f(#[trigger] blocks[j]) >= 0 by {
            lemma_block_counts(blocks[j]);
        }
        let j = lemma_sum_positive(blocks, f);
        let b = blocks[j];
        assert(b.wf());
        lemma_block_counts(b);
        if b.is_sequence() {
            let other: int = if b.first.id == k {
                k + 1
            } else {
                k - 1
            };
            assert(b.count_of(other) == 1);
            lemma_blocks_count_bounds(blocks, other);
            assert(tile_count(tiles, other) >= 1);
            lemma_count_bounds(tiles, other);
            let m = choose|m: int| 0 <= m < tiles.len() && (#[trigger] tiles[m]).id == other;
            if m > i {
                assert(tiles[i].id <= tiles[i + 1].id);
                assert(tiles[i + 1].id <= tiles[m].id);
                assert(tiles[i].is_related_spec(tiles[i + 1]));
            } else {
                assert(tiles[m].id <= tiles[i - 1].id);
                assert(tiles[i - 1].id <= tiles[i].id);
                assert(tiles[i - 1].is_related_spec(tiles[i]));
            }
        } else {
            assert(b.count_of(k) >= 2);
            lemma_blocks_count_bounds(blocks, k);
            lemma_twice_adjacent(tiles, i);
        }
    }
}

/// The tile at `i` is the same as the tile `d` places on.
pub open spec fn like_at(tiles: Seq<Tile>, i: int, d: int) -> bool {
    tiles[i] == tiles[i + d]
}

/// The hand passes the test for thirteen orphans: terminals and
/// honors only, and exactly one tile beside its like.
pub open spec fn is_thirteen_orphans(tiles: Seq<Tile>) -> bool {
    &&& forall|i: int| 0 <= i < tiles.len() ==> (#[trigger] tiles[i]).is_yaochuu()
    &&& exists|i: int|
        0 <= i < tiles.len() - 1 && #[trigger] like_at(tiles, i, 1) && forall|j: int|
            0 <= j < tiles.len() - 1 && j != i ==> !#[trigger] like_at(tiles, j, 1)
}

/// The hand passes the test for seven pairs: every second tile beside
/// its like, and no tile with its like two places on.
pub open spec fn is_seven_pairs(tiles: Seq<Tile>) -> bool {
    &&& tiles.len() % 2 == 0
    &&& forall|i: int| 0 <= i < tiles.len() && i % 2 == 0 ==> #[trigger] like_at(tiles, i, 1)
    &&& forall|i: int| 0 <= i < tiles.len() - 2 ==> !#[trigger] like_at(tiles, i, 2)
}

/// No hand of fourteen tiles passes both the test for thirteen
/// orphans and the test for seven pairs.
pub proof fn lemma_shapes_exclusive(tiles: Seq<Tile>)
    requires
        tiles.len() == 14,
    ensures
        !(is_thirteen_orphans(tiles) && is_seven_pairs(tiles)),
{
    if is_thirteen_orphans(tiles) && is_seven_pairs(tiles) {
        assert(like_at(tiles, 0, 1));
        assert(like_at(tiles, 2, 1));
    }
}

/// Every group is a single tile.
pub open spec fn all_orphans(blocks: Seq<TileBlock>) -> bool {
    forall|i: int| 0 <= i < blocks.len() ==> (#[trigger] blocks[i]).is_orphan()
}

/// Every group is a pair.
pub open spec fn all_pairs(blocks: Seq<TileBlock>) -> bool {
    forall|i: int| 0 <= i < blocks.len() ==> (#[trigger] blocks[i]).is_pair()
}

/// `r` reads the hand as a complete hand: its valid groups, in their
/// order, hold exactly the tiles of the hand, and they are single
/// tiles of a hand of thirteen orphans, pairs of a hand of seven
/// pairs, or four triplets or runs and a pair.
pub open spec fn is_reading_of(hand: FullHand, r: Reading) -> bool {
    &&& r.last_draw == hand.last_draw
    &&& r.wf()
    &&& blocks_sorted(r.blocks)
    &&& fits_tiles(r.blocks, hand.tiles)
    &&& ({
        ||| is_thirteen_orphans(hand.tiles) && all_orphans(r.blocks)
        ||| is_seven_pairs(hand.tiles) && all_pairs(r.blocks)
        ||| standard_body(r.blocks, 4, 1)
    })
}

/// The place of a group in the order of groups, as a number of 64
/// bits.
pub open spec fn code_u64() -> spec_fn(TileBlock) -> u64 {
    |b: TileBlock| b.code() as u64
}

/// The key by which readings are ordered: the places of the groups in
/// the order of groups, then the tile drawn last.
pub open spec fn reading_key(r: Reading) -> Seq<u64> {
    r.blocks.map_values(code_u64()).push(r.last_draw.id as u64)
}

/// `rs` lists the readings of the hand: each of its items is one,
/// every reading is among them, and they stand in rising order of
/// their keys, so none stands twice.
pub open spec fn is_reading_list(hand: FullHand, rs: Seq<Reading>) -> bool {
    &&& forall|i: int| 0 <= i < rs.len() ==> is_reading_of(hand, #[trigger] rs[i])
    &&& forall|r: Reading| #[trigger] is_reading_of(hand, r) ==> holds_reading(rs, r)
    &&& rising(rs)
}

/// What a pattern is.
pub open spec fn pattern_view() -> spec_fn(TilePattern) -> Reading {
    |p: TilePattern| p@
}

/// What the patterns are, one by one.
pub open spec fn readings_of(patterns: Seq<TilePattern>) -> Seq<Reading> {
    patterns.map_values(pattern_view())
}

/// The place of a valid group in the order fits in 64 bits.
pub proof fn lemma_code_bound(b: TileBlock)
    requires
        b.wf(),
    ensures
        0 <= b.code() < 0x100_0000_0000,
        b.code() as u64 == b.code(),
{
}

/// Valid readings with the same key are the same reading.
pub proof fn lemma_key_injective(a: Reading, b: Reading)
    requires
        a.wf(),
        b.wf(),
        reading_key(a) == reading_key(b),
    ensures
        a == b,
{
    let ka = reading_key(a);
    let kb = reading_key(b);
    assert(ka.len() == a.blocks.len() + 1);
    assert(kb.len() == b.blocks.len() + 1);
    assert(ka[a.blocks.len() as int] == a.last_draw.id as u64);
    assert(kb[b.blocks.len() as int] == b.last_draw.id as u64);
    assert forall|i: int| 0 <= i < a.blocks.len() implies a.blocks[i] == b.blocks[i] by {
        assert(ka[i] == a.blocks[i].code() as u64);
        assert(kb[i] == b.blocks[i].code() as u64);
        lemma_code_bound(a.blocks[i]);
        lemma_code_bound(b.blocks[i]);
        lemma_code_injective(a.blocks[i], b.blocks[i]);
    }
    assert(a.blocks =~= b.blocks);
}

/// `x` is among the readings `s`.
pub open spec fn holds_reading(s: Seq<Reading>, x: Reading) -> bool {
    exists|j: int| 0 <= j < s.len() && s[j] == x
}

/// The readings stand in rising order of their keys.
pub open spec fn rising(s: Seq<Reading>) -> bool {
    forall|i: int, j: int|
        0 <= i < j < s.len() ==> lex_lt(reading_key(#[trigger] s[i]), reading_key(#[trigger] s[j]))
}

/// The last of rising readings stands behind every other.
proof fn lemma_last_is_greatest(s: Seq<Reading>, x: Reading)
    requires
        rising(s),
        holds_reading(s, x),
        s.len() > 0,
    ensures
        x == s.last() || lex_lt(reading_key(x), reading_key(s.last())),
        x != s.last() ==> holds_reading(s.drop_last(), x),
{
    let j = choose|j: int| 0 <= j < s.len() && s[j] == x;
    if j < s.len() - 1 {
        assert(lex_lt(reading_key(s[j]), reading_key(s[s.len() - 1])));
        assert(s.drop_last()[j] == x);
    }
}

/// Lists in rising order of their keys that hold the same readings
/// are the same list.
pub proof fn lemma_same_readings(a: Seq<Reading>, b: Seq<Reading>)
    requires
        rising(a),
        rising(b),
        forall|i: int| 0 <= i < a.len() ==> holds_reading(b, #[trigger] a[i]),
        forall|j: int| 0 <= j < b.len() ==> holds_reading(a, #[trigger] b[j]),
    ensures
        a == b,
    decreases a.len(),
{
    if a.len() == 0 {
        if b.len() > 0 {
            assert(holds_reading(a, b[0]));
        }
        assert(a =~= b);
    } else {
        let x = a.last();
        assert(a[a.len() - 1] == x);
        assert(holds_reading(b, x));
        let y = b.last();
        assert(b[b.len() - 1] == y);
        assert(holds_reading(a, y));
        lemma_last_is_greatest(b, x);
        lemma_last_is_greatest(a, y);
        lemma_lex_total(reading_key(x), reading_key(y));
        assert(x == y);
        let a1 = a.drop_last();
        let b1 = b.drop_last();
        lemma_lex_irreflexive(reading_key(x));
        assert forall|i: int| 0 <= i < a1.len() implies holds_reading(b1, #[trigger] a1[i]) by {
            assert(a1[i] == a[i]);
            assert(lex_lt(reading_key(a[i]), reading_key(a[a.len() - 1])));
            assert(holds_reading(b, a[i]));
            lemma_last_is_greatest(b, a[i]);
        }
        assert forall|j: int| 0 <= j < b1.len() implies holds_reading(a1, #[trigger] b1[j]) by {
            assert(b1[j] == b[j]);
            assert(lex_lt(reading_key(b[j]), reading_key(b[b.len() - 1])));
            assert(holds_reading(a, b[j]));
            lemma_last_is_greatest(a, b[j]);
        }
        assert(rising(a1)) by {
            assert forall|i: int, j: int| 0 <= i < j < a1.len() implies lex_lt(
                reading_key(#[trigger] a1[i]),
                reading_key(#[trigger] a1[j]),
            ) by {
                assert(a1[i] == a[i] && a1[j] == a[j]);
            }
        }
        assert(rising(b1)) by {
            assert forall|i: int, j: int| 0 <= i < j < b1.len() implies lex_lt(
                reading_key(#[trigger] b1[i]),
                reading_key(#[trigger] b1[j]),
            ) by {
                assert(b1[i] == b[i] && b1[j] == b[j]);
            }
        }
        lemma_same_readings(a1, b1);
        assert(a =~= a1.push(x));
        assert(b =~= b1.push(y));
    }
}

/// A hand has one list of readings.
pub proof fn lemma_reading_list_unique(hand: FullHand, a: Seq<Reading>, b: Seq<Reading>)
    requires
        is_reading_list(hand, a),
        is_reading_list(hand, b),
    ensures
        a == b,
{
    assert forall|i: int| 0 <= i < a.len() implies holds_reading(b, #[trigger] a[i]) by {
        assert(is_reading_of(hand, a[i]));
    }
    assert forall|j: int| 0 <= j < b.len() implies holds_reading(a, #[trigger] b[j]) by {
        assert(is_reading_of(hand, b[j]));
    }
    lemma_same_readings(a, b);
}

/// Single tiles that hold the sorted tiles of a hand are those tiles
/// one by one.
pub proof fn lemma_orphan_reading(tiles: Seq<Tile>, blocks: Seq<TileBlock>)
    requires
        sorted_tiles(tiles),
        all_valid(tiles),
        all_orphans(blocks),
        forall|i: int| 0 <= i < blocks.len() ==> (#[trigger] blocks[i]).wf(),
        blocks_sorted(blocks),
        fits_tiles(blocks, tiles),
    ensures
        blocks == orphans_of(tiles),
{
    let ts = firsts_of(blocks);
    let r = code_leq();
    assert forall|i: int, j: int| 0 <= i < j < ts.len() implies ts[i].id <= ts[j].id by {
        assert(r(blocks[i], blocks[j]));
        assert(blocks[i].wf() && blocks[j].wf());
        assert(blocks[i].is_orphan() && blocks[j].is_orphan());
    }
    assert forall|k: int| 0 <= k < 256 implies tile_count(ts, k) == tile_count(tiles, k) by {
        lemma_orphans_count(blocks, k);
        if k >= 34 {
            lemma_count_bounds(ts, k);
            lemma_count_bounds(tiles, k);
            if tile_count(ts, k) > 0 {
                let m = choose|m: int| 0 <= m < ts.len() && (#[trigger] ts[m]).id == k;
                assert(blocks[m].wf());
            }
            if tile_count(tiles, k) > 0 {
                let m = choose|m: int| 0 <= m < tiles.len() && (#[trigger] tiles[m]).id == k;
                assert(tiles[m].valid());
            }
        }
    }
    lemma_sorted_unique(ts, tiles);
    assert forall|i: int| 0 <= i < blocks.len() implies blocks[i] == orphans_of(tiles)[i] by {
        assert(blocks[i].wf() && blocks[i].is_orphan());
        assert(ts[i] == blocks[i].first);
    }
    assert(blocks =~= orphans_of(tiles));
}

/// Pairs that hold the sorted tiles of a hand are every second of
/// those tiles.
pub proof fn lemma_pair_reading(tiles: Seq<Tile>, blocks: Seq<TileBlock>)
    requires
        sorted_tiles(tiles),
        all_valid(tiles),
        all_pairs(blocks),
        forall|i: int| 0 <= i < blocks.len() ==> (#[trigger] blocks[i]).wf(),
        blocks_sorted(blocks),
        fits_tiles(blocks, tiles),
    ensures
        blocks == pairs_of(tiles),
{
    let ts = doubled_firsts(blocks);
    let r = code_leq();
    assert forall|i: int, j: int| 0 <= i < j < ts.len() implies ts[i].id <= ts[j].id by {
        let a = i / 2;
        let b = j / 2;
        assert(blocks[a].wf() && blocks[b].wf());
        assert(blocks[a].is_pair() && blocks[b].is_pair());
        if a < b {
            assert(r(blocks[a], blocks[b]));
        }
    }
    assert forall|k: int| 0 <= k < 256 implies tile_count(ts, k) == tile_count(tiles, k) by {
        lemma_pairs_count(blocks, k);
        if k >= 34 {
            lemma_count_bounds(ts, k);
            lemma_count_bounds(tiles, k);
            if tile_count(ts, k) > 0 {
                let m = choose|m: int| 0 <= m < ts.len() && (#[trigger] ts[m]).id == k;
                assert(blocks[m / 2].wf());
            }
            if tile_count(tiles, k) > 0 {
                let m = choose|m: int| 0 <= m < tiles.len() && (#[trigger] tiles[m]).id == k;
                assert(tiles[m].valid());
            }
        }
    }
    lemma_sorted_unique(ts, tiles);
    assert forall|i: int| 0 <= i < blocks.len() implies blocks[i] == pairs_of(tiles)[i] by {
        assert(blocks[i].wf() && blocks[i].is_pair());
        assert(ts[2 * i] == blocks[(2 * i) / 2].first);
    }
    assert(blocks =~= pairs_of(tiles));
}

/// The tile drawn last is a valid tile.
pub proof fn lemma_last_valid(hand: FullHand)
    requires
        hand.wf(),
    ensures
        hand.last_draw.valid(),
{
    let i = choose|i: int| 0 <= i < hand.tiles.len() && hand.tiles[i] == hand.last_draw;
    assert(hand.tiles[i].valid());
}

/// A hand of thirteen orphans reads as its tiles one by one.
pub proof fn lemma_orphans_read(hand: FullHand)
    requires
        hand.wf(),
        is_thirteen_orphans(hand.tiles),
    ensures
        is_reading_of(hand, Reading { blocks: orphans_of(hand.tiles), last_draw: hand.last_draw }),
{
    let tiles = hand.tiles;
    let b = orphans_of(tiles);
    lemma_last_valid(hand);
    assert(firsts_of(b) =~= tiles);
    assert forall|k: int| 0 <= k < 34 implies blocks_count(b, k) == tile_count(tiles, k) by {
        lemma_orphans_count(b, k);
    }
    let r = code_leq();
    assert forall|x: int, y: int| 0 <= x < y < b.len() implies #[trigger] r(b[x], b[y]) by {
        assert(tiles[x].id <= tiles[y].id);
    }
    assert forall|i: int| 0 <= i < b.len() implies (#[trigger] b[i]).wf() by {
        assert(tiles[i].valid());
    }
}

/// A hand of seven pairs reads as its pairs.
pub proof fn lemma_pairs_read(hand: FullHand)
    requires
        hand.wf(),
        is_seven_pairs(hand.tiles),
    ensures
        is_reading_of(hand, Reading { blocks: pairs_of(hand.tiles), last_draw: hand.last_draw }),
{
    let tiles = hand.tiles;
    let b = pairs_of(tiles);
    lemma_last_valid(hand);
    assert(b.len() == 7);
    let d = doubled_firsts(b);
    assert(d.len() == 14);
    assert forall|i: int| 0 <= i < 14 implies d[i] == tiles[i] by {
        let h = i / 2;
        assert(d[i] == b[h].first);
        assert(b[h].first == tiles[2 * h]);
        assert(like_at(tiles, 2 * h, 1));
    }
    assert(d =~= tiles);
    assert forall|k: int| 0 <= k < 34 implies blocks_count(b, k) == tile_count(tiles, k) by {
        lemma_pairs_count(b, k);
    }
    assert(fits_tiles(b, tiles));
    let r = code_leq();
    assert forall|x: int, y: int| 0 <= x < y < b.len() implies #[trigger] r(b[x], b[y]) by {
        assert(b[x].first == tiles[2 * x]);
        assert(b[y].first == tiles[2 * y]);
        assert(tiles[2 * x].id <= tiles[2 * y].id);
    }
    assert(blocks_sorted(b));
    assert forall|i: int| 0 <= i < b.len() implies (#[trigger] b[i]).wf() && b[i].is_pair() by {
        assert(b[i].first == tiles[2 * i]);
        assert(tiles[2 * i].valid());
    }
}

/// A list of the readings of a hand is the list of its readings.
pub proof fn lemma_reading_exists(hand: FullHand, rs: Seq<Reading>)
    requires
        is_reading_list(hand, rs),
    ensures
        is_reading_list(hand, hand.readings()),
{
}

/// The keys and the patterns list readings of the hand, pattern by
/// pattern in rising order of the keys.
pub open spec fn listed(hand: FullHand, keys: Seq<Vec<u64>>, items: Seq<TilePattern>) -> bool {
    &&& keys.len() == items.len()
    &&& strictly_sorted(keys)
    &&& forall|i: int|
        0 <= i < items.len() ==> (#[trigger] keys[i])@ == reading_key(items[i]@) && is_reading_of(
            hand,
            items[i]@,
        )
}

/// The values of the readings, one by one.
pub open spec fn yakus_of() -> spec_fn(Reading) -> Seq<Yaku> {
    |r: Reading| r.yakus_spec()
}

/// The last of the lists that no other list is worth more than.
pub open spec fn last_best(lists: Seq<Seq<Yaku>>) -> Seq<Yaku>
    decreases lists.len(),
{
    if lists.len() == 0 {
        Seq::empty()
    } else if lists.len() == 1 {
        lists[0]
    } else {
        let before = last_best(lists.drop_last());
        if han_lt(han_sum(lists.last()), han_sum(before)) {
            before
        } else {
            lists.last()
        }
    }
}

/// What the best of the readings earns, or nothing where there is no
/// reading. A reading that earns no category still makes the hand
/// complete.
pub open spec fn best_yakus(rs: Seq<Reading>) -> Option<Seq<Yaku>> {
    if rs.len() == 0 {
        None
    } else {
        Some(last_best(rs.map_values(yakus_of()).push(Seq::empty())))
    }
}

impl FullHand {
    /// The readings of the hand as a complete hand, in rising order.
    pub open spec fn readings(self) -> Seq<Reading> {
        choose|rs: Seq<Reading>| is_reading_list(self, rs)
    }

    /// The categories that the hand earns, or nothing for a hand that
    /// is not complete.
    pub open spec fn score(self) -> Option<Seq<Yaku>> {
        best_yakus(self.readings())
    }

    /// The hand is complete.
    pub open spec fn is_complete(self) -> bool {
        self.score().is_some()
    }
}

/// A hand that is built of four triplets or runs and a pair is read
/// as it was built: the list of its readings holds these groups, in
/// their order.
pub proof fn lemma_groups_are_read(hand: FullHand, groups: Seq<TileBlock>, rs: Seq<Reading>)
    requires
        hand.wf(),
        standard_body(groups, 4, 1),
        fits_tiles(groups, hand.tiles),
        is_reading_list(hand, rs),
    ensures
        holds_reading(
            rs,
            Reading { blocks: groups.sort_by(code_leq()), last_draw: hand.last_draw },
        ),
        groups.sort_by(code_leq()).to_multiset() == groups.to_multiset(),
        blocks_sorted(groups.sort_by(code_leq())),
{
    let sorted = groups.sort_by(code_leq());
    lemma_code_order();
    groups.lemma_sort_by_ensures(code_leq());
    assert forall|i: int| 0 <= i < sorted.len() implies groups.contains(#[trigger] sorted[i]) by {
        assert(sorted.contains(sorted[i]));
    }
    lemma_body_permutation(groups, sorted, 4, 1, hand.tiles);
    lemma_last_valid(hand);
    let r = Reading { blocks: sorted, last_draw: hand.last_draw };
    assert(is_reading_of(hand, r));
}

} // verus!
