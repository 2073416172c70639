//! A hand of fourteen tiles: its readings as a complete hand, and what
//! the best of them is worth.

use crate::counting::count_by;
use crate::groups::{
    can_take, code_leq, counts_minus, fits, fits_tiles, give_block, lemma_block_counts,
    lemma_body_len, lemma_body_permutation, lemma_body_push, lemma_code_order, lemma_fits_counts,
    lemma_fits_push, lemma_fits_tiles, lemma_lowest_block, lemma_sorted_blocks_unique,
    lemma_tiles_in, lowest_kind, sort_blocks, standard_body, take_block,
};
use crate::hand::{
    count_related, count_tiles, counts_match, has_tile, holds_tile, lemma_remove_at,
    lemma_total_is_zero, related_to, remove_tile, total, valid_in_order, HandError,
};
use crate::lex::{insert_sorted, lex_lt};
use crate::reading::{
    all_orphans, all_pairs, code_u64, has_isolated, holds_reading, is_isolated, is_reading_list,
    is_reading_of, is_seven_pairs, is_thirteen_orphans, last_best, lemma_body_not_isolated,
    lemma_key_injective, lemma_last_valid, lemma_orphan_reading, lemma_orphans_read,
    lemma_pair_reading, lemma_pairs_read, lemma_reading_exists, lemma_reading_list_unique, like_at,
    listed, orphans_of, pairs_of, reading_key, readings_of, rising, yakus_of, FullHand,
};
use crate::ready_set::ReadyTileSet;
use crate::tile::Tile;
use crate::tile_block::{BlockType, TileBlock};
use crate::tile_pattern::{Reading, TilePattern};
use crate::yaku::{han_sum, Han, Yaku};
use vstd::prelude::*;

verus! {

/// Thirteen tiles and the tile drawn to them, in the canonical order.
#[derive(Debug, Clone, PartialEq, Eq)]
pub struct FullTileSet {
    pub tiles: Vec<Tile>,
    pub last_draw: Tile,
}

impl View for FullTileSet {
    type V = FullHand;

    open spec fn view(&self) -> FullHand {
        FullHand { tiles: self.tiles@, last_draw: self.last_draw }
    }
}

impl FullTileSet {
    /// Whether the hand is fourteen valid tiles in order, the tile
    /// drawn last among them.
    pub fn is_wf(&self) -> (r: bool)
        ensures
            r == self@.wf(),
    {
        self.tiles.len() == 14 && valid_in_order(&self.tiles) && holds_tile(
            &self.tiles,
            self.last_draw,
        )
    }

    /// Every way to take `group_left` triplets or runs and `pair_left`
    /// pairs out of the counted tiles so that none is left.
    ///
    /// The search goes by the lowest kind that is left: it is the
    /// tile of a triplet, the lowest tile of a run, or the tile of a
    /// pair. Every way is found, some more than once and in another
    /// order of its groups. The counts are as they were when the
    /// search returns.
    pub fn find_common_patterns(counts: &mut Vec<u8>, group_left: u8, pair_left: u8) -> (r: Vec<
        Vec<TileBlock>,
    >)
        requires
            old(counts)@.len() == 34,
            total(old(counts)@) == 3 * group_left + 2 * pair_left,
        ensures
            final(counts)@ == old(counts)@,
            forall|i: int|
                0 <= i < r@.len() ==> standard_body(
                    (#[trigger] r@[i])@,
                    group_left as int,
                    pair_left as int,
                ) && fits(r@[i]@, old(counts)@),
            forall|b: Seq<TileBlock>| #[trigger]
                standard_body(b, group_left as int, pair_left as int) && fits(b, old(counts)@)
                    ==> exists|i: int|
                    0 <= i < r@.len() && (#[trigger] r@[i])@.to_multiset() == b.to_multiset(),
        decreases group_left + pair_left, 1int,
    {
        let mut ret: Vec<Vec<TileBlock>> = Vec::new();
        let ghost whole = counts@;
        let ghost g = group_left as int;
        let ghost p = pair_left as int;
        if group_left == 0 && pair_left == 0 {
            let empty: Vec<TileBlock> = Vec::new();
            ret.push(empty);
            proof {
                lemma_total_is_zero(whole);
                assert(ret@[0]@ =~= Seq::<TileBlock>::empty());
                assert(standard_body(ret@[0]@, 0, 0));
                assert(fits(ret@[0]@, whole));
                assert forall|b: Seq<TileBlock>| #[trigger]
                    standard_body(b, g, p) && fits(b, whole) implies exists|i: int|
                    0 <= i < ret@.len() && (#[trigger] ret@[i])@.to_multiset()
                        == b.to_multiset() by {
                    lemma_body_len(b, 0, 0);
                    assert(b =~= ret@[0]@);
                }
            }
            return ret;
        }
        let k: usize = lowest_kind(counts);
        let tile = Tile { id: k as u8 };
        let triplet = TileBlock { block_type: BlockType::Triplet, first: tile, second: tile };
        let run = TileBlock { block_type: BlockType::Sequence, first: tile, second: tile };
        let pair = TileBlock { block_type: BlockType::Pair, first: tile, second: tile };
        let took_triplet = group_left > 0 && counts[k] >= 3;
        if took_triplet {
            Self::extend_with(counts, triplet, group_left - 1, pair_left, &mut ret);
        }
        let ghost after_triplet = ret@;
        let took_run = group_left > 0 && k < 27 && k % 9 <= 6 && counts[k + 1] > 0 && counts[k
            + 2] > 0;
        if took_run {
            Self::extend_with(counts, run, group_left - 1, pair_left, &mut ret);
        }
        let ghost after_run = ret@;
        let took_pair = pair_left > 0 && counts[k] >= 2;
        if took_pair {
            Self::extend_with(counts, pair, group_left, pair_left - 1, &mut ret);
        }
        proof {
            assert forall|b: Seq<TileBlock>| #[trigger]
                standard_body(b, g, p) && fits(b, whole) implies exists|i: int|
                0 <= i < ret@.len() && (#[trigger] ret@[i])@.to_multiset() == b.to_multiset() by {
                let i = lemma_lowest_block(b, whole, g, p, k as int);
                let rest = b.remove(i);
                lemma_block_counts(b[i]);
                if b[i].is_triplet() {
                    assert(b[i] == triplet);
                    assert(b[i].count_of(k as int) == 3);
                    lemma_body_len(rest, g - 1, p);
                    assert(took_triplet);
                    assert(standard_body(rest, g - 1, p));
                    let j = choose|j: int|
                        0 <= j < after_triplet.len() && (#[trigger] after_triplet[j])@.to_multiset()
                            == rest.to_multiset().insert(triplet);
                    assert(ret@[j] == after_triplet[j]);
                } else if b[i].is_sequence() {
                    assert(b[i] == run);
                    assert(b[i].count_of(k + 1) == 1);
                    assert(b[i].count_of(k + 2) == 1);
                    lemma_body_len(rest, g - 1, p);
                    assert(took_run);
                    assert(standard_body(rest, g - 1, p));
                    let j = choose|j: int|
                        after_triplet.len() <= j < after_run.len() && (
                        #[trigger] after_run[j])@.to_multiset() == rest.to_multiset().insert(run);
                    assert(ret@[j] == after_run[j]);
                } else {
                    assert(b[i] == pair);
                    assert(b[i].count_of(k as int) == 2);
                    lemma_body_len(rest, g, p - 1);
                    assert(took_pair);
                    assert(standard_body(rest, g, p - 1));
                    let j = choose|j: int|
                        after_run.len() <= j < ret@.len() && (#[trigger] ret@[j])@.to_multiset()
                            == rest.to_multiset().insert(pair);
                }
            }
            assert forall|i: int| 0 <= i < ret@.len() implies standard_body(
                (#[trigger] ret@[i])@,
                g,
                p,
            ) && fits(ret@[i]@, whole) by {
                if i < after_triplet.len() {
                    assert(ret@[i] == after_triplet[i]);
                } else if i < after_run.len() {
                    assert(ret@[i] == after_run[i]);
                }
            }
        }
        ret
    }

    /// Takes the group from the counts, searches what is left, and
    /// adds every way found, with the group at its end, to `ret`.
    fn extend_with(
        counts: &mut Vec<u8>,
        block: TileBlock,
        group_left: u8,
        pair_left: u8,
        ret: &mut Vec<Vec<TileBlock>>,
    )
        requires
            old(counts)@.len() == 34,
            block.wf(),
            block.is_group() || block.is_pair(),
            can_take(old(counts)@, block),
            total(old(counts)@) == 3 * group_left + 2 * pair_left + block.len_spec(),
        ensures
            final(counts)@ == old(counts)@,
            final(ret)@.len() >= old(ret)@.len(),
            forall|i: int| 0 <= i < old(ret)@.len() ==> final(ret)@[i] == old(ret)@[i],
            forall|i: int|
                old(ret)@.len() <= i < final(ret)@.len() ==> standard_body(
                    (#[trigger] final(ret)@[i])@,
                    if block.is_group() {
                        group_left + 1
                    } else {
                        group_left as int
                    },
                    if block.is_pair() {
                        pair_left + 1
                    } else {
                        pair_left as int
                    },
                ) && fits(final(ret)@[i]@, old(counts)@),
            forall|b: Seq<TileBlock>| #[trigger]
                standard_body(b, group_left as int, pair_left as int) && fits(
                    b,
                    counts_minus(old(counts)@, block),
                ) ==> exists|i: int|
                    old(ret)@.len() <= i < final(ret)@.len() && (
                    #[trigger] final(ret)@[i])@.to_multiset() == b.to_multiset().insert(block),
        decreases group_left + pair_left, 2int,
    {
        broadcast use vstd::seq_lib::group_to_multiset_ensures;

        let ghost whole = counts@;
        let ghost g = group_left as int;
        let ghost p = pair_left as int;
        take_block(counts, &block);
        let ghost left = counts@;
        let mut rec = Self::find_common_patterns(counts, group_left, pair_left);
        give_block(counts, &block, Ghost(whole));
        let ghost found = rec@;
        let ghost base = ret@;
        let n: usize = rec.len();
        let mut j: usize = 0;
        while j < n
            invariant
                j <= n,
                n == found.len(),
                rec@ == found.subrange(j as int, n as int),
                ret@.len() == base.len() + j,
                forall|i: int| 0 <= i < base.len() ==> ret@[i] == base[i],
                forall|m: int| 0 <= m < j ==> (#[trigger] ret@[base.len() + m])@ == found[m]@.push(
                    block,
                ),
            decreases n - j,
        {
            let mut v = rec.remove(0);
            assert(v == found[j as int]);
            v.push(block);
            ret.push(v);
            assert(rec@ =~= found.subrange(j + 1, n as int));
            j += 1;
        }
        proof {
            assert forall|i: int| base.len() <= i < ret@.len() implies standard_body(
                (#[trigger] ret@[i])@,
                if block.is_group() {
                    g + 1
                } else {
                    g
                },
                if block.is_pair() {
                    p + 1
                } else {
                    p
                },
            ) && fits(ret@[i]@, whole) by {
                let m = i - base.len();
                assert(ret@[base.len() + m]@ == found[m]@.push(block));
                assert(standard_body(found[m]@, g, p) && fits(found[m]@, left));
                lemma_body_push(found[m]@, g, p, block);
                lemma_fits_push(found[m]@, whole, block);
            }
            assert forall|b: Seq<TileBlock>| #[trigger]
                standard_body(b, g, p) && fits(b, left) implies exists|i: int|
                base.len() <= i < ret@.len() && (#[trigger] ret@[i])@.to_multiset()
                    == b.to_multiset().insert(block) by {
                let m = choose|m: int|
                    0 <= m < found.len() && (#[trigger] found[m])@.to_multiset() == b.to_multiset();
                assert(ret@[base.len() + m]@ == found[m]@.push(block));
                assert(found[m]@.push(block).to_multiset() =~= found[m]@.to_multiset().insert(
                    block,
                ));
            }
        }
    }
}

/// The key by which the pattern is ordered.
pub fn pattern_key(p: &TilePattern) -> (r: Vec<u64>)
    requires
        p@.wf(),
    ensures
        r@ == reading_key(p@),
{
    let mut key: Vec<u64> = Vec::new();
    let mut i: usize = 0;
    while i < p.pattern.len()
        invariant
            i <= p.pattern@.len(),
            p@.wf(),
            key@ == p.pattern@.subrange(0, i as int).map_values(code_u64()),
        decreases p.pattern@.len() - i,
    {
        let b = &p.pattern[i];
        assert(p@.blocks[i as int].wf());
        let k: u64 = b.order_key();
        key.push(k);
        i += 1;
        assert(key@ =~= p.pattern@.subrange(0, i as int).map_values(code_u64()));
    }
    assert(p.pattern@.subrange(0, i as int) =~= p.pattern@);
    key.push(p.last_draw.id as u64);
    key
}

/// Each tile as a group of its own.
pub fn orphan_blocks(tiles: &Vec<Tile>) -> (r: Vec<TileBlock>)
    ensures
        r@ == orphans_of(tiles@),
{
    let mut v: Vec<TileBlock> = Vec::new();
    let mut i: usize = 0;
    while i < tiles.len()
        invariant
            i <= tiles@.len(),
            v@ == orphans_of(tiles@.subrange(0, i as int)),
        decreases tiles@.len() - i,
    {
        v.push(TileBlock { block_type: BlockType::Orphan, first: tiles[i], second: tiles[i] });
        i += 1;
        assert(v@ =~= orphans_of(tiles@.subrange(0, i as int)));
    }
    assert(tiles@.subrange(0, i as int) =~= tiles@);
    v
}

/// Every second tile as a pair.
pub fn pair_blocks(tiles: &Vec<Tile>) -> (r: Vec<TileBlock>)
    ensures
        r@ == pairs_of(tiles@),
{
    let mut v: Vec<TileBlock> = Vec::new();
    let len: usize = tiles.len();
    let n: usize = len / 2;
    let mut i: usize = 0;
    while i < n
        invariant
            i <= n,
            len == tiles@.len(),
            n == len / 2,
            v@.len() == i,
            forall|m: int| 0 <= m < i ==> v@[m] == pairs_of(tiles@)[m],
        decreases n - i,
    {
        assert(2 * i + 1 < tiles@.len());
        let t = tiles[2 * i];
        v.push(TileBlock { block_type: BlockType::Pair, first: t, second: t });
        i += 1;
    }
    assert(v@ =~= pairs_of(tiles@));
    v
}

impl FullTileSet {
    /// Whether the hand passes the test for thirteen orphans.
    pub fn thirteen_orphans(&self) -> (r: bool)
        requires
            self@.wf(),
        ensures
            r == is_thirteen_orphans(self@.tiles),
    {
        let mut i: usize = 0;
        while i < 14
            invariant
                i <= 14,
                self@.tiles.len() == 14,
                forall|j: int| 0 <= j < i ==> (#[trigger] self@.tiles[j]).is_yaochuu(),
            decreases 14 - i,
        {
            if !(self.tiles[i].is_terminal() || self.tiles[i].is_honor()) {
                assert(!self@.tiles[i as int].is_yaochuu());
                return false;
            }
            i += 1;
        }
        let mut found: usize = 14;
        let mut i: usize = 0;
        while i < 13
            invariant
                i <= 13,
                self@.tiles.len() == 14,
                found == 14 || found < i,
                found == 14 ==> forall|j: int|
                    0 <= j < i ==> !#[trigger] like_at(self@.tiles, j, 1),
                found < 14 ==> like_at(self@.tiles, found as int, 1) && forall|j: int|
                    0 <= j < i && j != found ==> !#[trigger] like_at(self@.tiles, j, 1),
            decreases 13 - i,
        {
            if self.tiles[i] == self.tiles[i + 1] {
                assert(like_at(self@.tiles, i as int, 1));
                if found != 14 {
                    return false;
                }
                found = i;
            } else {
                assert(!like_at(self@.tiles, i as int, 1));
            }
            i += 1;
        }
        found != 14
    }

    /// Whether the hand passes the test for seven pairs.
    pub fn seven_pairs(&self) -> (r: bool)
        requires
            self@.wf(),
        ensures
            r == is_seven_pairs(self@.tiles),
    {
        let mut i: usize = 0;
        while i < 14
            invariant
                i <= 14,
                i % 2 == 0,
                self@.tiles.len() == 14,
                forall|j: int| 0 <= j < i && j % 2 == 0 ==> #[trigger] like_at(self@.tiles, j, 1),
            decreases 14 - i,
        {
            if self.tiles[i] != self.tiles[i + 1] {
                assert(!like_at(self@.tiles, i as int, 1));
                return false;
            }
            assert(like_at(self@.tiles, i as int, 1));
            i += 2;
        }
        let mut i: usize = 0;
        while i < 12
            invariant
                i <= 12,
                self@.tiles.len() == 14,
                forall|j: int| 0 <= j < i ==> !#[trigger] like_at(self@.tiles, j, 2),
            decreases 12 - i,
        {
            if self.tiles[i] == self.tiles[i + 2] {
                assert(like_at(self@.tiles, i as int, 2));
                return false;
            }
            assert(!like_at(self@.tiles, i as int, 2));
            i += 1;
        }
        true
    }

    /// Whether some tile of the hand has no neighbour that it is
    /// related to. Such a hand cannot be read as triplets, runs and
    /// pairs.
    pub fn has_isolated_tile(&self) -> (r: bool)
        requires
            self@.wf(),
        ensures
            r == has_isolated(self@.tiles),
            r ==> forall|blocks: Seq<TileBlock>| #[trigger]
                standard_body(blocks, 4, 1) ==> !fits_tiles(blocks, self@.tiles),
    {
        let mut i: usize = 0;
        while i < 14
            invariant
                i <= 14,
                self@.wf(),
                forall|j: int| 0 <= j < i ==> !is_isolated(self@.tiles, j),
            decreases 14 - i,
        {
            let left = i == 0 || !self.tiles[i - 1].is_related(self.tiles[i]);
            let right = i == 13 || !self.tiles[i].is_related(self.tiles[i + 1]);
            if left && right {
                proof {
                    assert(is_isolated(self@.tiles, i as int));
                    assert forall|blocks: Seq<TileBlock>| #[trigger]
                        standard_body(blocks, 4, 1) implies !fits_tiles(blocks, self@.tiles) by {
                        if fits_tiles(blocks, self@.tiles) {
                            lemma_body_not_isolated(self@.tiles, blocks, 4, 1);
                        }
                    }
                }
                return true;
            }
            i += 1;
        }
        false
    }

    /// Puts a reading of the hand into the list of its readings,
    /// unless it is there.
    fn add_reading(
        &self,
        keys: &mut Vec<Vec<u64>>,
        items: &mut Vec<TilePattern>,
        blocks: Vec<TileBlock>,
    )
        requires
            self@.wf(),
            listed(self@, old(keys)@, old(items)@),
            is_reading_of(self@, Reading { blocks: blocks@, last_draw: self.last_draw }),
        ensures
            listed(self@, final(keys)@, final(items)@),
            forall|r: Reading|
                holds_reading(readings_of(old(items)@), r) ==> #[trigger] holds_reading(
                    readings_of(final(items)@),
                    r,
                ),
            holds_reading(
                readings_of(final(items)@),
                Reading { blocks: blocks@, last_draw: self.last_draw },
            ),
    {
        let ghost reading = Reading { blocks: blocks@, last_draw: self.last_draw };
        proof {
            lemma_tiles_in(blocks@);
            if is_thirteen_orphans(self@.tiles) && all_orphans(blocks@) {
                lemma_orphan_reading(self@.tiles, blocks@);
            } else if is_seven_pairs(self@.tiles) && all_pairs(blocks@) {
                lemma_pair_reading(self@.tiles, blocks@);
            } else {
                lemma_body_len(blocks@, 4, 1);
                assert(standard_body(blocks@, 4, 1));
            }
        }
        let pattern = TilePattern::new(blocks, self.last_draw);
        let key = pattern_key(&pattern);
        let ghost old_items = items@;
        let ghost old_keys = keys@;
        let (pos, inserted) = insert_sorted(keys, items, key, pattern);
        proof {
            let before = readings_of(old_items);
            let after = readings_of(items@);
            if inserted {
                assert forall|i: int| 0 <= i < items@.len() implies (#[trigger] keys@[i])@
                    == reading_key(items@[i]@) && is_reading_of(self@, items@[i]@) by {
                    if i < pos {
                        assert(keys@[i] == old_keys[i]);
                        assert(items@[i] == old_items[i]);
                    } else if i > pos {
                        assert(keys@[i] == old_keys[i - 1]);
                        assert(items@[i] == old_items[i - 1]);
                    }
                }
                assert forall|r: Reading| holds_reading(before, r) implies #[trigger] holds_reading(
                    after,
                    r,
                ) by {
                    let j = choose|j: int| 0 <= j < before.len() && before[j] == r;
                    if j < pos {
                        assert(after[j] == r);
                    } else {
                        assert(items@[j + 1] == old_items[j]);
                        assert(after[j + 1] == r);
                    }
                }
                assert(after[pos as int] == reading);
            } else {
                assert(old_keys[pos as int]@ == reading_key(old_items[pos as int]@));
                lemma_key_injective(old_items[pos as int]@, reading);
                assert(after[pos as int] == reading);
            }
        }
    }

    /// Searches the readings of the hand in triplets, runs and a
    /// pair, and puts each into the list of its readings.
    fn add_standard_readings(&self, keys: &mut Vec<Vec<u64>>, items: &mut Vec<TilePattern>)
        requires
            self@.wf(),
            listed(self@, old(keys)@, old(items)@),
        ensures
            listed(self@, final(keys)@, final(items)@),
            forall|r: Reading|
                holds_reading(readings_of(old(items)@), r) ==> #[trigger] holds_reading(
                    readings_of(final(items)@),
                    r,
                ),
            forall|r: Reading| #[trigger]
                is_reading_of(self@, r) && standard_body(r.blocks, 4, 1) ==> holds_reading(
                    readings_of(final(items)@),
                    r,
                ),
    {
        let ghost hand = self@;
        let ghost tiles = self@.tiles;
        let ghost last = self.last_draw;
        let ghost given_items = items@;
        if self.has_isolated_tile() {
            return ;
        }
        let mut counts = count_tiles(&self.tiles);
        let found = Self::find_common_patterns(&mut counts, 4, 1);
        let mut j: usize = 0;
        while j < found.len()
            invariant
                j <= found@.len(),
                self@ == hand,
                hand.wf(),
                hand.tiles == tiles,
                hand.last_draw == last,
                counts_match(counts@, tiles),
                listed(hand, keys@, items@),
                forall|r: Reading|
                    holds_reading(readings_of(given_items), r) ==> #[trigger] holds_reading(
                        readings_of(items@),
                        r,
                    ),
                forall|i: int|
                    0 <= i < found@.len() ==> standard_body((#[trigger] found@[i])@, 4, 1) && fits(
                        found@[i]@,
                        counts@,
                    ),
                forall|m: int|
                    0 <= m < j ==> holds_reading(
                        readings_of(items@),
                        Reading {
                            blocks: (#[trigger] found@[m])@.sort_by(code_leq()),
                            last_draw: last,
                        },
                    ),
            decreases found@.len() - j,
        {
            let ghost given = found@[j as int]@;
            assert(standard_body(given, 4, 1) && fits(given, counts@));
            let sorted = sort_blocks(&found[j]);
            proof {
                lemma_code_order();
                given.lemma_sort_by_ensures(code_leq());
                lemma_sorted_blocks_unique(sorted@, given.sort_by(code_leq()));
                lemma_fits_tiles(given, counts@, tiles);
                lemma_body_permutation(given, sorted@, 4, 1, tiles);
                lemma_last_valid(hand);
            }
            let ghost before = readings_of(items@);
            self.add_reading(keys, items, sorted);
            proof {
                assert forall|m: int| 0 <= m < j + 1 implies holds_reading(
                    readings_of(items@),
                    Reading {
                        blocks: (#[trigger] found@[m])@.sort_by(code_leq()),
                        last_draw: last,
                    },
                ) by {
                    if m < j {
                        assert(holds_reading(
                            before,
                            Reading { blocks: found@[m]@.sort_by(code_leq()), last_draw: last },
                        ));
                    }
                }
                assert forall|r: Reading|
                    holds_reading(readings_of(given_items), r) implies #[trigger] holds_reading(
                    readings_of(items@),
                    r,
                ) by {
                    assert(holds_reading(before, r));
                }
            }
            j += 1;
        }
        proof {
            assert forall|r: Reading| #[trigger]
                is_reading_of(hand, r) && standard_body(r.blocks, 4, 1) implies holds_reading(
                readings_of(items@),
                r,
            ) by {
                lemma_fits_counts(r.blocks, counts@, tiles);
                let m = choose|m: int|
                    0 <= m < found@.len() && (#[trigger] found@[m])@.to_multiset()
                        == r.blocks.to_multiset();
                lemma_code_order();
                found@[m]@.lemma_sort_by_ensures(code_leq());
                lemma_sorted_blocks_unique(found@[m]@.sort_by(code_leq()), r.blocks);
                assert(r == Reading { blocks: found@[m]@.sort_by(code_leq()), last_draw: last });
            }
        }
    }

    /// The readings of the hand as a complete hand: none for a hand
    /// that is not complete, each once, in rising order.
    ///
    /// A hand of thirteen orphans reads as fourteen single tiles and
    /// a hand of seven pairs as its pairs. The readings in triplets,
    /// runs and a pair are searched for, unless a tile without a
    /// related neighbour shows at once that there is none.
    pub fn patterns(&self) -> (r: Vec<TilePattern>)
        requires
            self@.wf(),
        ensures
            is_reading_list(self@, readings_of(r@)),
            readings_of(r@) == self@.readings(),
    {
        let mut keys: Vec<Vec<u64>> = Vec::new();
        let mut items: Vec<TilePattern> = Vec::new();
        let ghost hand = self@;
        let ghost tiles = self@.tiles;
        let ghost last = self.last_draw;
        if self.thirteen_orphans() {
            let blocks = orphan_blocks(&self.tiles);
            proof {
                lemma_orphans_read(hand);
            }
            self.add_reading(&mut keys, &mut items, blocks);
        }
        let ghost first_items = items@;
        if self.seven_pairs() {
            let blocks = pair_blocks(&self.tiles);
            proof {
                lemma_pairs_read(hand);
            }
            self.add_reading(&mut keys, &mut items, blocks);
        }
        let ghost second_items = items@;
        self.add_standard_readings(&mut keys, &mut items);
        proof {
            let rs = readings_of(items@);
            assert forall|i: int| 0 <= i < rs.len() implies is_reading_of(hand, #[trigger] rs[i]) by {
                assert(keys@[i]@ == reading_key(items@[i]@));
            }
            assert(rising(rs)) by {
                assert forall|i: int, j: int| 0 <= i < j < rs.len() implies lex_lt(
                    reading_key(#[trigger] rs[i]),
                    reading_key(#[trigger] rs[j]),
                ) by {
                    assert(keys@[i]@ == reading_key(items@[i]@));
                    assert(keys@[j]@ == reading_key(items@[j]@));
                }
            }
            assert forall|r: Reading| #[trigger] is_reading_of(hand, r) implies holds_reading(
                rs,
                r,
            ) by {
                if is_thirteen_orphans(tiles) && all_orphans(r.blocks) {
                    lemma_orphan_reading(tiles, r.blocks);
                    let k = Reading { blocks: orphans_of(tiles), last_draw: last };
                    assert(r == k);
                    assert(holds_reading(readings_of(first_items), k));
                    assert(holds_reading(readings_of(second_items), k));
                } else if is_seven_pairs(tiles) && all_pairs(r.blocks) {
                    lemma_pair_reading(tiles, r.blocks);
                    let k = Reading { blocks: pairs_of(tiles), last_draw: last };
                    assert(r == k);
                    assert(holds_reading(readings_of(second_items), k));
                } else {
                    assert(standard_body(r.blocks, 4, 1));
                }
            }
            assert(is_reading_list(hand, rs));
            lemma_reading_exists(hand, rs);
            lemma_reading_list_unique(hand, rs, hand.readings());
        }
        items
    }

    /// The categories that the hand earns: those of the reading that
    /// is worth most, of the last such where several are; no category
    /// for a complete hand that earns none; nothing for a hand that is
    /// not complete.
    pub fn yakus(&self) -> (r: Option<Vec<Yaku>>)
        requires
            self@.wf(),
        ensures
            match r {
                Some(v) => self@.score() == Some(v@),
                None => self@.score().is_none(),
            },
            is_reading_list(self@, self@.readings()),
    {
        let patterns = self.patterns();
        let n: usize = patterns.len();
        if n == 0 {
            return None;
        }
        let ghost rs = readings_of(patterns@);
        let ghost lists = rs.map_values(yakus_of()).push(Seq::<Yaku>::empty());
        let mut best: Vec<Yaku> = patterns[0].yakus();
        let mut best_han = Han::total(&best);
        assert(lists.subrange(0, 1)[0] == best@);
        let mut i: usize = 1;
        while i < n
            invariant
                1 <= i <= n,
                n == patterns@.len(),
                rs == readings_of(patterns@),
                lists == rs.map_values(yakus_of()).push(Seq::<Yaku>::empty()),
                best@ == last_best(lists.subrange(0, i as int)),
                best_han == han_sum(best@),
            decreases n - i,
        {
            let yakus = patterns[i].yakus();
            let han = Han::total(&yakus);
            proof {
                let upto = lists.subrange(0, i + 1);
                assert(upto.drop_last() =~= lists.subrange(0, i as int));
                assert(upto.last() == yakus@);
            }
            if !han.less_than(&best_han) {
                best = yakus;
                best_han = han;
            }
            i += 1;
        }
        let nothing: Vec<Yaku> = Vec::new();
        let han = Han::total(&nothing);
        proof {
            assert(lists.drop_last() =~= lists.subrange(0, n as int));
            assert(lists.last() == nothing@);
        }
        if !han.less_than(&best_han) {
            best = nothing;
        }
        Some(best)
    }

    /// The categories that the hand earns and what they are worth
    /// together, or nothing for a hand that is not complete.
    pub fn score(&self) -> (r: Option<(Vec<Yaku>, Han)>)
        requires
            self@.wf(),
        ensures
            match r {
                Some(x) => self@.score() == Some(x.0@) && x.1 == han_sum(x.0@),
                None => self@.score().is_none(),
            },
    {
        match self.yakus() {
            Some(yakus) => {
                let han = Han::total(&yakus);
                Some((yakus, han))
            },
            None => None,
        }
    }

    /// The hand of thirteen that is left when one `tile` is put down,
    /// or `NoSuchTile` when the hand holds no such tile.
    pub fn discard(&self, tile: Tile) -> (r: Result<ReadyTileSet, HandError>)
        requires
            self@.wf(),
        ensures
            match r {
                Ok(h) => has_tile(self@.tiles, tile) && h@ == remove_tile(self@.tiles, tile)
                    && h.wf(),
                Err(e) => e == HandError::NoSuchTile && !has_tile(self@.tiles, tile),
            },
    {
        let mut i: usize = 0;
        while i < self.tiles.len() && self.tiles[i] != tile
            invariant
                i <= self@.tiles.len(),
                forall|j: int| 0 <= j < i ==> self@.tiles[j] != tile,
            decreases self@.tiles.len() - i,
        {
            i += 1;
        }
        if i == self.tiles.len() {
            return Err(HandError::NoSuchTile);
        }
        let mut tiles = self.tiles.clone();
        assert(tiles@ =~= self@.tiles);
        tiles.remove(i);
        proof {
            lemma_remove_at(self@.tiles, tile, i as int);
            assert forall|j: int| 0 <= j < tiles@.len() implies (#[trigger] tiles@[j]).valid() by {
                if j < i {
                    assert(tiles@[j] == self@.tiles[j]);
                } else {
                    assert(tiles@[j] == self@.tiles[j + 1]);
                }
            }
        }
        Ok(ReadyTileSet { tiles })
    }

    /// Whether exactly one tile of the hand is related to `discard`:
    /// the tile itself, where it is in the hand, so that putting it
    /// down breaks nothing.
    pub fn is_useless(&self, discard: Tile) -> (r: bool)
        ensures
            r == (count_by(self@.tiles, related_to(discard)) == 1),
    {
        count_related(&self.tiles, discard) == 1
    }
}

} // verus!
