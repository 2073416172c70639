//! A hand of thirteen tiles: what it becomes with a tile drawn, and
//! how far it is from a complete hand.

use crate::counting::{
    count_by, indicator, lemma_sum_bounds, lemma_sum_concat, lemma_sum_one, lemma_sum_push,
    lemma_sum_remove, sum_by,
};
use crate::distance::{
    count_orphans, distance_by, first_from, held, kinds, least_distance, least_of, lemma_counts_are,
    lemma_first_from, lemma_search_bound, lemma_search_on_bound, min2, next_steps, orphans_distance,
    pairs_distance, search_on, standard_search, step_value, Shape,
};
use crate::full_set::FullTileSet;
use crate::groups::{can_take, give_block, take_block};
use crate::hand::{
    all_valid, as_int, count_related, count_tiles, counts_of_tiles, has_tile, insert_tile,
    lemma_insert_at, lemma_total_is_zero, lemma_total_zero, related_to, remove_tile, sorted_tiles,
    total, valid_in_order,
};
use crate::lex::lex_lt;
use crate::nearness::lemma_wait_is_near;
use crate::outcome::{
    add_orphan_progress, add_outcome, all_waiting, by_draw, covered, discards_upto, distance_of,
    draws_upto, effective, first_or, holds_outcome, is_progress, is_tenpai, lemma_queued_work,
    lemma_reached_concat, lemma_reached_one, lemma_work_of_children, lemma_work_rises,
    listed_outcomes, orphan_progress, outcome_key, outcomes_of, queued_work, reached_from,
    reached_from_some, reaches, rising_outcomes, tile_of, wins_upto, work, work_of, Outcome,
    Pending,
};
use crate::plan::{lemma_standard_distance, standard_distance};
use crate::reading::FullHand;
use crate::tile::Tile;
use crate::tile_block::TileBlock;
use crate::yaku::Yaku;
use std::collections::VecDeque;
use vstd::prelude::*;

verus! {

/// Thirteen tiles in the canonical order.
#[derive(Debug, Clone, PartialEq, Eq)]
pub struct ReadyTileSet {
    pub tiles: Vec<Tile>,
}

impl View for ReadyTileSet {
    type V = Seq<Tile>;

    open spec fn view(&self) -> Seq<Tile> {
        self.tiles@
    }
}

/// Thirteen valid tiles in order.
pub open spec fn ready_wf(tiles: Seq<Tile>) -> bool {
    tiles.len() == 13 && all_valid(tiles) && sorted_tiles(tiles)
}

/// The hand of fourteen that the tiles make with `tile` drawn.
pub open spec fn draw_spec(tiles: Seq<Tile>, tile: Tile) -> FullHand {
    FullHand { tiles: insert_tile(tiles, tile), last_draw: tile }
}

impl ReadyTileSet {
    /// Thirteen valid tiles in order.
    pub open spec fn wf(&self) -> bool {
        ready_wf(self@)
    }

    /// Whether the hand is thirteen valid tiles in order.
    pub fn is_wf(&self) -> (r: bool)
        ensures
            r == self.wf(),
    {
        self.tiles.len() == 13 && valid_in_order(&self.tiles)
    }

    /// The hand with `tile` drawn: the tile goes to its place in the
    /// order and is remembered as the tile drawn last.
    pub fn draw(&self, tile: Tile) -> (r: FullTileSet)
        requires
            self.wf(),
            tile.valid(),
        ensures
            r@ == draw_spec(self@, tile),
            r@.wf(),
    {
        let mut i: usize = 0;
        while i < self.tiles.len() && self.tiles[i].id <= tile.id
            invariant
                i <= self@.len(),
                forall|j: int| 0 <= j < i ==> self@[j].id <= tile.id,
            decreases self@.len() - i,
        {
            i += 1;
        }
        let mut tiles = self.tiles.clone();
        assert(tiles@ =~= self@);
        tiles.insert(i, tile);
        proof {
            assert forall|j: int| i <= j < self@.len() implies tile.id <= self@[j].id by {
                assert(self@[i as int].id <= self@[j].id);
            }
            lemma_insert_at(self@, tile, i as int);
            assert(tiles@[i as int] == tile);
            assert forall|j: int| 0 <= j < tiles@.len() implies (#[trigger] tiles@[j]).valid() by {
                if j < i {
                    assert(tiles@[j] == self@[j]);
                } else if j > i {
                    assert(tiles@[j] == self@[j - 1]);
                }
            }
        }
        FullTileSet { tiles, last_draw: tile }
    }

    /// Whether the hand holds a tile that `draw` is related to, so that
    /// drawing it may bring the hand forward.
    pub fn maybe_effective(&self, draw: Tile) -> (r: bool)
        ensures
            r == (count_by(self@, related_to(draw)) > 0),
    {
        count_related(&self.tiles, draw) > 0
    }
}

impl ReadyTileSet {
    /// The distance of the hand from seven pairs.
    pub fn chiitou_shanten(&self) -> (r: u8)
        requires
            self.wf(),
        ensures
            r == pairs_distance(counts_of_tiles(self@)),
            r <= 6,
    {
        let counts = count_tiles(&self.tiles);
        proof {
            lemma_counts_are(counts@, self@);
        }
        let ghost f = indicator(held(counts@, 2));
        let mut pairs: u8 = 0;
        let mut k: usize = 0;
        while k < 34
            invariant
                k <= 34,
                counts@.len() == 34,
                f == indicator(held(counts@, 2)),
                pairs == sum_by(kinds().subrange(0, k as int), f),
                pairs <= k,
                2 * pairs <= total(counts@.subrange(0, k as int)),
                total(counts@.subrange(0, k as int)) <= 255 * k,
            decreases 34 - k,
        {
            proof {
                lemma_sum_push(kinds().subrange(0, k as int), k as int, f);
                assert(kinds().subrange(0, k as int).push(k as int) =~= kinds().subrange(
                    0,
                    k + 1,
                ));
                lemma_sum_push(counts@.subrange(0, k as int), counts@[k as int], as_int());
                assert(counts@.subrange(0, k as int).push(counts@[k as int])
                    =~= counts@.subrange(0, k + 1));
            }
            if counts[k] >= 2 {
                pairs += 1;
            }
            k += 1;
        }
        proof {
            assert(kinds().subrange(0, 34) =~= kinds());
            assert(counts@.subrange(0, 34) =~= counts@);
        }
        6 - pairs
    }

    /// The distance of the hand from thirteen orphans.
    pub fn kokushi_shanten(&self) -> (r: u8)
        requires
            self.wf(),
        ensures
            r == orphans_distance(counts_of_tiles(self@)),
            r <= 13,
    {
        let counts = count_tiles(&self.tiles);
        proof {
            lemma_counts_are(counts@, self@);
        }
        let (distinct, twice) = count_orphans(&counts);
        if twice > 0 {
            13 - distinct - 1
        } else {
            13 - distinct
        }
    }

    /// The distance of the hand from four groups and a pair.
    pub fn common_shanten(&self) -> (r: u8)
        requires
            self.wf(),
        ensures
            r == standard_distance(counts_of_tiles(self@)),
            r <= 8,
    {
        let mut counts = count_tiles(&self.tiles);
        proof {
            lemma_counts_are(counts@, self@);
        }
        let mut min_shanten: u8 = 8;
        Self::find_common_patterns(&mut counts, 13, 0, 0, false, &mut min_shanten, Ghost(13));
        proof {
            lemma_search_bound(counts@, 13, 0, 0, false);
            lemma_standard_distance(counts@, 13);
        }
        min_shanten
    }

    /// Goes through the states that the search reaches from the given
    /// one and lowers `min_shanten` to the lowest distance among
    /// them, where that is lower. A state from which the tiles that
    /// are left cannot reach below `min_shanten` is not searched. The
    /// counts are as they were when the search returns.
    fn find_common_patterns(
        counts: &mut Vec<u8>,
        left: u8,
        completed: u8,
        incompleted: u8,
        have_pair: bool,
        min_shanten: &mut u8,
        Ghost(depth): Ghost<nat>,
    )
        requires
            old(counts)@.len() == 34,
            left == total(old(counts)@),
            depth >= left,
            3 * completed + 2 * incompleted + left <= 13,
            *old(min_shanten) <= 8,
        ensures
            final(counts)@ == old(counts)@,
            *final(min_shanten) <= 8,
            *final(min_shanten) == min2(
                *old(min_shanten) as int,
                standard_search(
                    old(counts)@,
                    depth,
                    completed as int,
                    incompleted as int,
                    have_pair,
                ),
            ),
        decreases left, 2int,
    {
        let ghost whole = counts@;
        let ghost c = completed as int;
        let ghost i = incompleted as int;
        let paired: u8 = if have_pair {
            1
        } else {
            0
        };
        if completed + incompleted > 4 + paired {
            return ;
        }
        let here: u8 = 8 - 2 * completed - incompleted;
        if here < *min_shanten {
            *min_shanten = here;
        }
        proof {
            lemma_first_from(whole, 0);
        }
        if left == 0 {
            proof {
                lemma_total_is_zero(whole);
            }
            return ;
        }
        proof {
            if first_from(whole, 0) >= 34 {
                lemma_total_zero(whole);
            }
            lemma_search_on_bound(whole, (depth - 1) as nat, c, i, have_pair);
        }
        if left / 3 * 2 + (left % 3) / 2 < here - *min_shanten {
            return ;
        }
        Self::search_further(
            counts,
            left,
            completed,
            incompleted,
            have_pair,
            min_shanten,
            Ghost((depth - 1) as nat),
        );
    }

    /// Goes through the states that follow a state in which tiles are
    /// left.
    fn search_further(
        counts: &mut Vec<u8>,
        left: u8,
        completed: u8,
        incompleted: u8,
        have_pair: bool,
        min_shanten: &mut u8,
        Ghost(depth): Ghost<nat>,
    )
        requires
            old(counts)@.len() == 34,
            left == total(old(counts)@),
            left > 0,
            depth + 1 >= left,
            3 * completed + 2 * incompleted + left <= 13,
            *old(min_shanten) <= 8,
        ensures
            final(counts)@ == old(counts)@,
            *final(min_shanten) <= 8,
            *final(min_shanten) == min2(
                *old(min_shanten) as int,
                search_on(old(counts)@, depth, completed as int, incompleted as int, have_pair),
            ),
        decreases left, 1int,
    {
        let ghost whole = counts@;
        let ghost c = completed as int;
        let ghost i = incompleted as int;
        let steps = next_steps(counts);
        proof {
            lemma_sum_bounds(whole, as_int());
        }
        let s0 = steps.triplet;
        let s1 = steps.run;
        let s2 = steps.pair;
        let s3 = steps.near;
        let s4 = steps.far;
        let s5 = steps.aside;
        Self::descend(
            counts,
            left,
            s0,
            completed + 1,
            incompleted,
            have_pair,
            min_shanten,
            Ghost(depth),
        );
        Self::descend(
            counts,
            left,
            s1,
            completed + 1,
            incompleted,
            have_pair,
            min_shanten,
            Ghost(depth),
        );
        Self::descend(
            counts,
            left,
            s2,
            completed,
            incompleted + 1,
            true,
            min_shanten,
            Ghost(depth),
        );
        Self::descend(
            counts,
            left,
            s3,
            completed,
            incompleted + 1,
            have_pair,
            min_shanten,
            Ghost(depth),
        );
        Self::descend(
            counts,
            left,
            s4,
            completed,
            incompleted + 1,
            have_pair,
            min_shanten,
            Ghost(depth),
        );
        Self::descend(
            counts,
            left,
            s5,
            completed,
            incompleted,
            have_pair,
            min_shanten,
            Ghost(depth),
        );
    }

    /// Where the step can be taken: takes its group from the counts,
    /// searches on from the state that this gives, and puts the group
    /// back.
    fn descend(
        counts: &mut Vec<u8>,
        left: u8,
        step: Option<TileBlock>,
        completed: u8,
        incompleted: u8,
        have_pair: bool,
        min_shanten: &mut u8,
        Ghost(depth): Ghost<nat>,
    )
        requires
            old(counts)@.len() == 34,
            left == total(old(counts)@),
            *old(min_shanten) <= 8,
            step matches Some(block) ==> block.wf() && can_take(old(counts)@, block) && depth
                + block.len_spec() >= left && 3 * completed + 2 * incompleted + left
                - block.len_spec() <= 13,
        ensures
            final(counts)@ == old(counts)@,
            *final(min_shanten) <= 8,
            *final(min_shanten) == min2(
                *old(min_shanten) as int,
                step_value(
                    old(counts)@,
                    depth,
                    step,
                    completed as int,
                    incompleted as int,
                    have_pair,
                ),
            ),
        decreases left, 0int,
    {
        let block = match step {
            Some(b) => b,
            None => {
                return ;
            },
        };
        let ghost whole = counts@;
        take_block(counts, &block);
        proof {
            lemma_sum_bounds(counts@, as_int());
        }
        let n: u8 = block.len();
        Self::find_common_patterns(
            counts,
            left - n,
            completed,
            incompleted,
            have_pair,
            min_shanten,
            Ghost(depth),
        );
        give_block(counts, &block, Ghost(whole));
    }
}

impl ReadyTileSet {
    /// The distance of the hand from the shape.
    pub fn distance_for(&self, shape: Shape) -> (r: u8)
        requires
            self.wf(),
        ensures
            r == distance_by(shape, self@),
    {
        match shape {
            Shape::SevenPairs => self.chiitou_shanten(),
            Shape::Standard => self.common_shanten(),
        }
    }
}

impl ReadyTileSet {
    /// The tiles that complete the hand, in order, each with what the
    /// hand then earns.
    pub fn winning_draws(&self) -> (r: Vec<(Tile, Vec<Yaku>)>)
        requires
            self.wf(),
        ensures
            outcomes_of(r@) == wins_upto(self@, 34),
            r@.len() > 0 ==> least_distance(self@) <= 0,
    {
        let mut wins: Vec<(Tile, Vec<Yaku>)> = Vec::new();
        let mut k: u8 = 0;
        assert(outcomes_of(wins@) =~= wins_upto(self@, 0));
        while k < 34
            invariant
                k <= 34,
                self.wf(),
                outcomes_of(wins@) == wins_upto(self@, k as int),
                wins@.len() > 0 ==> least_distance(self@) <= 0,
            decreases 34 - k,
        {
            let tile = Tile { id: k };
            assert(tile == tile_of(k as int));
            let full = self.draw(tile);
            let ghost before = outcomes_of(wins@);
            match full.yakus() {
                Some(yakus) => {
                    wins.push((tile, yakus));
                    proof {
                        assert(outcomes_of(wins@) =~= before.push((tile, yakus@)));
                        let readings = full@.readings();
                        assert(readings.len() > 0);
                        lemma_wait_is_near(self@, k as int, readings[0]);
                    }
                },
                None => {},
            }
            k += 1;
        }
        wins
    }

    /// The three distances of a hand: from thirteen orphans, from
    /// four groups and a pair, from seven pairs.
    pub fn distances(&self) -> (r: (u8, u8, u8))
        requires
            self.wf(),
        ensures
            r.0 == orphans_distance(counts_of_tiles(self@)),
            r.1 == standard_distance(counts_of_tiles(self@)),
            r.2 == pairs_distance(counts_of_tiles(self@)),
    {
        (self.kokushi_shanten(), self.common_shanten(), self.chiitou_shanten())
    }

    /// How far the hand is from complete: zero for a hand that one
    /// draw completes, the lowest of its distances from the three
    /// shapes for any other.
    pub fn shanten(&self) -> (r: u8)
        requires
            self.wf(),
        ensures
            r == distance_of(self@),
            least_distance(self@) <= r,
    {
        let wins = self.winning_draws();
        if wins.len() > 0 {
            return 0;
        }
        let (orphans, standard, pairs) = self.distances();
        least_of(orphans, standard, pairs)
    }

    /// How far the hand is from complete, and what it can become.
    ///
    /// For a hand that one draw completes, the distance is zero and
    /// the list names every tile that completes it, in order, with
    /// what the hand then earns. For any other hand the distance is
    /// the lowest of its distances from the three shapes. Above two
    /// the list is empty. Up to two the list holds, each once and in
    /// rising order, the outcomes of the search for every shape that
    /// the hand is at that distance from: a tile to draw first, and
    /// categories that a hand reached from there earns.
    pub fn check(&self) -> (r: (u8, Vec<(Tile, Vec<Yaku>)>))
        requires
            self.wf(),
        ensures
            r.0 == distance_of(self@),
            least_distance(self@) <= r.0,
            is_tenpai(self@) ==> outcomes_of(r.1@) == wins_upto(self@, 34),
            !is_tenpai(self@) && r.0 > 2 ==> r.1@.len() == 0,
            !is_tenpai(self@) && r.0 <= 2 ==> rising_outcomes(outcomes_of(r.1@)) && forall|
                e: Outcome,
            |
                #[trigger] holds_outcome(outcomes_of(r.1@), e) <==> is_progress(
                    self@,
                    r.0 as int,
                    e,
                ),
    {
        let wins = self.winning_draws();
        if wins.len() > 0 {
            return (0, wins);
        }
        let (orphans, standard, pairs) = self.distances();
        let least: u8 = least_of(orphans, standard, pairs);
        let mut keys: Vec<Vec<u64>> = Vec::new();
        let mut out: Vec<(Tile, Vec<Yaku>)> = Vec::new();
        if least > 2 {
            return (least, out);
        }
        let ghost tiles = self@;
        let ghost counts = counts_of_tiles(tiles);
        let ghost d = least as int;
        assert forall|e: Outcome| !holds_outcome(outcomes_of(out@), e) by {}
        if orphans == least {
            let held = count_tiles(&self.tiles);
            proof {
                lemma_counts_are(held@, tiles);
            }
            add_orphan_progress(&held, &mut keys, &mut out);
        }
        let ghost first_out = outcomes_of(out@);
        if pairs == least {
            self.search(pairs, Shape::SevenPairs, &mut keys, &mut out);
        }
        let ghost second_out = outcomes_of(out@);
        if standard == least {
            self.search(standard, Shape::Standard, &mut keys, &mut out);
        }
        proof {
            let last = outcomes_of(out@);
            assert forall|e: Outcome| #[trigger]
                holds_outcome(last, e) <==> is_progress(tiles, d, e) by {
                assert(holds_outcome(first_out, e) <==> (orphans == least && orphan_progress(
                    counts,
                    e,
                )));
                assert(holds_outcome(second_out, e) <==> holds_outcome(first_out, e) || (pairs
                    == least && reaches(tiles, d as nat, None, Shape::SevenPairs, e)));
                assert(holds_outcome(last, e) <==> holds_outcome(second_out, e) || (standard
                    == least && reaches(tiles, d as nat, None, Shape::Standard, e)));
            }
            assert(rising_outcomes(last)) by {
                assert forall|i: int, j: int| 0 <= i < j < last.len() implies lex_lt(
                    outcome_key(#[trigger] last[i]),
                    outcome_key(#[trigger] last[j]),
                ) by {
                    assert(keys@[i]@ == outcome_key(last[i]));
                    assert(keys@[j]@ == outcome_key(last[j]));
                }
            }
        }
        (least, out)
    }
}

impl FullTileSet {
    /// Puts into the queue every hand that this one is with a tile
    /// put down, other than the tile of kind `drawn`, so that its
    /// distance from the shape falls below `cur`.
    fn queue_discards(
        &self,
        cur: u8,
        first: Tile,
        shape: Shape,
        drawn: u8,
        queue: &mut VecDeque<Pending>,
    ) -> (children: Ghost<Seq<Pending>>)
        requires
            self@.wf(),
            cur > 0,
        ensures
            final(queue)@ == old(queue)@ + children@,
            children@.len() <= 14,
            all_waiting(children@, cur as int),
            forall|e: Outcome|
                #[trigger] reached_from_some(children@, shape, e) <==> discards_upto(
                    self@.tiles,
                    cur as nat,
                    first,
                    shape,
                    drawn as int,
                    14,
                    e,
                ),
    {
        let ghost full = self@.tiles;
        let ghost given = queue@;
        let ghost children: Seq<Pending> = Seq::empty();
        let mut j: usize = 0;
        assert(given + children =~= given);
        while j < 14
            invariant
                j <= 14,
                cur > 0,
                self@.wf(),
                self@.tiles == full,
                queue@ == given + children,
                children.len() <= j,
                all_waiting(children, cur as int),
                forall|e: Outcome|
                    #[trigger] reached_from_some(children, shape, e) <==> discards_upto(
                        full,
                        cur as nat,
                        first,
                        shape,
                        drawn as int,
                        j as int,
                        e,
                    ),
            decreases 14 - j,
        {
            let d = self.tiles[j];
            let ghost before = children;
            let ghost next_tiles = remove_tile(full, d);
            let ghost stepped = false;
            if d.id != drawn {
                match self.discard(d) {
                    Ok(next) => {
                        let m: u8 = next.distance_for(shape);
                        if m < cur {
                            let child = Pending { distance: m, first: Some(first), hand: next };
                            queue.push_back(child);
                            proof {
                                stepped = true;
                                children = children.push(child);
                                assert(queue@ =~= given + children);
                            }
                        }
                    },
                    Err(_) => {
                        assert(false);
                    },
                }
            }
            proof {
                let m = distance_by(shape, next_tiles);
                assert(stepped <==> (d != tile_of(drawn as int) && 0 <= m < cur)) by {
                    assert(tile_of(drawn as int).id == drawn);
                    if d.id != drawn {
                        assert(has_tile(full, d));
                    }
                }
                assert forall|e: Outcome| #[trigger]
                    reached_from_some(children, shape, e) <==> discards_upto(
                        full,
                        cur as nat,
                        first,
                        shape,
                        drawn as int,
                        j + 1,
                        e,
                    ) by {
                    assert(reached_from_some(before, shape, e) <==> discards_upto(
                        full,
                        cur as nat,
                        first,
                        shape,
                        drawn as int,
                        j as int,
                        e,
                    ));
                    if stepped {
                        let child = children.last();
                        assert(children =~= before + seq![child]);
                        lemma_reached_concat(before, seq![child], shape, e);
                        lemma_reached_one(child, shape, e);
                        assert(child.hand@ == next_tiles);
                    }
                }
                assert forall|i: int| 0 <= i < children.len() implies (
                #[trigger] children[i]).hand.wf() && children[i].distance < cur by {
                    if i < before.len() {
                        assert(children[i] == before[i]);
                    }
                }
            }
            j += 1;
        }
        Ghost(children)
    }
}

impl ReadyTileSet {
    /// Searches one step from a waiting hand: the outcomes of the
    /// draws that complete it go to `out`, and the hands that it
    /// becomes by a draw and a tile put down go to the end of the
    /// queue.
    fn expand(
        entry: &Pending,
        shape: Shape,
        keys: &mut Vec<Vec<u64>>,
        out: &mut Vec<(Tile, Vec<Yaku>)>,
        queue: &mut VecDeque<Pending>,
    ) -> (children: Ghost<Seq<Pending>>)
        requires
            entry.hand.wf(),
            listed_outcomes(old(keys)@, old(out)@),
        ensures
            listed_outcomes(final(keys)@, final(out)@),
            final(queue)@ == old(queue)@ + children@,
            children@.len() <= 476,
            all_waiting(children@, entry.distance as int),
            forall|e: Outcome|
                #[trigger] covered(outcomes_of(final(out)@), children@, shape, e) <==> (
                holds_outcome(outcomes_of(old(out)@), e) || reached_from(*entry, shape, e)),
    {
        let ghost tiles = entry.hand@;
        let ghost cur = entry.distance as nat;
        let ghost first = entry.first;
        let ghost given_out = outcomes_of(out@);
        let ghost given_queue = queue@;
        let ghost children: Seq<Pending> = Seq::empty();
        let mut k: u8 = 0;
        assert(given_queue + children =~= given_queue);
        assert forall|e: Outcome| #[trigger]
            covered(outcomes_of(out@), children, shape, e) <==> (holds_outcome(given_out, e)
                || draws_upto(tiles, cur, first, shape, 0, e)) by {}
        while k < 34
            invariant
                k <= 34,
                entry.hand.wf(),
                entry.hand@ == tiles,
                entry.distance == cur,
                entry.first == first,
                listed_outcomes(keys@, out@),
                queue@ == given_queue + children,
                children.len() <= 14 * k,
                all_waiting(children, cur as int),
                forall|e: Outcome|
                    #[trigger] covered(outcomes_of(out@), children, shape, e) <==> (holds_outcome(
                        given_out,
                        e,
                    ) || draws_upto(tiles, cur, first, shape, k as int, e)),
            decreases 34 - k,
        {
            let tile = Tile { id: k };
            assert(tile == tile_of(k as int));
            let ghost out_before = outcomes_of(out@);
            let ghost children_before = children;
            let ghost added: Seq<Pending> = Seq::empty();
            let ghost won: Option<Outcome> = None;
            let ghost full_tiles = draw_spec(tiles, tile).tiles;
            let ghost named_tile = first_or(first, k as int);
            if entry.hand.maybe_effective(tile) {
                let full = entry.hand.draw(tile);
                let named: Tile = match entry.first {
                    Some(t) => t,
                    None => tile,
                };
                match full.yakus() {
                    Some(yakus) => {
                        proof {
                            won = Some((named, yakus@));
                        }
                        add_outcome(keys, out, named, yakus);
                    },
                    None => {
                        if entry.distance != 0 {
                            let more = full.queue_discards(entry.distance, named, shape, k, queue);
                            proof {
                                added = more@;
                            }
                        }
                    },
                }
            }
            proof {
                children = children_before + added;
                assert(queue@ =~= given_queue + children);
                assert forall|e: Outcome| #[trigger]
                    covered(outcomes_of(out@), children, shape, e) <==> (holds_outcome(
                        given_out,
                        e,
                    ) || draws_upto(tiles, cur, first, shape, k + 1, e)) by {
                    lemma_reached_concat(children_before, added, shape, e);
                    assert(covered(out_before, children_before, shape, e) <==> (holds_outcome(
                        given_out,
                        e,
                    ) || draws_upto(tiles, cur, first, shape, k as int, e)));
                    let here = by_draw(tiles, cur, first, shape, k as int, e);
                    assert(holds_outcome(outcomes_of(out@), e) <==> holds_outcome(out_before, e)
                        || Some(e) == won);
                    if !effective(tiles, k as int) {
                        assert(!here);
                        assert(!reached_from_some(added, shape, e));
                    } else if won.is_some() {
                        assert(here <==> Some(e) == won);
                        assert(!reached_from_some(added, shape, e));
                    } else if cur != 0 {
                        assert(here <==> discards_upto(
                            full_tiles,
                            cur,
                            named_tile,
                            shape,
                            k as int,
                            14,
                            e,
                        ));
                        assert(here <==> reached_from_some(added, shape, e));
                    } else {
                        assert(!here);
                        assert(!reached_from_some(added, shape, e));
                    }
                }
                assert forall|i: int| 0 <= i < children.len() implies (
                #[trigger] children[i]).hand.wf() && children[i].distance < cur by {
                    if i < children_before.len() {
                        assert(children[i] == children_before[i]);
                    } else {
                        assert(children[i] == added[i - children_before.len()]);
                    }
                }
            }
            k += 1;
        }
        Ghost(children)
    }

    /// Adds to `out` the outcomes of the search from the hand, which
    /// is at the distance `cur` from the shape. The hands to search
    /// wait in a queue, nearest to the hand first; the hand is the
    /// first of them.
    pub fn search(
        &self,
        cur: u8,
        shape: Shape,
        keys: &mut Vec<Vec<u64>>,
        out: &mut Vec<(Tile, Vec<Yaku>)>,
    )
        requires
            self.wf(),
            listed_outcomes(old(keys)@, old(out)@),
        ensures
            listed_outcomes(final(keys)@, final(out)@),
            forall|e: Outcome|
                #[trigger] holds_outcome(outcomes_of(final(out)@), e) <==> holds_outcome(
                    outcomes_of(old(out)@),
                    e,
                ) || reaches(self@, cur as nat, None, shape, e),
    {
        let ghost given = outcomes_of(out@);
        let mut queue: VecDeque<Pending> = VecDeque::new();
        let tiles = self.tiles.clone();
        assert(tiles@ =~= self@);
        let root = Pending { distance: cur, first: None, hand: ReadyTileSet { tiles } };
        queue.push_back(root);
        proof {
            assert(queue@ =~= seq![root]);
            assert forall|e: Outcome| #[trigger]
                covered(outcomes_of(out@), queue@, shape, e) <==> (holds_outcome(given, e)
                    || reaches(self@, cur as nat, None, shape, e)) by {
                lemma_reached_one(root, shape, e);
            }
            lemma_work_rises(0, cur as nat);
            lemma_sum_one(root, work_of());
        }
        while queue.len() > 0
            invariant
                self.wf(),
                listed_outcomes(keys@, out@),
                all_waiting(queue@, 256),
                queued_work(queue@) >= 0,
                forall|e: Outcome|
                    #[trigger] covered(outcomes_of(out@), queue@, shape, e) <==> (holds_outcome(
                        given,
                        e,
                    ) || reaches(self@, cur as nat, None, shape, e)),
            decreases queued_work(queue@),
        {
            let ghost waiting = queue@;
            let ghost out_before = outcomes_of(out@);
            let entry = match queue.pop_front() {
                Some(entry) => entry,
                None => {
                    assert(false);
                    return ;
                },
            };
            let ghost rest = queue@;
            assert(waiting[0] == entry);
            let children = Self::expand(&entry, shape, keys, out, &mut queue);
            proof {
                let children = children@;
                assert(waiting =~= seq![entry] + rest);
                assert(rest =~= waiting.remove(0));
                lemma_sum_remove(waiting, 0, work_of());
                lemma_sum_concat(rest, children, work_of());
                lemma_work_rises(0, entry.distance as nat);
                assert(work_of()(entry) == work(entry.distance as nat));
                if entry.distance > 0 {
                    lemma_work_of_children(children, entry.distance as nat);
                    let w = work((entry.distance - 1) as nat);
                    lemma_work_rises(0, (entry.distance - 1) as nat);
                    assert(children.len() * w <= 476 * w) by (nonlinear_arith)
                        requires
                            children.len() <= 476,
                            w >= 0,
                    ;
                    assert(work(entry.distance as nat) == 1 + 476 * w);
                } else {
                    assert(children.len() == 0);
                    assert(children =~= Seq::<Pending>::empty());
                    assert(queued_work(children) == 0);
                }
                assert(queued_work(queue@) < queued_work(waiting));
                lemma_queued_work(queue@);
                assert forall|i: int| 0 <= i < queue@.len() implies (#[trigger] queue@[i]).hand.wf()
                    && queue@[i].distance < 256 by {
                    if i < rest.len() {
                        assert(queue@[i] == waiting[i + 1]);
                    } else {
                        assert(queue@[i] == children[i - rest.len()]);
                    }
                }
                assert forall|e: Outcome| #[trigger]
                    covered(outcomes_of(out@), queue@, shape, e) <==> (holds_outcome(given, e)
                        || reaches(self@, cur as nat, None, shape, e)) by {
                    lemma_reached_concat(rest, children, shape, e);
                    lemma_reached_concat(seq![entry], rest, shape, e);
                    lemma_reached_one(entry, shape, e);
                    assert(covered(out_before, waiting, shape, e) <==> (holds_outcome(given, e)
                        || reaches(self@, cur as nat, None, shape, e)));
                    assert(covered(outcomes_of(out@), children, shape, e) <==> (holds_outcome(
                        out_before,
                        e,
                    ) || reached_from(entry, shape, e)));
                }
            }
        }
        proof {
            assert forall|e: Outcome| #[trigger]
                holds_outcome(outcomes_of(out@), e) <==> holds_outcome(given, e) || reaches(
                    self@,
                    cur as nat,
                    None,
                    shape,
                    e,
                ) by {
                assert(!reached_from_some(queue@, shape, e));
                assert(covered(outcomes_of(out@), queue@, shape, e) <==> (holds_outcome(given, e)
                    || reaches(self@, cur as nat, None, shape, e)));
            }
        }
    }
}

} // verus!
