//! The distance of thirteen tiles from each of the three shapes of a
//! complete hand.

use crate::counting::{
    count_by, indicator, lemma_sum_bounds, lemma_sum_push, lemma_sum_update, sum_by,
};
use crate::groups::{can_take, counts_minus, lemma_block_counts, lowest_kind};
use crate::hand::{as_int, counts_match, counts_of_tiles, tile_count, total};
use crate::plan::standard_distance;
use crate::tile::{related_ids, Tile};
use crate::tile_block::{BlockType, TileBlock};
use crate::tile_pattern::{tile_holds, TileTest};
use vstd::prelude::*;

verus! {

/// The kind with index `k` is held at least `n` times.
pub open spec fn held(counts: Seq<u8>, n: int) -> spec_fn(int) -> bool {
    |k: int| 0 <= k < counts.len() && counts[k] >= n
}

/// The kind with index `k` is a terminal or an honor and is held at
/// least `n` times.
pub open spec fn orphan_held(counts: Seq<u8>, n: int) -> spec_fn(int) -> bool {
    |k: int| 0 <= k < counts.len() && counts[k] >= n && tile_holds(TileTest::Yaochuu, k)
}

/// The indices of the kinds, in order.
pub open spec fn kinds() -> Seq<int> {
    Seq::new(34, |k: int| k)
}

/// The distance of the counted tiles from seven pairs: six, less one
/// for every kind that is held at least twice.
pub open spec fn pairs_distance(counts: Seq<u8>) -> int {
    6 - count_by(kinds(), held(counts, 2))
}

/// The distance of the counted tiles from thirteen orphans: thirteen,
/// less one for every kind of terminal or honor that is held, less
/// one more where one of them is held twice.
pub open spec fn orphans_distance(counts: Seq<u8>) -> int {
    13 - count_by(kinds(), orphan_held(counts, 1)) - (if count_by(kinds(), orphan_held(counts, 2))
        > 0 {
        1int
    } else {
        0int
    })
}

/// The lowest kind from `k` on of which a tile is left, 34 where
/// there is none.
pub open spec fn first_from(counts: Seq<u8>, k: int) -> int
    decreases 34 - k,
{
    if k < 0 || k >= 34 {
        34
    } else if counts[k] > 0 {
        k
    } else {
        first_from(counts, k + 1)
    }
}

/// The group of the given shape that begins with the kind `k`.
pub open spec fn block_at(shape: BlockType, k: int, other: int) -> TileBlock {
    TileBlock { block_type: shape, first: Tile { id: k as u8 }, second: Tile { id: other as u8 } }
}

/// The lower of two numbers.
pub open spec fn min2(a: int, b: int) -> int {
    if a <= b {
        a
    } else {
        b
    }
}

/// With `c` complete groups and `i` incomplete ones, a pair among
/// them or not, there are not more groups than a hand has.
pub open spec fn in_hand(c: int, i: int, p: bool) -> bool {
    c + i - (if p {
        1int
    } else {
        0int
    }) <= 4
}

/// The lowest distance from four groups and a pair that the search
/// finds from a state of it: `c` complete groups and `i` incomplete
/// ones taken, a pair among them or not, and the counted tiles left.
///
/// A state with more groups than a hand has counts for nothing. Any
/// other has the distance 8 - 2c - i, and the search goes on from it
/// as long as tiles are left. Every step takes a tile, so that
/// `depth` steps suffice for as many tiles.
pub open spec fn standard_search(counts: Seq<u8>, depth: nat, c: int, i: int, p: bool) -> int
    decreases depth, 0int,
{
    if !in_hand(c, i, p) {
        8
    } else {
        let here = 8 - 2 * c - i;
        if depth == 0 || first_from(counts, 0) >= 34 {
            here
        } else {
            min2(here, search_on(counts, (depth - 1) as nat, c, i, p))
        }
    }
}

/// The lowest distance that the search finds in the states that
/// follow a state in which tiles are left: the lowest that it finds
/// by one of its steps.
pub open spec fn search_on(counts: Seq<u8>, depth: nat, c: int, i: int, p: bool) -> int
    decreases depth, 2int,
{
    let steps = steps_of(counts);
    min2(
        step_value(counts, depth, steps.triplet, c + 1, i, p),
        min2(
            step_value(counts, depth, steps.run, c + 1, i, p),
            min2(
                step_value(counts, depth, steps.pair, c, i + 1, true),
                min2(
                    step_value(counts, depth, steps.near, c, i + 1, p),
                    min2(
                        step_value(counts, depth, steps.far, c, i + 1, p),
                        step_value(counts, depth, steps.aside, c, i, p),
                    ),
                ),
            ),
        ),
    )
}

/// The lowest distance that the search finds by a step: 8, which is
/// no distance of a hand, where the step cannot be taken.
pub open spec fn step_value(
    counts: Seq<u8>,
    depth: nat,
    step: Option<TileBlock>,
    c: int,
    i: int,
    p: bool,
) -> int
    decreases depth, 1int,
{
    match step {
        Some(b) => standard_search(counts_minus(counts, b), depth, c, i, p),
        None => 8,
    }
}

/// By how much `n` tiles can lower the distance at most: by two for
/// every three of them, and by one more for two that are left.
pub open spec fn gain(n: int) -> int {
    2 * (n / 3) + (n % 3) / 2
}

/// What `first_from` finds: a kind with a tile left, and none before
/// it from where the search began.
pub proof fn lemma_first_from(counts: Seq<u8>, start: int)
    requires
        counts.len() == 34,
        0 <= start,
    ensures
        first_from(counts, start) <= 34,
        start <= 34 ==> start <= first_from(counts, start),
        first_from(counts, start) < 34 ==> counts[first_from(counts, start)] > 0,
        forall|j: int| start <= j < first_from(counts, start) ==> counts[j] == 0,
    decreases 34 - start,
{
    if start < 34 && counts[start] == 0 {
        lemma_first_from(counts, start + 1);
    }
}

/// The counts add up to less by the tiles of a group that is taken
/// from them.
pub proof fn lemma_total_minus(counts: Seq<u8>, b: TileBlock)
    requires
        counts.len() == 34,
        b.wf(),
        can_take(counts, b),
    ensures
        total(counts_minus(counts, b)) == total(counts) - b.len_spec(),
        counts_minus(counts, b).len() == 34,
{
    let f = b.first.id as int;
    let s = b.second.id as int;
    let after = counts_minus(counts, b);
    lemma_block_counts(b);
    match b.block_type {
        BlockType::Triplet => {
            assert(b.count_of(f) == 3);
            assert(after =~= counts.update(f, (counts[f] - 3) as u8));
            lemma_sum_update(counts, f, (counts[f] - 3) as u8, as_int());
        },
        BlockType::Sequence => {
            assert(b.count_of(f) == 1 && b.count_of(f + 1) == 1 && b.count_of(f + 2) == 1);
            let c1 = counts.update(f, (counts[f] - 1) as u8);
            let c2 = c1.update(f + 1, (counts[f + 1] - 1) as u8);
            let c3 = c2.update(f + 2, (counts[f + 2] - 1) as u8);
            assert(after =~= c3);
            lemma_sum_update(counts, f, (counts[f] - 1) as u8, as_int());
            lemma_sum_update(c1, f + 1, (counts[f + 1] - 1) as u8, as_int());
            lemma_sum_update(c2, f + 2, (counts[f + 2] - 1) as u8, as_int());
        },
        BlockType::Pair => {
            assert(b.count_of(f) == 2);
            assert(after =~= counts.update(f, (counts[f] - 2) as u8));
            lemma_sum_update(counts, f, (counts[f] - 2) as u8, as_int());
        },
        BlockType::Incompleted => {
            assert(b.count_of(f) >= 1 && b.count_of(s) >= 1);
            let c1 = counts.update(f, (counts[f] - 1) as u8);
            let c2 = c1.update(s, (c1[s] - 1) as u8);
            assert(after =~= c2);
            lemma_sum_update(counts, f, (counts[f] - 1) as u8, as_int());
            lemma_sum_update(c1, s, (c1[s] - 1) as u8, as_int());
        },
        BlockType::Orphan => {
            assert(b.count_of(f) == 1);
            assert(after =~= counts.update(f, (counts[f] - 1) as u8));
            lemma_sum_update(counts, f, (counts[f] - 1) as u8, as_int());
        },
    }
}

/// No state that the search reaches from a state lies further below
/// it than the tiles that are left can gain.
pub proof fn lemma_search_bound(counts: Seq<u8>, depth: nat, c: int, i: int, p: bool)
    requires
        counts.len() == 34,
        c >= 0,
        i >= 0,
    ensures
        standard_search(counts, depth, c, i, p) >= min2(8, 8 - 2 * c - i - gain(total(counts))),
        standard_search(counts, depth, c, i, p) <= 8,
    decreases depth, 0int,
{
    lemma_sum_bounds(counts, as_int());
    if in_hand(c, i, p) && depth > 0 && first_from(counts, 0) < 34 {
        lemma_search_on_bound(counts, (depth - 1) as nat, c, i, p);
    }
}

/// No state that follows a state lies further below it than the
/// tiles that are left can gain.
pub proof fn lemma_search_on_bound(counts: Seq<u8>, depth: nat, c: int, i: int, p: bool)
    requires
        counts.len() == 34,
        c >= 0,
        i >= 0,
        first_from(counts, 0) < 34,
    ensures
        search_on(counts, depth, c, i, p) >= min2(8, 8 - 2 * c - i - gain(total(counts))),
        search_on(counts, depth, c, i, p) <= 8,
    decreases depth, 1int,
{
    let n = total(counts);
    lemma_sum_bounds(counts, as_int());
    let k = first_from(counts, 0);
    lemma_first_from(counts, 0);
    lemma_first_from(counts, k + 1);
    let k2 = first_from(counts, k + 1);
    lemma_first_from(counts, k2 + 1);
    let k3 = first_from(counts, k2 + 1);
    let floor = min2(8, 8 - 2 * c - i - gain(n));
    if counts[k] >= 3 {
        let b = block_at(BlockType::Triplet, k, k);
        lemma_total_minus(counts, b);
        lemma_search_bound(counts_minus(counts, b), depth, c + 1, i, p);
        lemma_sum_bounds(counts_minus(counts, b), as_int());
        assert(standard_search(counts_minus(counts, b), depth, c + 1, i, p) >= floor);
    }
    if k < 27 && k % 9 <= 6 && k2 == k + 1 && k3 == k + 2 {
        let b = block_at(BlockType::Sequence, k, k);
        lemma_total_minus(counts, b);
        lemma_search_bound(counts_minus(counts, b), depth, c + 1, i, p);
        lemma_sum_bounds(counts_minus(counts, b), as_int());
        assert(standard_search(counts_minus(counts, b), depth, c + 1, i, p) >= floor);
    }
    if counts[k] >= 2 {
        let b = block_at(BlockType::Pair, k, k);
        lemma_total_minus(counts, b);
        lemma_search_bound(counts_minus(counts, b), depth, c, i + 1, true);
        lemma_sum_bounds(counts_minus(counts, b), as_int());
        assert(standard_search(counts_minus(counts, b), depth, c, i + 1, true) >= floor);
    }
    if k2 < 34 && related_ids(k, k2) {
        let b = block_at(BlockType::Incompleted, k, k2);
        lemma_total_minus(counts, b);
        lemma_search_bound(counts_minus(counts, b), depth, c, i + 1, p);
        lemma_sum_bounds(counts_minus(counts, b), as_int());
        assert(standard_search(counts_minus(counts, b), depth, c, i + 1, p) >= floor);
    }
    if k3 < 34 && related_ids(k, k3) {
        let b = block_at(BlockType::Incompleted, k, k3);
        lemma_total_minus(counts, b);
        lemma_search_bound(counts_minus(counts, b), depth, c, i + 1, p);
        lemma_sum_bounds(counts_minus(counts, b), as_int());
        assert(standard_search(counts_minus(counts, b), depth, c, i + 1, p) >= floor);
    }
    let b = block_at(BlockType::Orphan, k, k);
    lemma_total_minus(counts, b);
    lemma_search_bound(counts_minus(counts, b), depth, c, i, p);
    lemma_sum_bounds(counts_minus(counts, b), as_int());
    assert(standard_search(counts_minus(counts, b), depth, c, i, p) >= floor);
}

/// The lowest kind from `start` on of which a tile is left, 34 where
/// there is none.
pub fn next_kind(counts: &Vec<u8>, start: usize) -> (k: usize)
    requires
        counts@.len() == 34,
        start <= 34,
    ensures
        k == first_from(counts@, start as int),
        start <= k <= 34,
{
    let mut k: usize = start;
    while k < 34 && counts[k] == 0
        invariant
            start <= k <= 34,
            counts@.len() == 34,
            first_from(counts@, start as int) == first_from(counts@, k as int),
        decreases 34 - k,
    {
        k += 1;
    }
    k
}

/// The steps that the search can take from a state in which tiles
/// are left, each with the group that it takes: none where the tiles
/// do not allow the step.
pub struct Steps {
    pub triplet: Option<TileBlock>,
    pub run: Option<TileBlock>,
    pub pair: Option<TileBlock>,
    pub near: Option<TileBlock>,
    pub far: Option<TileBlock>,
    pub aside: Option<TileBlock>,
}

/// The steps from the counted tiles. The search goes by the lowest
/// kind that is left: it is the tile of a triplet, the lowest tile of
/// a run, the tile of a pair, the lower of two neighbours or of two
/// tiles with a gap, or it is set aside.
pub open spec fn steps_of(counts: Seq<u8>) -> Steps {
    let k = first_from(counts, 0);
    let k2 = first_from(counts, k + 1);
    let k3 = first_from(counts, k2 + 1);
    Steps {
        triplet: if counts[k] >= 3 {
            Some(block_at(BlockType::Triplet, k, k))
        } else {
            None
        },
        run: if k < 27 && k % 9 <= 6 && k2 == k + 1 && k3 == k + 2 {
            Some(block_at(BlockType::Sequence, k, k))
        } else {
            None
        },
        pair: if counts[k] >= 2 {
            Some(block_at(BlockType::Pair, k, k))
        } else {
            None
        },
        near: if k2 < 34 && related_ids(k, k2) {
            Some(block_at(BlockType::Incompleted, k, k2))
        } else {
            None
        },
        far: if k3 < 34 && related_ids(k, k3) {
            Some(block_at(BlockType::Incompleted, k, k3))
        } else {
            None
        },
        aside: Some(block_at(BlockType::Orphan, k, k)),
    }
}

/// The steps that the search can take from the counted tiles.
pub fn next_steps(counts: &Vec<u8>) -> (r: Steps)
    requires
        counts@.len() == 34,
        total(counts@) > 0,
    ensures
        r == steps_of(counts@),
        r.triplet matches Some(b) ==> b.wf() && can_take(counts@, b) && b.len_spec() == 3,
        r.run matches Some(b) ==> b.wf() && can_take(counts@, b) && b.len_spec() == 3,
        r.pair matches Some(b) ==> b.wf() && can_take(counts@, b) && b.len_spec() == 2,
        r.near matches Some(b) ==> b.wf() && can_take(counts@, b) && b.len_spec() == 2,
        r.far matches Some(b) ==> b.wf() && can_take(counts@, b) && b.len_spec() == 2,
        r.aside matches Some(b) && b.wf() && can_take(counts@, b) && b.len_spec() == 1,
{
    let k: usize = lowest_kind(counts);
    let k2: usize = next_kind(counts, k + 1);
    let k3: usize = if k2 < 34 {
        next_kind(counts, k2 + 1)
    } else {
        34
    };
    proof {
        lemma_first_from(counts@, 0);
        lemma_first_from(counts@, k + 1);
        lemma_first_from(counts@, k2 + 1);
        assert(first_from(counts@, 0) == k);
    }
    let tile = Tile { id: k as u8 };
    let triplet = if counts[k] >= 3 {
        Some(TileBlock { block_type: BlockType::Triplet, first: tile, second: tile })
    } else {
        None
    };
    let run = if k < 27 && k % 9 <= 6 && k2 == k + 1 && k3 == k + 2 {
        Some(TileBlock { block_type: BlockType::Sequence, first: tile, second: tile })
    } else {
        None
    };
    let pair = if counts[k] >= 2 {
        Some(TileBlock { block_type: BlockType::Pair, first: tile, second: tile })
    } else {
        None
    };
    let near = if k2 < 34 && tile.is_related(Tile { id: k2 as u8 }) {
        Some(
            TileBlock {
                block_type: BlockType::Incompleted,
                first: tile,
                second: Tile { id: k2 as u8 },
            },
        )
    } else {
        None
    };
    let far = if k3 < 34 && tile.is_related(Tile { id: k3 as u8 }) {
        Some(
            TileBlock {
                block_type: BlockType::Incompleted,
                first: tile,
                second: Tile { id: k3 as u8 },
            },
        )
    } else {
        None
    };
    let aside = Some(TileBlock { block_type: BlockType::Orphan, first: tile, second: tile });
    Steps { triplet, run, pair, near, far, aside }
}

/// The counts of tiles are what counting the tiles gives.
pub proof fn lemma_counts_are(counts: Seq<u8>, tiles: Seq<Tile>)
    requires
        counts_match(counts, tiles),
    ensures
        counts == counts_of_tiles(tiles),
{
    assert forall|k: int| 0 <= k < 34 implies counts[k] == counts_of_tiles(tiles)[k] by {
        assert(counts[k] == tile_count(tiles, k));
    }
    assert(counts =~= counts_of_tiles(tiles));
}

/// The shape of hand that a search aims at.
#[derive(Debug, Clone, Copy, PartialEq, Eq, Structural)]
pub enum Shape {
    SevenPairs,
    Standard,
}

/// The distance of the tiles from the shape.
pub open spec fn distance_by(shape: Shape, tiles: Seq<Tile>) -> int {
    match shape {
        Shape::SevenPairs => pairs_distance(counts_of_tiles(tiles)),
        Shape::Standard => standard_distance(counts_of_tiles(tiles)),
    }
}

/// The lowest of the three distances of the hand.
pub open spec fn least_distance(tiles: Seq<Tile>) -> int {
    let counts = counts_of_tiles(tiles);
    min2(orphans_distance(counts), min2(standard_distance(counts), pairs_distance(counts)))
}

/// How many kinds of terminals and honors are held, and how many of
/// them at least twice.
pub fn count_orphans(counts: &Vec<u8>) -> (r: (u8, u8))
    requires
        counts@.len() == 34,
    ensures
        r.0 == count_by(kinds(), orphan_held(counts@, 1)),
        r.1 == count_by(kinds(), orphan_held(counts@, 2)),
        r.0 + r.1 <= total(counts@),
        r.0 <= 34,
        r.1 <= 34,
{
    let ghost f1 = indicator(orphan_held(counts@, 1));
    let ghost f2 = indicator(orphan_held(counts@, 2));
    let mut distinct: u8 = 0;
    let mut twice: u8 = 0;
    let mut k: usize = 0;
    while k < 34
        invariant
            k <= 34,
            counts@.len() == 34,
            f1 == indicator(orphan_held(counts@, 1)),
            f2 == indicator(orphan_held(counts@, 2)),
            distinct == sum_by(kinds().subrange(0, k as int), f1),
            twice == sum_by(kinds().subrange(0, k as int), f2),
            distinct <= k,
            twice <= k,
            distinct + twice <= total(counts@.subrange(0, k as int)),
        decreases 34 - k,
    {
        proof {
            lemma_sum_push(kinds().subrange(0, k as int), k as int, f1);
            lemma_sum_push(kinds().subrange(0, k as int), k as int, f2);
            assert(kinds().subrange(0, k as int).push(k as int) =~= kinds().subrange(0, k + 1));
            lemma_sum_push(counts@.subrange(0, k as int), counts@[k as int], as_int());
            assert(counts@.subrange(0, k as int).push(counts@[k as int]) =~= counts@.subrange(
                0,
                k + 1,
            ));
        }
        let orphan = (k < 27 && (k % 9 == 0 || k % 9 == 8)) || k >= 27;
        if orphan && counts[k] >= 1 {
            distinct += 1;
        }
        if orphan && counts[k] >= 2 {
            twice += 1;
        }
        k += 1;
    }
    proof {
        assert(kinds().subrange(0, 34) =~= kinds());
        assert(counts@.subrange(0, 34) =~= counts@);
    }
    (distinct, twice)
}

/// The lowest of three distances.
pub fn least_of(a: u8, b: u8, c: u8) -> (r: u8)
    ensures
        r == min2(a as int, min2(b as int, c as int)),
{
    let bc: u8 = if b <= c {
        b
    } else {
        c
    };
    if a <= bc {
        a
    } else {
        bc
    }
}

} // verus!
