//! Why the distance of a hand that one draw completes is zero.

use crate::counting::{
    count_by, indicator, lemma_sum_bounds, lemma_sum_positive, lemma_sum_remove, lemma_sum_same,
    lemma_sum_update,
};
use crate::distance::{
    block_at, held, kinds, least_distance, orphan_held, orphans_distance, pairs_distance,
};
use crate::groups::{
    blocks_count, fits_tiles, group_test, holds_of, lemma_block_counts, lemma_body_len, pair_test,
    standard_body,
};
use crate::hand::{
    counts_of_tiles, insert_tile, kind_is, lemma_count_bounds, lemma_insert_members,
    lemma_insert_then_remove, lemma_total_counts, remove_tile, tile_count,
};
use crate::outcome::{distance_of, tile_of};
use crate::plan::{
    half_test, halves_in, is_plan_of, lemma_standard_distance, pairs_in, plan_block, plan_distance,
    plan_in_hand, standard_distance,
};
use crate::reading::{
    all_orphans, all_pairs, is_reading_of, is_seven_pairs, is_thirteen_orphans, like_at,
};
use crate::ready_set::{draw_spec, ready_wf};
use crate::tile::Tile;
use crate::tile_block::{BlockType, TileBlock};
use crate::tile_pattern::{tile_holds, Reading, TileTest};
use vstd::prelude::*;

verus! {

/// What is left of a group of a complete hand when the tile of kind
/// `k` is taken from it: of a triplet a pair, of a pair a single
/// tile, of a run its two other tiles.
pub open spec fn without(b: TileBlock, k: int) -> TileBlock {
    let f = b.first.id as int;
    match b.block_type {
        BlockType::Triplet => block_at(BlockType::Pair, f, f),
        BlockType::Sequence => if k == f {
            block_at(BlockType::Incompleted, f + 1, f + 2)
        } else if k == f + 1 {
            block_at(BlockType::Incompleted, f, f + 2)
        } else {
            block_at(BlockType::Incompleted, f, f + 1)
        },
        _ => block_at(BlockType::Orphan, f, f),
    }
}

/// A hand that the tile of kind `k` completes as four groups and a
/// pair is at the distance zero from that shape.
pub proof fn lemma_standard_wait(tiles: Seq<Tile>, k: int, blocks: Seq<TileBlock>)
    requires
        ready_wf(tiles),
        0 <= k < 34,
        standard_body(blocks, 4, 1),
        fits_tiles(blocks, insert_tile(tiles, tile_of(k))),
    ensures
        standard_distance(counts_of_tiles(tiles)) <= 0,
{
    let t = tile_of(k);
    let full = insert_tile(tiles, t);
    let counts = counts_of_tiles(tiles);
    lemma_insert_members(tiles, t);
    lemma_count_bounds(tiles, k);
    let f = holds_of(k);
    assert forall|m: int| 0 <= m < blocks.len() implies f(#[trigger] blocks[m]) >= 0 by {
        lemma_block_counts(blocks[m]);
    }
    assert(blocks_count(blocks, k) == tile_count(full, k));
    let j = lemma_sum_positive(blocks, f);
    let b = blocks[j];
    assert(b.wf() && (b.is_group() || b.is_pair()));
    lemma_block_counts(b);
    let nb = without(b, k);
    let plan = blocks.update(j, nb);
    assert(plan_block(nb));
    assert forall|m: int| 0 <= m < plan.len() implies plan_block(#[trigger] plan[m]) by {
        if m != j {
            assert(plan[m] == blocks[m]);
            assert(blocks[m].wf() && (blocks[m].is_group() || blocks[m].is_pair()));
        }
    }
    assert forall|m: int| 0 <= m < 34 implies blocks_count(plan, m) == #[trigger] counts[m] by {
        lemma_sum_update(blocks, j, nb, holds_of(m));
        assert(blocks_count(blocks, m) == tile_count(full, m));
        lemma_count_bounds(tiles, m);
        assert(nb.count_of(m) == b.count_of(m) - (if m == k {
            1int
        } else {
            0int
        }));
    }
    lemma_sum_update(blocks, j, nb, indicator(group_test()));
    lemma_sum_update(blocks, j, nb, indicator(pair_test()));
    lemma_body_len(blocks, 4, 1);
    lemma_halves_of_body(blocks);
    lemma_sum_update(blocks, j, nb, indicator(half_test()));
    lemma_total_counts(tiles);
    lemma_standard_distance(counts, 13);
    assert(is_plan_of(plan, counts) && plan_in_hand(plan));
    assert(plan_distance(plan) == 0);
}

/// Among triplets, runs and pairs the pairs are all that is not a
/// complete group.
pub proof fn lemma_halves_of_body(blocks: Seq<TileBlock>)
    requires
        forall|i: int|
            0 <= i < blocks.len() ==> (#[trigger] blocks[i]).is_group() || blocks[i].is_pair(),
    ensures
        halves_in(blocks) == pairs_in(blocks),
{
    let h = indicator(half_test());
    let p = indicator(pair_test());
    assert forall|i: int| 0 <= i < blocks.len() implies h(#[trigger] blocks[i]) == p(
        blocks[i],
    ) by {
        assert(blocks[i].is_group() || blocks[i].is_pair());
    }
    lemma_sum_same(blocks, h, p);
}

/// Kinds in rising order on which `p` holds are counted by the count
/// of the kinds on which `p` holds.
pub proof fn lemma_count_at_least(p: spec_fn(int) -> bool, found: Seq<int>, n: int)
    requires
        0 <= n <= 34,
        forall|i: int, j: int| 0 <= i < j < found.len() ==> found[i] < found[j],
        forall|i: int| 0 <= i < found.len() ==> 0 <= #[trigger] found[i] < n && p(found[i]),
    ensures
        count_by(kinds().subrange(0, n), p) >= found.len(),
    decreases n,
{
    let f = indicator(p);
    let upto = kinds().subrange(0, n);
    assert forall|i: int| 0 <= i < upto.len() implies f(#[trigger] upto[i]) >= 0 by {}
    lemma_sum_bounds(upto, f);
    if found.len() > 0 {
        assert(n > 0) by {
            assert(0 <= found[0] < n);
        }
        assert(upto.drop_last() =~= kinds().subrange(0, n - 1));
        assert(upto.last() == n - 1);
        if found.last() == n - 1 {
            let fewer = found.drop_last();
            assert forall|i: int| 0 <= i < fewer.len() implies 0 <= #[trigger] fewer[i] < n - 1
                && p(fewer[i]) by {
                assert(fewer[i] == found[i]);
                assert(found[i] < found[found.len() - 1]);
            }
            assert forall|i: int, j: int| 0 <= i < j < fewer.len() implies fewer[i]
                < fewer[j] by {
                assert(fewer[i] == found[i] && fewer[j] == found[j]);
            }
            lemma_count_at_least(p, fewer, n - 1);
            assert(p(found[found.len() - 1]));
        } else {
            assert forall|i: int| 0 <= i < found.len() implies 0 <= #[trigger] found[i] < n - 1
                && p(found[i]) by {
                if i < found.len() - 1 {
                    assert(found[i] < found[found.len() - 1]);
                }
            }
            lemma_count_at_least(p, found, n - 1);
        }
    }
}

/// A kind that stands at two places is counted at least twice.
pub proof fn lemma_two_places(tiles: Seq<Tile>, i: int, j: int)
    requires
        0 <= i < j < tiles.len(),
        tiles[i].id == tiles[j].id,
    ensures
        tile_count(tiles, tiles[i].id as int) >= 2,
{
    let k = tiles[i].id as int;
    let rest = tiles.remove(j);
    lemma_sum_remove(tiles, j, kind_is(k));
    assert(rest[i] == tiles[i]);
    lemma_count_bounds(rest, k);
}

/// A hand that a tile completes as seven pairs is at the distance
/// zero from seven pairs.
pub proof fn lemma_pairs_wait(tiles: Seq<Tile>, k: int)
    requires
        ready_wf(tiles),
        0 <= k < 34,
        is_seven_pairs(insert_tile(tiles, tile_of(k))),
    ensures
        pairs_distance(counts_of_tiles(tiles)) <= 0,
{
    let t = tile_of(k);
    let full = insert_tile(tiles, t);
    let counts = counts_of_tiles(tiles);
    lemma_insert_then_remove(tiles, t);
    lemma_insert_members(tiles, t);
    assert(full.len() == 14);
    let q = Seq::new(7, |i: int| full[2 * i].id as int);
    let j: int = if exists|m: int| 0 <= m < 7 && q[m] == k {
        choose|m: int| 0 <= m < 7 && q[m] == k
    } else {
        6
    };
    let found = Seq::new(
        6,
        |i: int|
            if i < j {
                q[i]
            } else {
                q[i + 1]
            },
    );
    assert forall|a: int, b: int| 0 <= a < b < 7 implies q[a] < q[b] by {
        assert(full[2 * a].id <= full[2 * a + 2].id);
        assert(!like_at(full, 2 * a, 2));
        assert(full[2 * a + 2].id <= full[2 * b].id);
    }
    assert forall|i: int| 0 <= i < 6 implies 0 <= #[trigger] found[i] < 34 && held(counts, 2)(
        found[i],
    ) by {
        let m = if i < j {
            i
        } else {
            i + 1
        };
        assert(found[i] == q[m]);
        assert(like_at(full, 2 * m, 1));
        lemma_two_places(full, 2 * m, 2 * m + 1);
        assert(q[m] != k) by {
            if q[m] == k {
                assert(q[j] == k);
                if m < j {
                    assert(q[m] < q[j]);
                } else {
                    assert(q[j] < q[m]);
                }
            }
        }
        assert(tile_count(full, q[m]) == tile_count(tiles, q[m]));
        lemma_count_bounds(tiles, q[m]);
        lemma_valid_kind(tiles, t, 2 * m);
    }
    assert forall|a: int, b: int| 0 <= a < b < 6 implies found[a] < found[b] by {
        let ma = if a < j {
            a
        } else {
            a + 1
        };
        let mb = if b < j {
            b
        } else {
            b + 1
        };
        assert(q[ma] < q[mb]);
    }
    lemma_count_at_least(held(counts, 2), found, 34);
    assert(kinds().subrange(0, 34) =~= kinds());
}

/// The tiles of a hand with a valid tile drawn are valid.
pub proof fn lemma_valid_kind(tiles: Seq<Tile>, t: Tile, i: int)
    requires
        ready_wf(tiles),
        t.valid(),
        0 <= i < insert_tile(tiles, t).len(),
    ensures
        insert_tile(tiles, t)[i].valid(),
{
    lemma_insert_members(tiles, t);
    let full = insert_tile(tiles, t);
    if full[i] != t {
        let m = choose|m: int| 0 <= m < tiles.len() && tiles[m] == full[i];
        assert(tiles[m].valid());
    }
}

/// A hand that a tile completes as thirteen orphans is at the
/// distance zero from thirteen orphans.
pub proof fn lemma_orphans_wait(tiles: Seq<Tile>, k: int)
    requires
        ready_wf(tiles),
        0 <= k < 34,
        is_thirteen_orphans(insert_tile(tiles, tile_of(k))),
    ensures
        orphans_distance(counts_of_tiles(tiles)) <= 0,
{
    let t = tile_of(k);
    let full = insert_tile(tiles, t);
    let counts = counts_of_tiles(tiles);
    lemma_insert_then_remove(tiles, t);
    lemma_insert_members(tiles, t);
    assert(full.len() == 14);
    let d = choose|d: int|
        0 <= d < full.len() - 1 && #[trigger] like_at(full, d, 1) && forall|j: int|
            0 <= j < full.len() - 1 && j != d ==> !#[trigger] like_at(full, j, 1);
    let at = |i: int|
        if i <= d {
            i
        } else {
            i + 1
        };
    let s = Seq::new(13, |i: int| full[at(i)].id as int);
    assert forall|a: int, b: int| 0 <= a < b < 13 implies s[a] < s[b] by {
        let pa = at(a);
        let pb = at(b);
        assert(pa < pb);
        assert(full[pa].id <= full[pa + 1].id);
        assert(full[pa + 1].id <= full[pb].id);
        if pa != d {
            assert(!like_at(full, pa, 1));
        } else {
            assert(pb >= d + 2);
            assert(!like_at(full, d + 1, 1));
            assert(full[d + 1].id <= full[d + 2].id);
            assert(full[d + 2].id <= full[pb].id);
        }
    }
    assert forall|i: int| 0 <= i < 13 implies 0 <= #[trigger] s[i] < 34 && tile_holds(
        TileTest::Yaochuu,
        s[i],
    ) && tile_count(full, s[i]) >= 1 by {
        lemma_valid_kind(tiles, t, at(i));
        assert(full[at(i)].is_yaochuu());
        lemma_count_bounds(full, s[i]);
        assert(full[at(i)].id == s[i]);
    }
    let twice = full[d].id as int;
    assert(s[d] == twice);
    assert(like_at(full, d, 1));
    lemma_two_places(full, d, d + 1);
    assert forall|m: int| 0 <= m < 34 implies #[trigger] counts[m] == tile_count(tiles, m) by {
        lemma_count_bounds(tiles, m);
    }
    if k == twice {
        assert forall|i: int| 0 <= i < 13 implies 0 <= #[trigger] s[i] < 34 && orphan_held(
            counts,
            1,
        )(s[i]) by {
            assert(tile_count(full, s[i]) >= 1);
            if s[i] == k {
                assert(i == d) by {
                    if i < d {
                        assert(s[i] < s[d]);
                    }
                    if i > d {
                        assert(s[d] < s[i]);
                    }
                }
            }
            assert(counts[s[i]] == tile_count(tiles, s[i]));
        }
        lemma_count_at_least(orphan_held(counts, 1), s, 34);
        let none = Seq::<int>::empty();
        lemma_count_at_least(orphan_held(counts, 2), none, 34);
    } else {
        assert(tile_count(full, k) == tile_count(tiles, k) + 1) by {
            assert(t.id == k);
        }
        lemma_count_bounds(tiles, k);
        lemma_count_bounds(full, k);
        let place = choose|m: int| 0 <= m < full.len() && (#[trigger] full[m]).id == k;
        assert(place != d && place != d + 1) by {
            assert(like_at(full, d, 1));
            assert(full[d] == full[d + 1]);
            assert(full[d].id == twice);
        }
        let j: int = if place <= d {
            place
        } else {
            place - 1
        };
        assert(s[j] == k);
        let found = Seq::new(
            12,
            |i: int|
                if i < j {
                    s[i]
                } else {
                    s[i + 1]
                },
        );
        assert forall|i: int| 0 <= i < 12 implies 0 <= #[trigger] found[i] < 34 && orphan_held(
            counts,
            1,
        )(found[i]) by {
            let m = if i < j {
                i
            } else {
                i + 1
            };
            assert(found[i] == s[m]);
            assert(tile_count(full, s[m]) >= 1);
            assert(s[m] != k) by {
                if m < j {
                    assert(s[m] < s[j]);
                } else {
                    assert(s[j] < s[m]);
                }
            }
            assert(counts[s[m]] == tile_count(tiles, s[m]));
        }
        assert forall|a: int, b: int| 0 <= a < b < 12 implies found[a] < found[b] by {
            let ma = if a < j {
                a
            } else {
                a + 1
            };
            let mb = if b < j {
                b
            } else {
                b + 1
            };
            assert(s[ma] < s[mb]);
        }
        lemma_count_at_least(orphan_held(counts, 1), found, 34);
        let pair = seq![twice];
        assert(0 <= s[d] < 34 && tile_holds(TileTest::Yaochuu, s[d]));
        assert(counts[twice] == tile_count(tiles, twice));
        assert(orphan_held(counts, 2)(twice));
        assert forall|i: int| 0 <= i < pair.len() implies 0 <= #[trigger] pair[i] < 34
            && orphan_held(counts, 2)(pair[i]) by {}
        lemma_count_at_least(orphan_held(counts, 2), pair, 34);
    }
    assert(kinds().subrange(0, 34) =~= kinds());
}

/// A hand that one draw completes is at the distance zero from the
/// shape that it is completed in, so that the lowest of its three
/// distances is not above zero.
pub proof fn lemma_wait_is_near(tiles: Seq<Tile>, k: int, r: Reading)
    requires
        ready_wf(tiles),
        0 <= k < 34,
        is_reading_of(draw_spec(tiles, tile_of(k)), r),
    ensures
        least_distance(tiles) <= 0,
{
    let full = draw_spec(tiles, tile_of(k));
    if is_thirteen_orphans(full.tiles) && all_orphans(r.blocks) {
        lemma_orphans_wait(tiles, k);
    } else if is_seven_pairs(full.tiles) && all_pairs(r.blocks) {
        lemma_pairs_wait(tiles, k);
    } else {
        lemma_standard_wait(tiles, k, r.blocks);
    }
}

/// A hand that draws a tile and puts the same tile down is the hand
/// that it was, so that a winning tile can be drawn and a tile be put
/// down without the distance of the hand rising.
pub proof fn lemma_draw_and_return(tiles: Seq<Tile>, k: int)
    requires
        ready_wf(tiles),
        0 <= k < 34,
    ensures
        remove_tile(draw_spec(tiles, tile_of(k)).tiles, tile_of(k)) == tiles,
        distance_of(remove_tile(draw_spec(tiles, tile_of(k)).tiles, tile_of(k))) <= distance_of(
            tiles,
        ),
{
    lemma_insert_then_remove(tiles, tile_of(k));
}

} // verus!
