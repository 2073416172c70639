//! Plans for thirteen tiles: groups, halves of groups and single
//! tiles that hold them, and the distance from four groups and a pair
//! that the best plan gives.

use crate::counting::{
    count_by, indicator, lemma_sum_bounds, lemma_sum_le, lemma_sum_positive, lemma_sum_push,
    lemma_sum_remove, sum_by,
};
use crate::distance::{
    block_at, first_from, in_hand, lemma_first_from, lemma_total_minus, search_on, standard_search,
    step_value, steps_of,
};
use crate::groups::{
    blocks_count, can_take, counts_minus, fits, group_test, holds_of, lemma_block_counts,
    lemma_fits_push, pair_test,
};
use crate::hand::{as_int, lemma_total_is_zero, total};
use crate::outcome::tile_of;
use crate::tile_block::{BlockType, TileBlock};
use vstd::prelude::*;

verus! {

/// A valid group whose lowest tile comes first.
pub open spec fn plan_block(b: TileBlock) -> bool {
    b.wf() && (b.is_incompleted() ==> b.first.id < b.second.id)
}

/// Groups, complete or not, and single tiles, each with its lowest
/// tile first.
pub open spec fn is_plan(blocks: Seq<TileBlock>) -> bool {
    forall|i: int| 0 <= i < blocks.len() ==> plan_block(#[trigger] blocks[i])
}

/// A pair, or two tiles that may become a group.
pub open spec fn half_test() -> spec_fn(TileBlock) -> bool {
    |b: TileBlock| b.is_pair() || b.is_incompleted()
}

/// The number of triplets and runs among the groups.
pub open spec fn groups_in(blocks: Seq<TileBlock>) -> int {
    count_by(blocks, group_test())
}

/// The number of pairs and incomplete groups among the groups.
pub open spec fn halves_in(blocks: Seq<TileBlock>) -> int {
    count_by(blocks, half_test())
}

/// The number of pairs among the groups.
pub open spec fn pairs_in(blocks: Seq<TileBlock>) -> int {
    count_by(blocks, pair_test())
}

/// The plan holds exactly the counted tiles.
pub open spec fn is_plan_of(plan: Seq<TileBlock>, counts: Seq<u8>) -> bool {
    is_plan(plan) && fits(plan, counts)
}

/// The groups and halves of the plan, but for one pair, are no more
/// than the four groups of a hand.
pub open spec fn plan_in_hand(plan: Seq<TileBlock>) -> bool {
    in_hand(groups_in(plan), halves_in(plan), pairs_in(plan) > 0)
}

/// The distance that the plan leaves: eight, less two for every
/// triplet or run and one for every pair or incomplete group.
pub open spec fn plan_distance(plan: Seq<TileBlock>) -> int {
    8 - 2 * groups_in(plan) - halves_in(plan)
}

/// `d` is the distance of the counted tiles from four groups and a
/// pair: the distance that the best of their plans leaves.
pub open spec fn is_standard_distance(counts: Seq<u8>, d: int) -> bool {
    &&& exists|plan: Seq<TileBlock>| #[trigger]
        is_plan_of(plan, counts) && plan_in_hand(plan) && plan_distance(plan) == d
    &&& forall|plan: Seq<TileBlock>| #[trigger]
        is_plan_of(plan, counts) && plan_in_hand(plan) ==> d <= plan_distance(plan)
}

/// The distance of the counted tiles from four groups and a pair.
pub open spec fn standard_distance(counts: Seq<u8>) -> int {
    choose|d: int| is_standard_distance(counts, d)
}

/// The counts of a plan are not negative, and it has no more pairs
/// than pairs and incomplete groups together.
pub proof fn lemma_plan_counts(blocks: Seq<TileBlock>)
    ensures
        0 <= groups_in(blocks),
        0 <= pairs_in(blocks) <= halves_in(blocks),
{
    let g = indicator(group_test());
    let h = indicator(half_test());
    let p = indicator(pair_test());
    assert forall|i: int| 0 <= i < blocks.len() implies g(#[trigger] blocks[i]) >= 0 by {}
    assert forall|i: int| 0 <= i < blocks.len() implies p(#[trigger] blocks[i]) >= 0 by {}
    assert forall|i: int| 0 <= i < blocks.len() implies p(#[trigger] blocks[i]) <= h(
        blocks[i],
    ) by {}
    lemma_sum_bounds(blocks, g);
    lemma_sum_bounds(blocks, p);
    lemma_sum_le(blocks, p, h);
}

/// In a plan that holds exactly the counted tiles, some group begins
/// with the lowest kind that is left; its tiles are there to take,
/// and the rest is a plan that holds exactly what is left then.
pub proof fn lemma_lowest_of_plan(blocks: Seq<TileBlock>, counts: Seq<u8>, k: int) -> (i: int)
    requires
        is_plan(blocks),
        counts.len() == 34,
        fits(blocks, counts),
        0 <= k < 34,
        counts[k] > 0,
        forall|j: int| 0 <= j < k ==> counts[j] == 0,
    ensures
        0 <= i < blocks.len(),
        plan_block(blocks[i]),
        blocks[i].first.id == k,
        can_take(counts, blocks[i]),
        fits(blocks.remove(i), counts_minus(counts, blocks[i])),
        is_plan(blocks.remove(i)),
        groups_in(blocks.remove(i)) == groups_in(blocks) - (if blocks[i].is_group() {
            1int
        } else {
            0int
        }),
        halves_in(blocks.remove(i)) == halves_in(blocks) - (if blocks[i].is_pair()
            || blocks[i].is_incompleted() {
            1int
        } else {
            0int
        }),
        pairs_in(blocks.remove(i)) == pairs_in(blocks) - (if blocks[i].is_pair() {
            1int
        } else {
            0int
        }),
{
    let f = holds_of(k);
    assert forall|j: int| 0 <= j < blocks.len() implies f(#[trigger] blocks[j]) >= 0 by {
        assert(plan_block(blocks[j]));
        lemma_block_counts(blocks[j]);
    }
    assert(blocks_count(blocks, k) == counts[k]);
    let i = lemma_sum_positive(blocks, f);
    let b = blocks[i];
    assert(plan_block(b));
    lemma_block_counts(b);
    let first = b.first.id as int;
    assert forall|j: int| 0 <= j < 34 implies b.count_of(j) <= #[trigger] counts[j] by {
        let fj = holds_of(j);
        assert forall|m: int| 0 <= m < blocks.len() implies fj(#[trigger] blocks[m]) >= 0 by {
            assert(plan_block(blocks[m]));
            lemma_block_counts(blocks[m]);
        }
        lemma_sum_bounds(blocks, fj);
        assert(fj(blocks[i]) <= sum_by(blocks, fj));
        assert(blocks_count(blocks, j) == counts[j]);
    }
    assert(b.count_of(first) > 0);
    assert(counts[first] > 0);
    assert(first <= k);
    assert(first == k);
    let rest = blocks.remove(i);
    let left = counts_minus(counts, b);
    assert forall|j: int| 0 <= j < 34 implies blocks_count(rest, j) == #[trigger] left[j] by {
        lemma_sum_remove(blocks, i, holds_of(j));
        assert(blocks_count(blocks, j) == counts[j]);
        assert(b.count_of(j) <= counts[j]);
    }
    assert forall|j: int| 0 <= j < rest.len() implies plan_block(#[trigger] rest[j]) by {
        if j < i {
            assert(rest[j] == blocks[j]);
        } else {
            assert(rest[j] == blocks[j + 1]);
        }
    }
    lemma_sum_remove(blocks, i, indicator(group_test()));
    lemma_sum_remove(blocks, i, indicator(half_test()));
    lemma_sum_remove(blocks, i, indicator(pair_test()));
    i
}

/// The search finds every plan: from a state whose tiles a plan holds
/// exactly, it reaches the distance that the plan gives, as long as
/// the plan does not make more groups than a hand has.
pub proof fn lemma_search_finds(
    counts: Seq<u8>,
    depth: nat,
    c: int,
    i: int,
    p: bool,
    plan: Seq<TileBlock>,
)
    requires
        counts.len() == 34,
        is_plan(plan),
        fits(plan, counts),
        depth >= plan.len(),
        c >= 0,
        i >= 0,
        in_hand(c + groups_in(plan), i + halves_in(plan), p || pairs_in(plan) > 0),
    ensures
        standard_search(counts, depth, c, i, p) <= 8 - 2 * (c + groups_in(plan)) - (i + halves_in(
            plan,
        )),
    decreases plan.len(),
{
    lemma_plan_counts(plan);
    lemma_first_from(counts, 0);
    let k = first_from(counts, 0);
    assert(in_hand(c, i, p));
    if plan.len() == 0 {
        if k < 34 {
            assert(blocks_count(plan, k) == counts[k]);
        }
    } else {
        let b0 = plan[0];
        assert(plan_block(b0));
        lemma_block_counts(b0);
        let f0 = b0.first.id as int;
        let ff = holds_of(f0);
        assert forall|m: int| 0 <= m < plan.len() implies ff(#[trigger] plan[m]) >= 0 by {
            assert(plan_block(plan[m]));
            lemma_block_counts(plan[m]);
        }
        lemma_sum_bounds(plan, ff);
        assert(ff(plan[0]) <= sum_by(plan, ff));
        assert(blocks_count(plan, f0) == counts[f0]);
        assert(counts[f0] > 0);
        assert(k < 34);
        let j = lemma_lowest_of_plan(plan, counts, k);
        let b = plan[j];
        let rest = plan.remove(j);
        let left = counts_minus(counts, b);
        let d = (depth - 1) as nat;
        lemma_plan_counts(rest);
        lemma_block_counts(b);
        lemma_first_from(counts, k + 1);
        let k2 = first_from(counts, k + 1);
        lemma_first_from(counts, k2 + 1);
        let k3 = first_from(counts, k2 + 1);
        assert(b.first == tile_of(k));
        let target = 8 - 2 * (c + groups_in(plan)) - (i + halves_in(plan));
        match b.block_type {
            BlockType::Triplet => {
                assert(b == block_at(BlockType::Triplet, k, k));
                assert(b.count_of(k) == 3);
                lemma_search_finds(left, d, c + 1, i, p, rest);
                assert(search_on(counts, d, c, i, p) <= target);
            },
            BlockType::Sequence => {
                assert(b == block_at(BlockType::Sequence, k, k));
                assert(b.count_of(k + 1) == 1);
                assert(b.count_of(k + 2) == 1);
                assert(counts[k + 1] > 0);
                assert(counts[k + 2] > 0);
                assert(k2 == k + 1);
                assert(k3 == k + 2);
                lemma_search_finds(left, d, c + 1, i, p, rest);
                assert(search_on(counts, d, c, i, p) <= target);
            },
            BlockType::Pair => {
                assert(b == block_at(BlockType::Pair, k, k));
                assert(b.count_of(k) == 2);
                lemma_search_finds(left, d, c, i + 1, true, rest);
                assert(search_on(counts, d, c, i, p) <= target);
            },
            BlockType::Incompleted => {
                let s = b.second.id as int;
                assert(s == k + 1 || s == k + 2);
                assert(b.count_of(s) == 1);
                assert(counts[s] > 0);
                assert(b == block_at(BlockType::Incompleted, k, s));
                lemma_search_finds(left, d, c, i + 1, p, rest);
                if s == k2 {
                    assert(search_on(counts, d, c, i, p) <= target);
                } else {
                    assert(k2 == k + 1);
                    assert(k3 == s);
                    assert(search_on(counts, d, c, i, p) <= target);
                }
            },
            BlockType::Orphan => {
                assert(b == block_at(BlockType::Orphan, k, k));
                lemma_search_finds(left, d, c, i, p, rest);
                assert(search_on(counts, d, c, i, p) <= target);
            },
        }
    }
}

/// The tiles that are left, each as a single tile.
pub open spec fn singles(counts: Seq<u8>, n: nat) -> Seq<TileBlock>
    decreases n,
{
    let k = first_from(counts, 0);
    if n == 0 || k >= 34 {
        Seq::empty()
    } else {
        singles(counts_minus(counts, block_at(BlockType::Orphan, k, k)), (n - 1) as nat).push(
            block_at(BlockType::Orphan, k, k),
        )
    }
}

/// The tiles that are left, each as a single tile, are a plan without
/// groups.
pub proof fn lemma_singles(counts: Seq<u8>, n: nat)
    requires
        counts.len() == 34,
        n >= total(counts),
    ensures
        is_plan_of(singles(counts, n), counts),
        groups_in(singles(counts, n)) == 0,
        halves_in(singles(counts, n)) == 0,
        pairs_in(singles(counts, n)) == 0,
    decreases n,
{
    let k = first_from(counts, 0);
    lemma_first_from(counts, 0);
    lemma_sum_bounds(counts, as_int());
    if n == 0 {
        lemma_total_is_zero(counts);
    }
    if n == 0 || k >= 34 {
        let none = Seq::<TileBlock>::empty();
        assert(singles(counts, n) =~= none);
        assert forall|j: int| 0 <= j < 34 implies blocks_count(none, j) == #[trigger] counts[j] by {}
    } else {
        let b = block_at(BlockType::Orphan, k, k);
        assert(b.wf());
        lemma_block_counts(b);
        assert forall|j: int| 0 <= j < 34 implies b.count_of(j) <= #[trigger] counts[j] by {}
        lemma_total_minus(counts, b);
        let left = counts_minus(counts, b);
        lemma_singles(left, (n - 1) as nat);
        let rest = singles(left, (n - 1) as nat);
        lemma_fits_push(rest, counts, b);
        lemma_sum_push(rest, b, indicator(group_test()));
        lemma_sum_push(rest, b, indicator(half_test()));
        lemma_sum_push(rest, b, indicator(pair_test()));
        let plan = rest.push(b);
        assert forall|m: int| 0 <= m < plan.len() implies plan_block(#[trigger] plan[m]) by {
            if m < rest.len() {
                assert(plan[m] == rest[m]);
            }
        }
    }
}

/// The steps that the search can take are groups of a plan whose
/// tiles are there to take.
pub proof fn lemma_steps(counts: Seq<u8>)
    requires
        counts.len() == 34,
        first_from(counts, 0) < 34,
    ensures
        steps_of(counts).triplet matches Some(b) ==> plan_block(b) && can_take(counts, b)
            && b.is_triplet(),
        steps_of(counts).run matches Some(b) ==> plan_block(b) && can_take(counts, b)
            && b.is_sequence(),
        steps_of(counts).pair matches Some(b) ==> plan_block(b) && can_take(counts, b)
            && b.is_pair(),
        steps_of(counts).near matches Some(b) ==> plan_block(b) && can_take(counts, b)
            && b.is_incompleted(),
        steps_of(counts).far matches Some(b) ==> plan_block(b) && can_take(counts, b)
            && b.is_incompleted(),
        steps_of(counts).aside matches Some(b) && plan_block(b) && can_take(counts, b)
            && b.is_orphan(),
{
    let k = first_from(counts, 0);
    lemma_first_from(counts, 0);
    lemma_first_from(counts, k + 1);
    let k2 = first_from(counts, k + 1);
    lemma_first_from(counts, k2 + 1);
    let k3 = first_from(counts, k2 + 1);
    let steps = steps_of(counts);
    if let Some(b) = steps.triplet {
        lemma_block_counts(b);
        assert forall|j: int| 0 <= j < 34 implies b.count_of(j) <= #[trigger] counts[j] by {}
    }
    if let Some(b) = steps.run {
        lemma_block_counts(b);
        assert forall|j: int| 0 <= j < 34 implies b.count_of(j) <= #[trigger] counts[j] by {}
    }
    if let Some(b) = steps.pair {
        lemma_block_counts(b);
        assert forall|j: int| 0 <= j < 34 implies b.count_of(j) <= #[trigger] counts[j] by {}
    }
    if let Some(b) = steps.near {
        assert(b.wf());
        lemma_block_counts(b);
        assert forall|j: int| 0 <= j < 34 implies b.count_of(j) <= #[trigger] counts[j] by {}
    }
    if let Some(b) = steps.far {
        assert(b.wf());
        lemma_block_counts(b);
        assert forall|j: int| 0 <= j < 34 implies b.count_of(j) <= #[trigger] counts[j] by {}
    }
    if let Some(b) = steps.aside {
        lemma_block_counts(b);
        assert forall|j: int| 0 <= j < 34 implies b.count_of(j) <= #[trigger] counts[j] by {}
    }
}

/// A plan and a group beside it: what the group adds to the counts of
/// the plan.
pub proof fn lemma_plan_push(rest: Seq<TileBlock>, b: TileBlock)
    requires
        is_plan(rest),
        plan_block(b),
    ensures
        is_plan(rest.push(b)),
        groups_in(rest.push(b)) == groups_in(rest) + (if b.is_group() {
            1int
        } else {
            0int
        }),
        halves_in(rest.push(b)) == halves_in(rest) + (if b.is_pair() || b.is_incompleted() {
            1int
        } else {
            0int
        }),
        pairs_in(rest.push(b)) == pairs_in(rest) + (if b.is_pair() {
            1int
        } else {
            0int
        }),
{
    lemma_sum_push(rest, b, indicator(group_test()));
    lemma_sum_push(rest, b, indicator(half_test()));
    lemma_sum_push(rest, b, indicator(pair_test()));
    let plan = rest.push(b);
    assert forall|m: int| 0 <= m < plan.len() implies plan_block(#[trigger] plan[m]) by {
        if m < rest.len() {
            assert(plan[m] == rest[m]);
        }
    }
}

/// What the search finds is the distance of a plan: from a state with
/// no more groups than a hand has, it reaches a state that a plan of
/// the tiles leads to.
pub proof fn lemma_search_reaches(counts: Seq<u8>, depth: nat, c: int, i: int, p: bool) -> (plan:
    Seq<TileBlock>)
    requires
        counts.len() == 34,
        c >= 0,
        i >= 0,
        in_hand(c, i, p),
    ensures
        is_plan_of(plan, counts),
        in_hand(c + groups_in(plan), i + halves_in(plan), p || pairs_in(plan) > 0),
        standard_search(counts, depth, c, i, p) == 8 - 2 * (c + groups_in(plan)) - (i + halves_in(
            plan,
        )),
    decreases depth,
{
    let v = standard_search(counts, depth, c, i, p);
    let here = 8 - 2 * c - i;
    lemma_sum_bounds(counts, as_int());
    let n = total(counts) as nat;
    if depth == 0 || first_from(counts, 0) >= 34 || v == here {
        lemma_singles(counts, n);
        singles(counts, n)
    } else {
        let d = (depth - 1) as nat;
        let steps = steps_of(counts);
        lemma_steps(counts);
        assert(v == search_on(counts, d, c, i, p));
        assert(v < here);
        let (b, c2, i2, p2) = if step_value(counts, d, steps.triplet, c + 1, i, p) == v {
            (steps.triplet.unwrap(), c + 1, i, p)
        } else if step_value(counts, d, steps.run, c + 1, i, p) == v {
            (steps.run.unwrap(), c + 1, i, p)
        } else if step_value(counts, d, steps.pair, c, i + 1, true) == v {
            (steps.pair.unwrap(), c, i + 1, true)
        } else if step_value(counts, d, steps.near, c, i + 1, p) == v {
            (steps.near.unwrap(), c, i + 1, p)
        } else if step_value(counts, d, steps.far, c, i + 1, p) == v {
            (steps.far.unwrap(), c, i + 1, p)
        } else {
            (steps.aside.unwrap(), c, i, p)
        };
        let left = counts_minus(counts, b);
        assert(standard_search(left, d, c2, i2, p2) == v);
        assert(in_hand(c2, i2, p2));
        lemma_total_minus(counts, b);
        let rest = lemma_search_reaches(left, d, c2, i2, p2);
        lemma_fits_push(rest, counts, b);
        lemma_plan_push(rest, b);
        lemma_plan_counts(rest);
        rest.push(b)
    }
}

/// A plan has no more groups than there are tiles.
pub proof fn lemma_plan_len(plan: Seq<TileBlock>, counts: Seq<u8>)
    requires
        counts.len() == 34,
        is_plan_of(plan, counts),
    ensures
        plan.len() <= total(counts),
    decreases plan.len(),
{
    lemma_sum_bounds(counts, as_int());
    if plan.len() > 0 {
        let b = plan.last();
        let rest = plan.drop_last();
        assert(plan[plan.len() - 1] == b);
        assert(plan_block(b));
        lemma_block_counts(b);
        assert(rest.push(b) =~= plan);
        assert forall|j: int| 0 <= j < rest.len() implies plan_block(#[trigger] rest[j]) by {
            assert(rest[j] == plan[j]);
        }
        assert forall|j: int| 0 <= j < 34 implies b.count_of(j) <= #[trigger] counts[j]
            && blocks_count(rest, j) == counts[j] - b.count_of(j) by {
            lemma_sum_push(rest, b, holds_of(j));
            assert(blocks_count(plan, j) == counts[j]);
            let fj = holds_of(j);
            assert forall|m: int| 0 <= m < rest.len() implies fj(#[trigger] rest[m]) >= 0 by {
                assert(plan_block(rest[m]));
                lemma_block_counts(rest[m]);
            }
            lemma_sum_bounds(rest, fj);
        }
        let left = counts_minus(counts, b);
        assert forall|j: int| 0 <= j < 34 implies blocks_count(rest, j) == #[trigger] left[j] by {
            assert(b.count_of(j) <= counts[j]);
        }
        lemma_total_minus(counts, b);
        lemma_plan_len(rest, left);
    }
}

/// The search finds the distance of the counted tiles from four
/// groups and a pair: the distance that the best of their plans
/// leaves.
pub proof fn lemma_standard_distance(counts: Seq<u8>, depth: nat)
    requires
        counts.len() == 34,
        depth >= total(counts),
    ensures
        is_standard_distance(counts, standard_search(counts, depth, 0, 0, false)),
        standard_distance(counts) == standard_search(counts, depth, 0, 0, false),
{
    let v = standard_search(counts, depth, 0, 0, false);
    let best = lemma_search_reaches(counts, depth, 0, 0, false);
    assert(is_plan_of(best, counts) && plan_in_hand(best) && plan_distance(best) == v);
    assert forall|plan: Seq<TileBlock>| #[trigger]
        is_plan_of(plan, counts) && plan_in_hand(plan) implies v <= plan_distance(plan) by {
        lemma_plan_len(plan, counts);
        lemma_search_finds(counts, depth, 0, 0, false, plan);
    }
    assert(is_standard_distance(counts, v));
    let d = standard_distance(counts);
    assert(is_standard_distance(counts, d));
    let other = choose|plan: Seq<TileBlock>| #[trigger]
        is_plan_of(plan, counts) && plan_in_hand(plan) && plan_distance(plan) == d;
    assert(v <= plan_distance(other));
    assert(d <= plan_distance(best));
}

} // verus!
