//! Groups taken from counted tiles: what they hold, what is left, and
//! the order in which groups stand.

use crate::counting::{
    count_by, indicator, lemma_sum_bounds, lemma_sum_permutation, lemma_sum_positive,
    lemma_sum_push, lemma_sum_remove, lemma_sum_update, sum_by,
};
use crate::hand::{as_int, counts_match, lemma_total_zero, tile_count, total};
use crate::reading::{all_orphans, all_pairs};
use crate::tile::Tile;
use crate::tile_block::{lemma_code_injective, BlockType, TileBlock};
use crate::tile_pattern::tiles_in;
use vstd::prelude::*;
use vstd::relations::{sorted_by, total_ordering};

verus! {

/// How many tiles of kind `k` a group holds, as a function of the
/// group.
pub open spec fn holds_of(k: int) -> spec_fn(TileBlock) -> int {
    |b: TileBlock| b.count_of(k)
}

/// How many tiles of kind `k` the groups hold.
pub open spec fn blocks_count(blocks: Seq<TileBlock>, k: int) -> int {
    sum_by(blocks, holds_of(k))
}

/// The groups hold exactly the tiles that the counts give.
pub open spec fn fits(blocks: Seq<TileBlock>, counts: Seq<u8>) -> bool {
    forall|k: int| 0 <= k < 34 ==> blocks_count(blocks, k) == #[trigger] counts[k]
}

/// A triplet or a run.
pub open spec fn group_test() -> spec_fn(TileBlock) -> bool {
    |b: TileBlock| b.is_group()
}

/// A pair.
pub open spec fn pair_test() -> spec_fn(TileBlock) -> bool {
    |b: TileBlock| b.is_pair()
}

/// Valid groups of which `g` are triplets or runs and `p` are pairs,
/// and none is anything else.
pub open spec fn standard_body(blocks: Seq<TileBlock>, g: int, p: int) -> bool {
    &&& forall|i: int|
        0 <= i < blocks.len() ==> (#[trigger] blocks[i]).wf() && (blocks[i].is_group()
            || blocks[i].is_pair())
    &&& count_by(blocks, group_test()) == g
    &&& count_by(blocks, pair_test()) == p
}

/// The counts once the tiles of a group are taken from them.
pub open spec fn counts_minus(counts: Seq<u8>, b: TileBlock) -> Seq<u8> {
    Seq::new(34, |k: int| (counts[k] - b.count_of(k)) as u8)
}

/// The group can be taken from the counts.
pub open spec fn can_take(counts: Seq<u8>, b: TileBlock) -> bool {
    forall|k: int| 0 <= k < 34 ==> b.count_of(k) <= #[trigger] counts[k]
}

/// A valid group holds as many tiles as its shape says, all of them
/// among the 34 kinds.
pub proof fn lemma_block_counts(b: TileBlock)
    requires
        b.wf(),
    ensures
        forall|k: int| b.count_of(k) >= 0,
        forall|k: int| b.count_of(k) > 0 ==> 0 <= k < 34,
        !b.is_incompleted() ==> forall|k: int| b.count_of(k) > 0 ==> b.first.id <= k,
        b.count_of(b.first.id as int) > 0,
{
}

/// No count of groups is negative.
pub proof fn lemma_blocks_count_bounds(blocks: Seq<TileBlock>, k: int)
    requires
        forall|i: int| 0 <= i < blocks.len() ==> (#[trigger] blocks[i]).wf(),
    ensures
        blocks_count(blocks, k) >= 0,
        forall|i: int| 0 <= i < blocks.len() ==> (#[trigger] blocks[i]).count_of(k) <= blocks_count(
            blocks,
            k,
        ),
{
    let f = holds_of(k);
    assert forall|i: int| 0 <= i < blocks.len() implies f(#[trigger] blocks[i]) >= 0 by {
        lemma_block_counts(blocks[i]);
    }
    lemma_sum_bounds(blocks, f);
    assert forall|i: int| 0 <= i < blocks.len() implies (#[trigger] blocks[i]).count_of(k)
        <= blocks_count(blocks, k) by {
        assert(f(blocks[i]) <= sum_by(blocks, f));
    }
}

/// Groups that are each a triplet, a run or a pair number as many as
/// their triplets, runs and pairs together.
pub proof fn lemma_body_len(blocks: Seq<TileBlock>, g: int, p: int)
    requires
        standard_body(blocks, g, p),
    ensures
        blocks.len() == g + p,
        g >= 0,
        p >= 0,
    decreases blocks.len(),
{
    if blocks.len() > 0 {
        let front = blocks.drop_last();
        let last = blocks.last();
        let fg = indicator(group_test());
        let fp = indicator(pair_test());
        assert(blocks[blocks.len() - 1].wf());
        assert forall|i: int| 0 <= i < front.len() implies (#[trigger] front[i]).wf() && (
        front[i].is_group() || front[i].is_pair()) by {
            assert(front[i] == blocks[i]);
        }
        lemma_body_len(front, g - fg(last), p - fp(last));
    }
}

/// Taking a group out of a body lowers the count of its shape by one
/// and leaves a body.
pub proof fn lemma_body_remove(blocks: Seq<TileBlock>, g: int, p: int, i: int)
    requires
        standard_body(blocks, g, p),
        0 <= i < blocks.len(),
    ensures
        standard_body(
            blocks.remove(i),
            if blocks[i].is_group() {
                g - 1
            } else {
                g
            },
            if blocks[i].is_pair() {
                p - 1
            } else {
                p
            },
        ),
{
    let rest = blocks.remove(i);
    lemma_sum_remove(blocks, i, indicator(group_test()));
    lemma_sum_remove(blocks, i, indicator(pair_test()));
    assert forall|j: int| 0 <= j < rest.len() implies (#[trigger] rest[j]).wf() && (
    rest[j].is_group() || rest[j].is_pair()) by {
        if j < i {
            assert(rest[j] == blocks[j]);
        } else {
            assert(rest[j] == blocks[j + 1]);
        }
    }
}

/// Adding a group to a body raises the count of its shape by one.
pub proof fn lemma_body_push(blocks: Seq<TileBlock>, g: int, p: int, b: TileBlock)
    requires
        standard_body(blocks, g, p),
        b.wf(),
        b.is_group() || b.is_pair(),
    ensures
        standard_body(
            blocks.push(b),
            if b.is_group() {
                g + 1
            } else {
                g
            },
            if b.is_pair() {
                p + 1
            } else {
                p
            },
        ),
{
    let more = blocks.push(b);
    lemma_sum_push(blocks, b, indicator(group_test()));
    lemma_sum_push(blocks, b, indicator(pair_test()));
    assert forall|j: int| 0 <= j < more.len() implies (#[trigger] more[j]).wf() && (
    more[j].is_group() || more[j].is_pair()) by {
        if j < blocks.len() {
            assert(more[j] == blocks[j]);
        }
    }
}

/// In a body that holds exactly the counted tiles, some group begins
/// with the lowest kind that is left. It is a triplet, a run or a pair
/// of that kind, its tiles are there to take, and the other groups are
/// a body that holds exactly what is left then.
pub proof fn lemma_lowest_block(
    blocks: Seq<TileBlock>,
    counts: Seq<u8>,
    g: int,
    p: int,
    k: int,
) -> (i: int)
    requires
        standard_body(blocks, g, p),
        counts.len() == 34,
        fits(blocks, counts),
        0 <= k < 34,
        counts[k] > 0,
        forall|j: int| 0 <= j < k ==> counts[j] == 0,
    ensures
        0 <= i < blocks.len(),
        blocks[i].wf(),
        blocks[i].first.id == k,
        blocks[i].is_group() || blocks[i].is_pair(),
        can_take(counts, blocks[i]),
        fits(blocks.remove(i), counts_minus(counts, blocks[i])),
        standard_body(
            blocks.remove(i),
            if blocks[i].is_group() {
                g - 1
            } else {
                g
            },
            if blocks[i].is_pair() {
                p - 1
            } else {
                p
            },
        ),
        blocks.to_multiset() == blocks.remove(i).to_multiset().insert(blocks[i]),
{
    broadcast use vstd::multiset::group_multiset_axioms;
    broadcast use vstd::seq_lib::group_to_multiset_ensures;

    let f = holds_of(k);
    assert forall|j: int| 0 <= j < blocks.len() implies f(#[trigger] blocks[j]) >= 0 by {
        lemma_block_counts(blocks[j]);
    }
    assert(blocks_count(blocks, k) == counts[k]);
    let i = lemma_sum_positive(blocks, f);
    let b = blocks[i];
    assert(b.wf());
    lemma_block_counts(b);
    assert(b.count_of(k) > 0);
    let first = b.first.id as int;
    lemma_blocks_count_bounds(blocks, first);
    assert(b.count_of(first) <= blocks_count(blocks, first));
    assert(blocks_count(blocks, first) == counts[first]);
    assert(first == k);
    assert forall|j: int| 0 <= j < 34 implies b.count_of(j) <= #[trigger] counts[j] by {
        lemma_blocks_count_bounds(blocks, j);
        assert(blocks_count(blocks, j) == counts[j]);
    }
    let rest = blocks.remove(i);
    let left = counts_minus(counts, b);
    assert forall|j: int| 0 <= j < 34 implies blocks_count(rest, j) == #[trigger] left[j] by {
        lemma_sum_remove(blocks, i, holds_of(j));
        assert(blocks_count(blocks, j) == counts[j]);
        assert(b.count_of(j) <= counts[j]);
        lemma_block_counts(b);
    }
    lemma_body_remove(blocks, g, p, i);
    assert(blocks.to_multiset() =~= rest.to_multiset().insert(b)) by {
        assert(rest.to_multiset() =~= blocks.to_multiset().remove(b));
        assert(blocks.to_multiset().count(b) > 0) by {
            assert(blocks.contains(b));
        }
    }
    i
}

/// A body with one more group holds what the body held and the tiles
/// of the group.
pub proof fn lemma_fits_push(blocks: Seq<TileBlock>, counts: Seq<u8>, b: TileBlock)
    requires
        counts.len() == 34,
        b.wf(),
        can_take(counts, b),
        fits(blocks, counts_minus(counts, b)),
    ensures
        fits(blocks.push(b), counts),
{
    assert forall|k: int| 0 <= k < 34 implies blocks_count(blocks.push(b), k)
        == #[trigger] counts[k] by {
        lemma_sum_push(blocks, b, holds_of(k));
        assert(blocks_count(blocks, k) == counts_minus(counts, b)[k]);
        lemma_block_counts(b);
        assert(b.count_of(k) <= counts[k]);
    }
}

/// Takes the tiles of a group from the counts.
pub(crate) fn take_block(counts: &mut Vec<u8>, b: &TileBlock)
    requires
        old(counts)@.len() == 34,
        b.wf(),
        can_take(old(counts)@, *b),
    ensures
        final(counts)@ == counts_minus(old(counts)@, *b),
        total(final(counts)@) == total(old(counts)@) - b.len_spec(),
{
    let f: usize = b.first.id as usize;
    let ghost before = counts@;
    proof {
        lemma_block_counts(*b);
    }
    match b.block_type {
        BlockType::Triplet => {
            assert(b.count_of(f as int) == 3);
            proof {
                lemma_sum_update(before, f as int, (before[f as int] - 3) as u8, as_int());
            }
            let c: u8 = counts[f];
            counts.set(f, c - 3);
        },
        BlockType::Sequence => {
            assert(b.count_of(f as int) == 1);
            assert(b.count_of(f + 1) == 1);
            assert(b.count_of(f + 2) == 1);
            let c0: u8 = counts[f];
            proof {
                lemma_sum_update(counts@, f as int, (c0 - 1) as u8, as_int());
            }
            counts.set(f, c0 - 1);
            let c1: u8 = counts[f + 1];
            proof {
                lemma_sum_update(counts@, f + 1, (c1 - 1) as u8, as_int());
            }
            counts.set(f + 1, c1 - 1);
            let c2: u8 = counts[f + 2];
            proof {
                lemma_sum_update(counts@, f + 2, (c2 - 1) as u8, as_int());
            }
            counts.set(f + 2, c2 - 1);
        },
        BlockType::Pair => {
            assert(b.count_of(f as int) == 2);
            proof {
                lemma_sum_update(before, f as int, (before[f as int] - 2) as u8, as_int());
            }
            let c: u8 = counts[f];
            counts.set(f, c - 2);
        },
        BlockType::Incompleted => {
            let s: usize = b.second.id as usize;
            assert(b.count_of(f as int) >= 1);
            assert(b.count_of(s as int) >= 1);
            let c0: u8 = counts[f];
            proof {
                lemma_sum_update(counts@, f as int, (c0 - 1) as u8, as_int());
            }
            counts.set(f, c0 - 1);
            let c1: u8 = counts[s];
            proof {
                lemma_sum_update(counts@, s as int, (c1 - 1) as u8, as_int());
            }
            counts.set(s, c1 - 1);
        },
        BlockType::Orphan => {
            assert(b.count_of(f as int) == 1);
            let c: u8 = counts[f];
            proof {
                lemma_sum_update(before, f as int, (c - 1) as u8, as_int());
            }
            counts.set(f, c - 1);
        },
    }
    assert(counts@ =~= counts_minus(before, *b));
}

/// Gives the tiles of a group back to the counts they were taken
/// from.
pub(crate) fn give_block(counts: &mut Vec<u8>, b: &TileBlock, Ghost(whole): Ghost<Seq<u8>>)
    requires
        whole.len() == 34,
        b.wf(),
        can_take(whole, *b),
        old(counts)@ == counts_minus(whole, *b),
    ensures
        final(counts)@ == whole,
{
    let f: usize = b.first.id as usize;
    proof {
        lemma_block_counts(*b);
    }
    match b.block_type {
        BlockType::Triplet => {
            assert(b.count_of(f as int) == 3);
            let c: u8 = counts[f];
            counts.set(f, c + 3);
        },
        BlockType::Sequence => {
            assert(b.count_of(f as int) == 1);
            assert(b.count_of(f + 1) == 1);
            assert(b.count_of(f + 2) == 1);
            let c0: u8 = counts[f];
            counts.set(f, c0 + 1);
            let c1: u8 = counts[f + 1];
            counts.set(f + 1, c1 + 1);
            let c2: u8 = counts[f + 2];
            counts.set(f + 2, c2 + 1);
        },
        BlockType::Pair => {
            assert(b.count_of(f as int) == 2);
            let c: u8 = counts[f];
            counts.set(f, c + 2);
        },
        BlockType::Incompleted => {
            let s: usize = b.second.id as usize;
            assert(b.count_of(f as int) >= 1);
            assert(b.count_of(s as int) >= 1);
            let c0: u8 = counts[f];
            counts.set(f, c0 + 1);
            let c1: u8 = counts[s];
            counts.set(s, c1 + 1);
        },
        BlockType::Orphan => {
            assert(b.count_of(f as int) == 1);
            let c: u8 = counts[f];
            counts.set(f, c + 1);
        },
    }
    assert(counts@ =~= whole);
}

/// The lowest kind of which a tile is left.
pub fn lowest_kind(counts: &Vec<u8>) -> (k: usize)
    requires
        counts@.len() == 34,
        total(counts@) > 0,
    ensures
        k < 34,
        counts@[k as int] > 0,
        forall|j: int| 0 <= j < k ==> counts@[j] == 0,
{
    let mut k: usize = 0;
    while k < 34 && counts[k] == 0
        invariant
            k <= 34,
            counts@.len() == 34,
            forall|j: int| 0 <= j < k ==> counts@[j] == 0,
        decreases 34 - k,
    {
        k += 1;
    }
    proof {
        if k == 34 {
            lemma_total_zero(counts@);
        }
    }
    k
}

/// The order of groups as a relation: `a` stands before `b` or is `b`.
pub open spec fn code_leq() -> spec_fn(TileBlock, TileBlock) -> bool {
    |a: TileBlock, b: TileBlock| a.code() <= b.code()
}

/// The groups stand in their order.
pub open spec fn blocks_sorted(blocks: Seq<TileBlock>) -> bool {
    sorted_by(blocks, code_leq())
}

/// The order of groups is a total order.
pub proof fn lemma_code_order()
    ensures
        total_ordering(code_leq()),
{
    let r = code_leq();
    assert forall|x: TileBlock, y: TileBlock| #[trigger] r(x, y) && #[trigger] r(y, x) implies x
        == y by {
        lemma_code_injective(x, y);
    }
}

/// Sorted groups that hold the same groups equally often are the same
/// groups.
pub proof fn lemma_sorted_blocks_unique(a: Seq<TileBlock>, b: Seq<TileBlock>)
    requires
        blocks_sorted(a),
        blocks_sorted(b),
        a.to_multiset() == b.to_multiset(),
    ensures
        a == b,
{
    lemma_code_order();
    vstd::seq_lib::lemma_sorted_unique(a, b, code_leq());
}

/// The groups in their order.
pub fn sort_blocks(blocks: &Vec<TileBlock>) -> (r: Vec<TileBlock>)
    requires
        forall|i: int| 0 <= i < blocks@.len() ==> (#[trigger] blocks@[i]).wf(),
    ensures
        r@.to_multiset() == blocks@.to_multiset(),
        blocks_sorted(r@),
        forall|i: int| 0 <= i < r@.len() ==> (#[trigger] r@[i]).wf(),
        forall|i: int| 0 <= i < r@.len() ==> blocks@.contains(#[trigger] r@[i]),
{
    broadcast use vstd::seq_lib::group_to_multiset_ensures;

    let mut out: Vec<TileBlock> = Vec::new();
    let mut i: usize = 0;
    assert(blocks@.subrange(0, 0) =~= Seq::<TileBlock>::empty());
    while i < blocks.len()
        invariant
            i <= blocks@.len(),
            forall|m: int| 0 <= m < blocks@.len() ==> (#[trigger] blocks@[m]).wf(),
            out@.to_multiset() == blocks@.subrange(0, i as int).to_multiset(),
            blocks_sorted(out@),
            forall|m: int| 0 <= m < out@.len() ==> (#[trigger] out@[m]).wf(),
            forall|m: int| 0 <= m < out@.len() ==> blocks@.contains(#[trigger] out@[m]),
        decreases blocks@.len() - i,
    {
        let b = blocks[i];
        let key: u64 = b.order_key();
        let mut j: usize = 0;
        while j < out.len() && out[j].order_key() <= key
            invariant
                j <= out@.len(),
                key == b.code(),
                forall|m: int| 0 <= m < out@.len() ==> (#[trigger] out@[m]).wf(),
                forall|m: int| 0 <= m < j ==> (#[trigger] out@[m]).code() <= key,
            decreases out@.len() - j,
        {
            j += 1;
        }
        let ghost before = out@;
        out.insert(j, b);
        proof {
            assert(blocks@.subrange(0, i as int).push(b) =~= blocks@.subrange(0, i + 1));
            vstd::seq_lib::to_multiset_build(blocks@.subrange(0, i as int), b);
            vstd::seq_lib::to_multiset_insert(before, j as int, b);
            assert(out@ == before.insert(j as int, b));
            let r = code_leq();
            assert forall|x: int, y: int| 0 <= x < y < out@.len() implies #[trigger] r(
                out@[x],
                out@[y],
            ) by {
                if x == j {
                    assert(r(before[j as int], before[y - 1]) || y - 1 == j);
                } else if y == j {
                } else if x < j && y > j {
                    assert(r(before[x], before[y - 1]));
                } else if x < j {
                    assert(r(before[x], before[y]));
                } else {
                    assert(r(before[x - 1], before[y - 1]));
                }
            }
            assert forall|m: int| 0 <= m < out@.len() implies (#[trigger] out@[m]).wf()
                && blocks@.contains(out@[m]) by {
                if m < j {
                    assert(out@[m] == before[m]);
                } else if m > j {
                    assert(out@[m] == before[m - 1]);
                } else {
                    assert(blocks@[i as int] == b);
                }
            }
        }
        i += 1;
    }
    assert(blocks@.subrange(0, i as int) =~= blocks@);
    out
}

/// The groups hold exactly the given tiles.
pub open spec fn fits_tiles(blocks: Seq<TileBlock>, tiles: Seq<Tile>) -> bool {
    forall|k: int| 0 <= k < 34 ==> blocks_count(blocks, k) == tile_count(tiles, k)
}

/// The tiles of single tiles, of pairs, and of triplets, runs and
/// pairs number what their shapes say.
pub proof fn lemma_tiles_in(blocks: Seq<TileBlock>)
    ensures
        all_orphans(blocks) ==> tiles_in(blocks) == blocks.len(),
        all_pairs(blocks) ==> tiles_in(blocks) == 2 * blocks.len(),
        forall|g: int, p: int| #[trigger] standard_body(blocks, g, p) ==> tiles_in(blocks) == 3 * g + 2 * p,
    decreases blocks.len(),
{
    if blocks.len() > 0 {
        let front = blocks.drop_last();
        let last = blocks.last();
        lemma_tiles_in(front);
        assert(blocks[blocks.len() - 1] == last);
        if all_orphans(blocks) {
            assert forall|i: int| 0 <= i < front.len() implies (#[trigger] front[i]).is_orphan() by {
                assert(front[i] == blocks[i]);
            }
        }
        if all_pairs(blocks) {
            assert forall|i: int| 0 <= i < front.len() implies (#[trigger] front[i]).is_pair() by {
                assert(front[i] == blocks[i]);
            }
        }
        assert forall|g: int, p: int| #[trigger] standard_body(blocks, g, p) implies tiles_in(
            blocks,
        ) == 3 * g + 2 * p by {
            lemma_body_remove(blocks, g, p, blocks.len() - 1);
            assert(blocks.remove(blocks.len() - 1) =~= front);
        }
    }
}

/// A body stays a body, and holds the same tiles, in any other order
/// of its groups.
pub proof fn lemma_body_permutation(
    a: Seq<TileBlock>,
    b: Seq<TileBlock>,
    g: int,
    p: int,
    tiles: Seq<Tile>,
)
    requires
        standard_body(a, g, p),
        fits_tiles(a, tiles),
        a.to_multiset() == b.to_multiset(),
        forall|i: int| 0 <= i < b.len() ==> a.contains(#[trigger] b[i]),
    ensures
        standard_body(b, g, p),
        fits_tiles(b, tiles),
{
    lemma_sum_permutation(a, b, indicator(group_test()));
    lemma_sum_permutation(a, b, indicator(pair_test()));
    assert forall|i: int| 0 <= i < b.len() implies (#[trigger] b[i]).wf() && (b[i].is_group()
        || b[i].is_pair()) by {
        assert(a.contains(b[i]));
        let m = choose|m: int| 0 <= m < a.len() && a[m] == b[i];
        assert(a[m].wf());
    }
    assert forall|k: int| 0 <= k < 34 implies blocks_count(b, k) == tile_count(tiles, k) by {
        lemma_sum_permutation(a, b, holds_of(k));
    }
}

/// Groups that hold the counted tiles hold the tiles that were
/// counted.
pub proof fn lemma_fits_tiles(blocks: Seq<TileBlock>, counts: Seq<u8>, tiles: Seq<Tile>)
    requires
        counts_match(counts, tiles),
        fits(blocks, counts),
    ensures
        fits_tiles(blocks, tiles),
{
    assert forall|k: int| 0 <= k < 34 implies blocks_count(blocks, k) == tile_count(tiles, k) by {
        assert(blocks_count(blocks, k) == counts[k]);
    }
}

/// Groups that hold the tiles hold what the count of the tiles gives.
pub proof fn lemma_fits_counts(blocks: Seq<TileBlock>, counts: Seq<u8>, tiles: Seq<Tile>)
    requires
        counts_match(counts, tiles),
        fits_tiles(blocks, tiles),
    ensures
        fits(blocks, counts),
{
    assert forall|k: int| 0 <= k < 34 implies blocks_count(blocks, k) == #[trigger] counts[k] by {
        assert(blocks_count(blocks, k) == tile_count(tiles, k));
    }
}

} // verus!
