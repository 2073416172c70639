//! What a hand that is not complete can become: the tiles to draw
//! first, and what a hand reached from there earns.

use crate::counting::{count_by, sum_by};
use crate::distance::{
    count_orphans, distance_by, kinds, least_distance, orphan_held, orphans_distance,
    pairs_distance, Shape,
};
use crate::hand::{counts_of_tiles, related_to, remove_tile};
use crate::lex::{insert_sorted, lex_lt, strictly_sorted};
use crate::plan::standard_distance;
use crate::ready_set::{draw_spec, ReadyTileSet};
use crate::tile::Tile;
use crate::tile_pattern::{tile_holds, TileTest};
use crate::yaku::{yaku_code, Yaku};
use vstd::prelude::*;

verus! {

/// The tile of kind `k`.
pub open spec fn tile_of(k: int) -> Tile {
    Tile { id: k as u8 }
}

/// A tile, and categories that it leads to.
pub type Outcome = (Tile, Seq<Yaku>);

/// What the hand earns with the tile of kind `k` drawn, or nothing
/// where that does not complete it.
pub open spec fn win_with(tiles: Seq<Tile>, k: int) -> Option<Seq<Yaku>> {
    draw_spec(tiles, tile_of(k)).score()
}

/// The tiles of the kinds below `k` that complete the hand, in order,
/// each with what the hand then earns.
pub open spec fn wins_upto(tiles: Seq<Tile>, k: int) -> Seq<Outcome>
    decreases k,
{
    if k <= 0 {
        Seq::empty()
    } else {
        let before = wins_upto(tiles, k - 1);
        match win_with(tiles, k - 1) {
            Some(y) => before.push((tile_of(k - 1), y)),
            None => before,
        }
    }
}

/// The hand is one draw from complete.
pub open spec fn is_tenpai(tiles: Seq<Tile>) -> bool {
    wins_upto(tiles, 34).len() > 0
}

/// The hand holds a tile that the tile of kind `k` is related to.
pub open spec fn effective(tiles: Seq<Tile>, k: int) -> bool {
    count_by(tiles, related_to(tile_of(k))) > 0
}

/// `e` is an outcome of the search from a hand at the distance `cur`
/// from the shape: the hand draws a tile that it holds a related tile
/// to; where that completes it, the outcome is what it earns, with
/// the first tile drawn on the way; where it does not and the
/// distance is not zero, the hand puts down a tile other than the one
/// just drawn so that the distance falls, and the search goes on from
/// there.
pub open spec fn reaches(
    tiles: Seq<Tile>,
    cur: nat,
    first: Option<Tile>,
    shape: Shape,
    e: Outcome,
) -> bool
    decreases cur, 3int, 0int,
{
    draws_upto(tiles, cur, first, shape, 34, e)
}

/// `e` is an outcome of the search by the draw of a tile of a kind
/// below `k`.
pub open spec fn draws_upto(
    tiles: Seq<Tile>,
    cur: nat,
    first: Option<Tile>,
    shape: Shape,
    k: int,
    e: Outcome,
) -> bool
    decreases cur, 2int, k,
{
    if k <= 0 {
        false
    } else {
        draws_upto(tiles, cur, first, shape, k - 1, e) || by_draw(
            tiles,
            cur,
            first,
            shape,
            k - 1,
            e,
        )
    }
}

/// The tile named first: `first` where there is one, else the tile
/// of kind `k`.
pub open spec fn first_or(first: Option<Tile>, k: int) -> Tile {
    match first {
        Some(t) => t,
        None => tile_of(k),
    }
}

/// `e` is an outcome of the search by the draw of the tile of kind
/// `k`.
pub open spec fn by_draw(
    tiles: Seq<Tile>,
    cur: nat,
    first: Option<Tile>,
    shape: Shape,
    k: int,
    e: Outcome,
) -> bool
    decreases cur, 1int, 0int,
{
    effective(tiles, k) && match win_with(tiles, k) {
        Some(y) => e == (first_or(first, k), y),
        None => cur > 0 && discards_upto(
            draw_spec(tiles, tile_of(k)).tiles,
            cur,
            first_or(first, k),
            shape,
            k,
            14,
            e,
        ),
    }
}

/// `e` is an outcome of the search by putting down one of the first
/// `j` tiles of the hand of fourteen, the tile of kind `k` having
/// been drawn.
pub open spec fn discards_upto(
    full: Seq<Tile>,
    cur: nat,
    first: Tile,
    shape: Shape,
    k: int,
    j: int,
    e: Outcome,
) -> bool
    decreases cur, 0int, j,
{
    if j <= 0 || cur == 0 {
        false
    } else {
        discards_upto(full, cur, first, shape, k, j - 1, e) || {
            let d = full[j - 1];
            let next = remove_tile(full, d);
            let m = distance_by(shape, next);
            d != tile_of(k) && 0 <= m < cur && reaches(next, m as nat, Some(first), shape, e)
        }
    }
}

/// `e` names a tile that brings the hand nearer to thirteen orphans,
/// and what the hand then aims at. A hand without two orphans alike
/// is helped by any orphan: one that it holds makes the pair, one
/// that it lacks leaves the wait on all thirteen. A hand with two
/// alike is helped by the orphans that it lacks.
pub open spec fn orphan_progress(counts: Seq<u8>, e: Outcome) -> bool {
    let k = e.0.id as int;
    &&& k < 34
    &&& tile_holds(TileTest::Yaochuu, k)
    &&& if count_by(kinds(), orphan_held(counts, 2)) == 0 {
        e.1 == (if counts[k] >= 1 {
            seq![Yaku::Kokushimusou]
        } else {
            seq![Yaku::Kokushimusou13]
        })
    } else {
        counts[k] == 0 && e.1 == seq![Yaku::Kokushimusou]
    }
}

/// `e` is an outcome for a hand at the distance `d` that is not one
/// draw from complete: an outcome of the search for each shape that
/// the hand is at that distance from.
pub open spec fn is_progress(tiles: Seq<Tile>, d: int, e: Outcome) -> bool {
    let counts = counts_of_tiles(tiles);
    ||| orphans_distance(counts) == d && orphan_progress(counts, e)
    ||| pairs_distance(counts) == d && reaches(tiles, d as nat, None, Shape::SevenPairs, e)
    ||| standard_distance(counts) == d && reaches(tiles, d as nat, None, Shape::Standard, e)
}

/// The distance that `check` gives: zero for a hand that is one draw
/// from complete, the lowest of the three distances for any other.
pub open spec fn distance_of(tiles: Seq<Tile>) -> int {
    if is_tenpai(tiles) {
        0
    } else {
        least_distance(tiles)
    }
}

/// The place of a category in the order of categories, as a number
/// of 64 bits.
pub open spec fn yaku_u64() -> spec_fn(Yaku) -> u64 {
    |y: Yaku| yaku_code(y) as u64
}

/// The key by which outcomes are ordered: the tile, then the
/// categories one by one.
pub open spec fn outcome_key(e: Outcome) -> Seq<u64> {
    seq![e.0.id as u64] + e.1.map_values(yaku_u64())
}

/// What an entry is.
pub open spec fn outcome_view() -> spec_fn((Tile, Vec<Yaku>)) -> Outcome {
    |x: (Tile, Vec<Yaku>)| (x.0, x.1@)
}

/// What the entries are, one by one.
pub open spec fn outcomes_of(v: Seq<(Tile, Vec<Yaku>)>) -> Seq<Outcome> {
    v.map_values(outcome_view())
}

/// `e` is among the outcomes `s`.
pub open spec fn holds_outcome(s: Seq<Outcome>, e: Outcome) -> bool {
    exists|i: int| 0 <= i < s.len() && s[i] == e
}

/// The outcomes stand in rising order of their keys.
pub open spec fn rising_outcomes(s: Seq<Outcome>) -> bool {
    forall|i: int, j: int|
        0 <= i < j < s.len() ==> lex_lt(
            outcome_key(#[trigger] s[i]),
            outcome_key(#[trigger] s[j]),
        )
}

/// The keys and the entries list outcomes, entry by entry in rising
/// order of the keys.
pub open spec fn listed_outcomes(keys: Seq<Vec<u64>>, out: Seq<(Tile, Vec<Yaku>)>) -> bool {
    &&& keys.len() == out.len()
    &&& strictly_sorted(keys)
    &&& forall|i: int|
        0 <= i < out.len() ==> (#[trigger] keys[i])@ == outcome_key(outcomes_of(out)[i])
}

/// Outcomes with the same key are the same outcome.
pub proof fn lemma_outcome_key_injective(a: Outcome, b: Outcome)
    requires
        outcome_key(a) == outcome_key(b),
    ensures
        a == b,
{
    let ka = outcome_key(a);
    let kb = outcome_key(b);
    assert(ka.len() == 1 + a.1.len());
    assert(kb.len() == 1 + b.1.len());
    assert(ka[0] == a.0.id as u64);
    assert(kb[0] == b.0.id as u64);
    assert forall|i: int| 0 <= i < a.1.len() implies a.1[i] == b.1[i] by {
        assert(ka[i + 1] == yaku_code(a.1[i]) as u64);
        assert(kb[i + 1] == yaku_code(b.1[i]) as u64);
    }
    assert(a.1 =~= b.1);
}

/// The key by which the outcome is ordered.
pub fn key_of_outcome(tile: Tile, yakus: &Vec<Yaku>) -> (r: Vec<u64>)
    ensures
        r@ == outcome_key((tile, yakus@)),
{
    let mut key: Vec<u64> = Vec::new();
    key.push(tile.id as u64);
    let mut i: usize = 0;
    while i < yakus.len()
        invariant
            i <= yakus@.len(),
            key@ == seq![tile.id as u64] + yakus@.subrange(0, i as int).map_values(yaku_u64()),
        decreases yakus@.len() - i,
    {
        let c: u16 = yakus[i].code();
        key.push(c as u64);
        i += 1;
        assert(key@ =~= seq![tile.id as u64] + yakus@.subrange(0, i as int).map_values(
            yaku_u64(),
        ));
    }
    assert(yakus@.subrange(0, i as int) =~= yakus@);
    key
}

/// Puts an outcome into a list of outcomes, unless it is there.
pub fn add_outcome(
    keys: &mut Vec<Vec<u64>>,
    out: &mut Vec<(Tile, Vec<Yaku>)>,
    tile: Tile,
    yakus: Vec<Yaku>,
)
    requires
        listed_outcomes(old(keys)@, old(out)@),
    ensures
        listed_outcomes(final(keys)@, final(out)@),
        forall|e: Outcome|
            #[trigger] holds_outcome(outcomes_of(final(out)@), e) <==> holds_outcome(
                outcomes_of(old(out)@),
                e,
            ) || e == (tile, yakus@),
{
    let key = key_of_outcome(tile, &yakus);
    let ghost added: Outcome = (tile, yakus@);
    let ghost old_out = out@;
    let ghost old_keys = keys@;
    let (pos, inserted) = insert_sorted(keys, out, key, (tile, yakus));
    proof {
        let before = outcomes_of(old_out);
        let after = outcomes_of(out@);
        if inserted {
            assert(after =~= before.insert(pos as int, added));
            assert forall|i: int| 0 <= i < out@.len() implies (#[trigger] keys@[i])@
                == outcome_key(after[i]) by {
                if i < pos {
                    assert(keys@[i] == old_keys[i]);
                    assert(after[i] == before[i]);
                } else if i > pos {
                    assert(keys@[i] == old_keys[i - 1]);
                    assert(after[i] == before[i - 1]);
                }
            }
            assert forall|e: Outcome| #[trigger]
                holds_outcome(after, e) <==> holds_outcome(before, e) || e == added by {
                if holds_outcome(after, e) {
                    let i = choose|i: int| 0 <= i < after.len() && after[i] == e;
                    if i < pos {
                        assert(before[i] == e);
                    } else if i > pos {
                        assert(before[i - 1] == e);
                    }
                }
                if holds_outcome(before, e) {
                    let i = choose|i: int| 0 <= i < before.len() && before[i] == e;
                    if i < pos {
                        assert(after[i] == e);
                    } else {
                        assert(after[i + 1] == e);
                    }
                }
                if e == added {
                    assert(after[pos as int] == e);
                }
            }
        } else {
            assert(after == before);
            assert(old_keys[pos as int]@ == outcome_key(before[pos as int]));
            lemma_outcome_key_injective(before[pos as int], added);
            assert(holds_outcome(before, added));
        }
    }
}

/// Adds to `out` the tiles that bring the counted hand nearer to
/// thirteen orphans, each with what the hand then aims at.
pub fn add_orphan_progress(
    counts: &Vec<u8>,
    keys: &mut Vec<Vec<u64>>,
    out: &mut Vec<(Tile, Vec<Yaku>)>,
)
    requires
        counts@.len() == 34,
        listed_outcomes(old(keys)@, old(out)@),
    ensures
        listed_outcomes(final(keys)@, final(out)@),
        forall|e: Outcome|
            #[trigger] holds_outcome(outcomes_of(final(out)@), e) <==> holds_outcome(
                outcomes_of(old(out)@),
                e,
            ) || orphan_progress(counts@, e),
{
    let (_, twice) = count_orphans(counts);
    let ghost given = outcomes_of(out@);
    let mut k: u8 = 0;
    while k < 34
        invariant
            k <= 34,
            counts@.len() == 34,
            twice == count_by(kinds(), orphan_held(counts@, 2)),
            listed_outcomes(keys@, out@),
            forall|e: Outcome|
                #[trigger] holds_outcome(outcomes_of(out@), e) <==> holds_outcome(given, e) || (
                orphan_progress(counts@, e) && e.0.id < k),
        decreases 34 - k,
    {
        let ghost before = outcomes_of(out@);
        let tile = Tile { id: k };
        let orphan = (k < 27 && (k % 9 == 0 || k % 9 == 8)) || k >= 27;
        let ghost added: Option<Outcome> = None;
        if orphan {
            let held: bool = counts[k as usize] >= 1;
            if twice == 0 {
                let mut yakus: Vec<Yaku> = Vec::new();
                if held {
                    yakus.push(Yaku::Kokushimusou);
                    assert(yakus@ =~= seq![Yaku::Kokushimusou]);
                } else {
                    yakus.push(Yaku::Kokushimusou13);
                    assert(yakus@ =~= seq![Yaku::Kokushimusou13]);
                }
                proof {
                    added = Some((tile, yakus@));
                }
                add_outcome(keys, out, tile, yakus);
            } else if !held {
                let mut yakus: Vec<Yaku> = Vec::new();
                yakus.push(Yaku::Kokushimusou);
                assert(yakus@ =~= seq![Yaku::Kokushimusou]);
                proof {
                    added = Some((tile, yakus@));
                }
                add_outcome(keys, out, tile, yakus);
            }
        }
        proof {
            assert forall|e: Outcome| #[trigger]
                holds_outcome(outcomes_of(out@), e) <==> holds_outcome(given, e) || (
                orphan_progress(counts@, e) && e.0.id < k + 1) by {
                assert(holds_outcome(before, e) <==> holds_outcome(given, e) || (orphan_progress(
                    counts@,
                    e,
                ) && e.0.id < k));
                assert(holds_outcome(outcomes_of(out@), e) <==> holds_outcome(before, e) || Some(e)
                    == added);
                if orphan_progress(counts@, e) && e.0.id == k {
                    assert(e.0 == tile);
                    assert(Some(e) == added);
                }
            }
        }
        k += 1;
    }
}

/// A hand that waits to be searched: its distance from the shape, and
/// the tile that was drawn first on the way to it, if any was.
pub struct Pending {
    pub distance: u8,
    pub first: Option<Tile>,
    pub hand: ReadyTileSet,
}

/// `e` is an outcome of the search from the waiting hand.
pub open spec fn reached_from(q: Pending, shape: Shape, e: Outcome) -> bool {
    reaches(q.hand@, q.distance as nat, q.first, shape, e)
}

/// `e` is an outcome of the search from one of the waiting hands.
pub open spec fn reached_from_some(queue: Seq<Pending>, shape: Shape, e: Outcome) -> bool {
    exists|i: int| 0 <= i < queue.len() && reached_from(#[trigger] queue[i], shape, e)
}

/// `e` is among the outcomes found, or is an outcome of the search
/// from one of the waiting hands.
pub open spec fn covered(found: Seq<Outcome>, queue: Seq<Pending>, shape: Shape, e: Outcome) -> bool {
    holds_outcome(found, e) || reached_from_some(queue, shape, e)
}

/// Every waiting hand is thirteen valid tiles in order, at a distance
/// below `limit`.
pub open spec fn all_waiting(queue: Seq<Pending>, limit: int) -> bool {
    forall|i: int|
        0 <= i < queue.len() ==> (#[trigger] queue[i]).hand.wf() && queue[i].distance < limit
}

/// A bound on the hands that the search from a hand at the given
/// distance takes from the queue.
pub open spec fn work(distance: nat) -> int
    decreases distance,
{
    if distance == 0 {
        1
    } else {
        1 + 476 * work((distance - 1) as nat)
    }
}

/// The bound of a waiting hand, as a function of the hand.
pub open spec fn work_of() -> spec_fn(Pending) -> int {
    |q: Pending| work(q.distance as nat)
}

/// A bound on the hands that the search takes from the queue until
/// the queue is empty.
pub open spec fn queued_work(queue: Seq<Pending>) -> int {
    sum_by(queue, work_of())
}

/// The search from a hand nearer to the shape is bounded by the
/// search from a hand further from it.
pub proof fn lemma_work_rises(a: nat, b: nat)
    requires
        a <= b,
    ensures
        1 <= work(a) <= work(b),
    decreases b,
{
    if b > 0 {
        if a < b {
            lemma_work_rises(a, (b - 1) as nat);
        }
        lemma_work_rises(0, (b - 1) as nat);
    }
}

/// Hands below a distance are bounded by their number, times the
/// bound of the distance just below.
pub proof fn lemma_work_of_children(children: Seq<Pending>, distance: nat)
    requires
        distance > 0,
        all_waiting(children, distance as int),
    ensures
        0 <= queued_work(children) <= children.len() * work((distance - 1) as nat),
    decreases children.len(),
{
    let w = work((distance - 1) as nat);
    lemma_work_rises(0, (distance - 1) as nat);
    if children.len() > 0 {
        let front = children.drop_last();
        assert forall|i: int| 0 <= i < front.len() implies (#[trigger] front[i]).hand.wf()
            && front[i].distance < distance by {
            assert(front[i] == children[i]);
        }
        lemma_work_of_children(front, distance);
        let last = children.last();
        assert(children[children.len() - 1] == last);
        lemma_work_rises(last.distance as nat, (distance - 1) as nat);
        assert(children.len() * w == front.len() * w + w) by (nonlinear_arith)
            requires
                children.len() == front.len() + 1,
        ;
    } else {
        assert(children.len() * w == 0) by (nonlinear_arith)
            requires
                children.len() == 0,
        ;
    }
}

/// What is reached from some hand of two queues is reached from some
/// hand of one of them.
pub proof fn lemma_reached_concat(a: Seq<Pending>, b: Seq<Pending>, shape: Shape, e: Outcome)
    ensures
        reached_from_some(a + b, shape, e) <==> reached_from_some(a, shape, e)
            || reached_from_some(b, shape, e),
{
    let ab = a + b;
    if reached_from_some(ab, shape, e) {
        let i = choose|i: int| 0 <= i < ab.len() && reached_from(#[trigger] ab[i], shape, e);
        if i < a.len() {
            assert(a[i] == ab[i]);
        } else {
            assert(b[i - a.len()] == ab[i]);
        }
    }
    if reached_from_some(a, shape, e) {
        let i = choose|i: int| 0 <= i < a.len() && reached_from(#[trigger] a[i], shape, e);
        assert(ab[i] == a[i]);
    }
    if reached_from_some(b, shape, e) {
        let i = choose|i: int| 0 <= i < b.len() && reached_from(#[trigger] b[i], shape, e);
        assert(ab[a.len() + i] == b[i]);
    }
}

/// The bound on the work that waits is not negative.
pub proof fn lemma_queued_work(queue: Seq<Pending>)
    ensures
        queued_work(queue) >= 0,
    decreases queue.len(),
{
    if queue.len() > 0 {
        lemma_queued_work(queue.drop_last());
        lemma_work_rises(0, queue.last().distance as nat);
    }
}

/// What is reached from some hand of a queue of one is reached from
/// that hand.
pub proof fn lemma_reached_one(q: Pending, shape: Shape, e: Outcome)
    ensures
        reached_from_some(seq![q], shape, e) <==> reached_from(q, shape, e),
{
    let one = seq![q];
    if reached_from_some(one, shape, e) {
        let i = choose|i: int| 0 <= i < one.len() && reached_from(#[trigger] one[i], shape, e);
        assert(one[i] == q);
    }
    if reached_from(q, shape, e) {
        assert(one[0] == q);
    }
}

} // verus!
