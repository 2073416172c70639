//! One way to read fourteen tiles as groups, and the scoring
//! categories that this reading earns.

use crate::counting::{count_by, indicator, lemma_sum_push, sum_by};
use crate::tile::Tile;
use crate::tile_block::{BlockType, TileBlock};
use crate::yaku::Yaku;
use vstd::prelude::*;

verus! {

/// A question asked of a single tile kind.
#[derive(Debug, Clone, Copy, PartialEq, Eq, Structural)]
pub enum TileTest {
    /// A numbered tile from 2 to 8.
    Simple,
    /// A terminal or an honor.
    Yaochuu,
    /// A 1 or a 9.
    Terminal,
    /// A wind or a dragon.
    Honor,
    /// One of the all-green tiles: 2, 3, 4, 6, 8 of bamboos and the
    /// green dragon.
    Green,
    /// A numbered tile of the given suit (0, 1, 2).
    InSuit(u8),
    /// A tile of the same type as the tile with the given index: the
    /// same suit for a numbered tile, the same tile for an honor.
    TypeOf(u8),
}

/// A question asked of a single group.
#[derive(Debug, Clone, Copy, PartialEq, Eq, Structural)]
pub enum BlockTest {
    /// Every tile of the group passes the test.
    Every(TileTest),
    /// Some tile of the group passes the test.
    Any(TileTest),
    Triplet,
    Sequence,
    TripletOrPair,
    /// A triplet of the tile with the given index.
    TripletAt(u8),
    /// A run whose lowest tile has the given index.
    SequenceAt(u8),
    /// A group whose first tile has the given index.
    StartsAt(u8),
    DragonTriplet,
    DragonTripletOrPair,
    WindTripletOrPair,
    /// A triplet or pair of terminals.
    TerminalTripletOrPair,
    /// A run, or a pair that is not of dragons.
    RunOrPlainPair,
    /// A run that the tile with the given index completes on a wait
    /// open to both sides: the tile is the lowest of the run and the
    /// run does not end with a 9, or it is the highest and the run
    /// does not begin with a 1.
    OpenWaitOn(u8),
    /// Anything but a pair of a tile other than the one with the given
    /// index.
    NoPairBut(u8),
    /// A triplet of winds, or any pair.
    WindTripletOrAnyPair,
}

/// The type of the tile with index `k`: 0, 1, 2 for the suits, a
/// number of its own for every honor.
pub open spec fn type_of_id(k: int) -> int {
    if k < 27 {
        k / 9
    } else {
        k - 24
    }
}

/// The rank of the tile with index `k`, 0 for an honor.
pub open spec fn rank_of_id(k: int) -> int {
    if 0 <= k < 27 {
        k % 9 + 1
    } else {
        0
    }
}

/// Whether the tile with index `k` passes the test.
pub open spec fn tile_holds(t: TileTest, k: int) -> bool {
    match t {
        TileTest::Simple => 0 <= k < 27 && 1 <= k % 9 <= 7,
        TileTest::Yaochuu => (0 <= k < 27 && (k % 9 == 0 || k % 9 == 8)) || 27 <= k < 34,
        TileTest::Terminal => 0 <= k < 27 && (k % 9 == 0 || k % 9 == 8),
        TileTest::Honor => 27 <= k < 34,
        TileTest::Green => k == 19 || k == 20 || k == 21 || k == 23 || k == 25 || k == 32,
        TileTest::InSuit(s) => 0 <= k < 27 && k / 9 == s,
        TileTest::TypeOf(other) => 0 <= k && type_of_id(k) == type_of_id(other as int),
    }
}

/// The indices of the tiles of a group.
pub open spec fn block_ids(b: TileBlock) -> Seq<int> {
    let f = b.first.id as int;
    match b.block_type {
        BlockType::Triplet => seq![f, f, f],
        BlockType::Sequence => seq![f, f + 1, f + 2],
        BlockType::Pair => seq![f, f],
        BlockType::Incompleted => seq![f, b.second.id as int],
        BlockType::Orphan => seq![f],
    }
}

/// Every tile of the group passes the test.
pub open spec fn every_tile(b: TileBlock, t: TileTest) -> bool {
    forall|j: int| 0 <= j < block_ids(b).len() ==> tile_holds(t, #[trigger] block_ids(b)[j])
}

/// Some tile of the group passes the test.
pub open spec fn some_tile(b: TileBlock, t: TileTest) -> bool {
    exists|j: int| 0 <= j < block_ids(b).len() && tile_holds(t, #[trigger] block_ids(b)[j])
}

/// Whether the group passes the test.
pub open spec fn block_holds(t: BlockTest, b: TileBlock) -> bool {
    let f = b.first.id as int;
    match t {
        BlockTest::Every(tt) => every_tile(b, tt),
        BlockTest::Any(tt) => some_tile(b, tt),
        BlockTest::Triplet => b.is_triplet(),
        BlockTest::Sequence => b.is_sequence(),
        BlockTest::TripletOrPair => b.is_triplet() || b.is_pair(),
        BlockTest::TripletAt(k) => b.is_triplet() && f == k,
        BlockTest::SequenceAt(k) => b.is_sequence() && f == k,
        BlockTest::StartsAt(k) => f == k,
        BlockTest::DragonTriplet => b.is_triplet() && 31 <= f < 34,
        BlockTest::DragonTripletOrPair => (b.is_triplet() || b.is_pair()) && 31 <= f < 34,
        BlockTest::WindTripletOrPair => (b.is_triplet() || b.is_pair()) && 27 <= f < 31,
        BlockTest::TerminalTripletOrPair => (b.is_triplet() || b.is_pair()) && tile_holds(
            TileTest::Terminal,
            f,
        ),
        BlockTest::RunOrPlainPair => b.is_sequence() || (b.is_pair() && !(31 <= f < 34)),
        BlockTest::OpenWaitOn(k) => b.is_sequence() && f < 27 && ((f == k && f % 9 <= 5) || (f
            + 2 == k && f % 9 >= 1)),
        BlockTest::NoPairBut(k) => b.is_pair() ==> f == k,
        BlockTest::WindTripletOrAnyPair => if b.is_triplet() {
            27 <= f < 31
        } else {
            b.is_pair()
        },
    }
}

/// The test as a function of the group.
pub open spec fn block_test(t: BlockTest) -> spec_fn(TileBlock) -> bool {
    |b: TileBlock| block_holds(t, b)
}

/// Every group of `blocks` passes the test.
pub open spec fn all_blocks(blocks: Seq<TileBlock>, t: BlockTest) -> bool {
    forall|i: int| 0 <= i < blocks.len() ==> block_holds(t, #[trigger] blocks[i])
}

/// The number of groups of `blocks` that pass the test.
pub open spec fn count_blocks(blocks: Seq<TileBlock>, t: BlockTest) -> int {
    count_by(blocks, block_test(t))
}

/// Some group of `blocks` passes the test.
pub open spec fn some_block(blocks: Seq<TileBlock>, t: BlockTest) -> bool {
    exists|i: int| 0 <= i < blocks.len() && block_holds(t, #[trigger] blocks[i])
}

/// How many tiles of rank `r` a group holds.
pub open spec fn block_rank_count(b: TileBlock, r: int) -> int {
    let f = b.first.id as int;
    let one = |k: int|
        if rank_of_id(k) == r {
            1int
        } else {
            0int
        };
    match b.block_type {
        BlockType::Triplet => 3 * one(f),
        BlockType::Sequence => one(f) + one(f + 1) + one(f + 2),
        BlockType::Pair => 2 * one(f),
        BlockType::Incompleted => one(f) + one(b.second.id as int),
        BlockType::Orphan => one(f),
    }
}

/// How many tiles of rank `r` a group holds, as a function of the
/// group.
pub open spec fn rank_counter(r: int) -> spec_fn(TileBlock) -> int {
    |b: TileBlock| block_rank_count(b, r)
}

/// How many tiles of rank `r` the groups hold.
pub open spec fn rank_count(blocks: Seq<TileBlock>, r: int) -> int {
    sum_by(blocks, rank_counter(r))
}

/// The list with `t` alone where `c` holds, the empty list elsewhere.
pub open spec fn tile_if(c: bool, t: Tile) -> Seq<Tile> {
    if c {
        seq![t]
    } else {
        Seq::empty()
    }
}

/// The list with `y` alone where `c` holds, the empty list elsewhere.
pub open spec fn one_if(c: bool, y: Yaku) -> Seq<Yaku> {
    if c {
        seq![y]
    } else {
        Seq::empty()
    }
}

/// The stronger category where it holds, else the weaker where that
/// holds, else nothing.
pub open spec fn stronger_of(c1: bool, y1: Yaku, c2: bool, y2: Yaku) -> Seq<Yaku> {
    if c1 {
        seq![y1]
    } else {
        one_if(c2, y2)
    }
}

/// The category that a triplet of the dragon earns.
pub open spec fn as_dragon_yaku() -> spec_fn(Tile) -> Yaku {
    |t: Tile| Yaku::YakuhaiSangenpai(t)
}

fn tile_passes(t: TileTest, k: u16) -> (r: bool)
    ensures
        r == tile_holds(t, k as int),
{
    match t {
        TileTest::Simple => k < 27 && 1 <= k % 9 && k % 9 <= 7,
        TileTest::Yaochuu => (k < 27 && (k % 9 == 0 || k % 9 == 8)) || (27 <= k && k < 34),
        TileTest::Terminal => k < 27 && (k % 9 == 0 || k % 9 == 8),
        TileTest::Honor => 27 <= k && k < 34,
        TileTest::Green => k == 19 || k == 20 || k == 21 || k == 23 || k == 25 || k == 32,
        TileTest::InSuit(s) => k < 27 && k / 9 == s as u16,
        TileTest::TypeOf(other) => {
            let o: u16 = other as u16;
            let a: u16 = if k < 27 {
                k / 9
            } else {
                k - 24
            };
            let b: u16 = if o < 27 {
                o / 9
            } else {
                o - 24
            };
            a == b
        },
    }
}

fn block_passes(t: BlockTest, b: &TileBlock) -> (r: bool)
    ensures
        r == block_holds(t, *b),
{
    let f: u16 = b.first.id as u16;
    let s: u16 = b.second.id as u16;
    let is_triplet = b.triplet().is_some();
    let is_sequence = b.sequence().is_some();
    let is_pair = b.pair().is_some();
    match t {
        BlockTest::Every(tt) => {
            let ghost ids = block_ids(*b);
            let r = match b.block_type {
                BlockType::Triplet | BlockType::Pair | BlockType::Orphan => tile_passes(tt, f),
                BlockType::Sequence => tile_passes(tt, f) && tile_passes(tt, f + 1) && tile_passes(
                    tt,
                    f + 2,
                ),
                BlockType::Incompleted => tile_passes(tt, f) && tile_passes(tt, s),
            };
            proof {
                if r {
                    assert(every_tile(*b, tt));
                } else {
                    assert(ids[0] == f);
                    if b.block_type == BlockType::Sequence {
                        assert(ids[1] == f + 1);
                        assert(ids[2] == f + 2);
                    }
                    if b.block_type == BlockType::Incompleted {
                        assert(ids[1] == s);
                    }
                    assert(!every_tile(*b, tt));
                }
            }
            r
        },
        BlockTest::Any(tt) => {
            let ghost ids = block_ids(*b);
            let r = match b.block_type {
                BlockType::Triplet | BlockType::Pair | BlockType::Orphan => tile_passes(tt, f),
                BlockType::Sequence => tile_passes(tt, f) || tile_passes(tt, f + 1) || tile_passes(
                    tt,
                    f + 2,
                ),
                BlockType::Incompleted => tile_passes(tt, f) || tile_passes(tt, s),
            };
            proof {
                if r {
                    assert(ids[0] == f);
                    if b.block_type == BlockType::Sequence {
                        assert(ids[1] == f + 1);
                        assert(ids[2] == f + 2);
                    }
                    if b.block_type == BlockType::Incompleted {
                        assert(ids[1] == s);
                    }
                    assert(some_tile(*b, tt));
                } else {
                    assert(!some_tile(*b, tt));
                }
            }
            r
        },
        BlockTest::Triplet => is_triplet,
        BlockTest::Sequence => is_sequence,
        BlockTest::TripletOrPair => is_triplet || is_pair,
        BlockTest::TripletAt(k) => is_triplet && f == k as u16,
        BlockTest::SequenceAt(k) => is_sequence && f == k as u16,
        BlockTest::StartsAt(k) => f == k as u16,
        BlockTest::DragonTriplet => is_triplet && 31 <= f && f < 34,
        BlockTest::DragonTripletOrPair => (is_triplet || is_pair) && 31 <= f && f < 34,
        BlockTest::WindTripletOrPair => (is_triplet || is_pair) && 27 <= f && f < 31,
        BlockTest::TerminalTripletOrPair => (is_triplet || is_pair) && tile_passes(
            TileTest::Terminal,
            f,
        ),
        BlockTest::RunOrPlainPair => is_sequence || (is_pair && !(31 <= f && f < 34)),
        BlockTest::OpenWaitOn(k) => {
            let k: u16 = k as u16;
            is_sequence && f < 27 && ((f == k && f % 9 <= 5) || (f + 2 == k && f % 9 >= 1))
        },
        BlockTest::NoPairBut(k) => !is_pair || f == k as u16,
        BlockTest::WindTripletOrAnyPair => if is_triplet {
            27 <= f && f < 31
        } else {
            is_pair
        },
    }
}

/// The number of items that pass a test is at most the number of
/// items, and is zero exactly when none passes.
pub proof fn lemma_count_blocks(blocks: Seq<TileBlock>, t: BlockTest)
    ensures
        0 <= count_blocks(blocks, t) <= blocks.len(),
        count_blocks(blocks, t) > 0 <==> some_block(blocks, t),
        count_blocks(blocks, t) == blocks.len() <==> all_blocks(blocks, t),
    decreases blocks.len(),
{
    if blocks.len() > 0 {
        let front = blocks.drop_last();
        lemma_count_blocks(front, t);
        let f = indicator(block_test(t));
        assert(f(blocks.last()) == if block_holds(t, blocks.last()) { 1int } else { 0int });
        if some_block(front, t) {
            let i = choose|i: int| 0 <= i < front.len() && block_holds(t, #[trigger] front[i]);
            assert(blocks[i] == front[i]);
        }
        if some_block(blocks, t) {
            let i = choose|i: int| 0 <= i < blocks.len() && block_holds(t, #[trigger] blocks[i]);
            if i < front.len() {
                assert(front[i] == blocks[i]);
            }
        }
        if all_blocks(front, t) && block_holds(t, blocks.last()) {
            assert forall|i: int| 0 <= i < blocks.len() implies block_holds(
                t,
                #[trigger] blocks[i],
            ) by {
                if i < front.len() {
                    assert(front[i] == blocks[i]);
                }
            }
        }
        if all_blocks(blocks, t) {
            assert forall|i: int| 0 <= i < front.len() implies block_holds(
                t,
                #[trigger] front[i],
            ) by {
                assert(front[i] == blocks[i]);
            }
            assert(block_holds(t, blocks[blocks.len() - 1]));
        }
    }
}

/// A reading of fourteen tiles as groups, with the tile drawn last.
#[derive(Debug, Clone, PartialEq, Eq)]
pub struct TilePattern {
    /// Fourteen single tiles (thirteen orphans), seven pairs, or four
    /// triplets or runs and a pair.
    pub pattern: Vec<TileBlock>,
    pub last_draw: Tile,
}

/// The number of tiles in the groups.
pub open spec fn tiles_in(blocks: Seq<TileBlock>) -> int {
    sum_by(blocks, block_len())
}

/// The number of tiles of a group, as a function of the group.
pub open spec fn block_len() -> spec_fn(TileBlock) -> int {
    |b: TileBlock| b.len_spec()
}

/// What a reading is: its groups in order, and the tile drawn last.
pub struct Reading {
    pub blocks: Seq<TileBlock>,
    pub last_draw: Tile,
}

impl View for TilePattern {
    type V = Reading;

    open spec fn view(&self) -> Reading {
        Reading { blocks: self.pattern@, last_draw: self.last_draw }
    }
}

impl Reading {
    /// The groups are valid, and so is the tile drawn last.
    pub open spec fn wf(&self) -> bool {
        &&& self.last_draw.valid()
        &&& forall|i: int| 0 <= i < self.blocks.len() ==> (#[trigger] self.blocks[i]).wf()
    }

    /// Every tile is numbered and no terminal.
    pub open spec fn is_tanyao_spec(&self) -> bool {
        all_blocks(self.blocks, BlockTest::Every(TileTest::Simple))
    }

    /// The dragons of which the hand holds a triplet, each once, in
    /// the order of the tiles.
    pub open spec fn sangenpai_spec(&self) -> Seq<Tile> {
        if self.blocks.len() == 5 {
            tile_if(some_block(self.blocks, BlockTest::TripletAt(31)), Tile { id: 31 }) + tile_if(
                some_block(self.blocks, BlockTest::TripletAt(32)),
                Tile { id: 32 },
            ) + tile_if(some_block(self.blocks, BlockTest::TripletAt(33)), Tile { id: 33 })
        } else {
            Seq::empty()
        }
    }

    /// Runs and a pair that is not of dragons, the tile drawn last
    /// on a wait open to both sides.
    pub open spec fn is_pinfu_spec(&self) -> bool {
        &&& self.blocks.len() == 5
        &&& all_blocks(self.blocks, BlockTest::RunOrPlainPair)
        &&& some_block(self.blocks, BlockTest::OpenWaitOn(self.last_draw.id))
    }

    /// Two runs alike.
    pub open spec fn is_iipeikou_spec(&self) -> bool {
        &&& self.blocks.len() == 5
        &&& exists|k: u8| #[trigger] count_blocks(self.blocks, BlockTest::SequenceAt(k)) >= 2
    }

    /// A triplet of one rank in each suit.
    pub open spec fn is_sanshokudoukou_spec(&self) -> bool {
        &&& self.blocks.len() == 5
        &&& exists|r: u8|
            r < 9 && #[trigger] some_block(self.blocks, BlockTest::TripletAt(r)) && some_block(
                self.blocks,
                BlockTest::TripletAt((r + 9) as u8),
            ) && some_block(self.blocks, BlockTest::TripletAt((r + 18) as u8))
    }

    /// Triplets and a pair only.
    pub open spec fn is_toitoihou_spec(&self) -> bool {
        self.blocks.len() == 5 && all_blocks(self.blocks, BlockTest::TripletOrPair)
    }

    /// At least three triplets.
    pub open spec fn is_sanankou_spec(&self) -> bool {
        self.blocks.len() == 5 && count_blocks(self.blocks, BlockTest::Triplet) >= 3
    }

    /// Three groups of dragons, triplets or pair.
    pub open spec fn is_shousangen_spec(&self) -> bool {
        self.blocks.len() == 5 && count_blocks(self.blocks, BlockTest::DragonTripletOrPair)
            == 3
    }

    /// Terminals and honors only.
    pub open spec fn is_honroutou_spec(&self) -> bool {
        all_blocks(self.blocks, BlockTest::Every(TileTest::Yaochuu))
    }

    /// Seven groups.
    pub open spec fn is_chiitoitsu_spec(&self) -> bool {
        self.blocks.len() == 7
    }

    /// A terminal or an honor in each of five groups.
    pub open spec fn is_honchantaiyaochuu_spec(&self) -> bool {
        self.blocks.len() == 5 && all_blocks(self.blocks, BlockTest::Any(TileTest::Yaochuu))
    }

    /// The runs from 1, from 4 and from 7 of one suit.
    pub open spec fn is_ikkitsuukan_spec(&self) -> bool {
        &&& self.blocks.len() == 5
        &&& exists|k: u8|
            (k == 0 || k == 9 || k == 18) && #[trigger] some_block(
                self.blocks,
                BlockTest::SequenceAt(k),
            ) && some_block(self.blocks, BlockTest::SequenceAt((k + 3) as u8)) && some_block(
                self.blocks,
                BlockTest::SequenceAt((k + 6) as u8),
            )
    }

    /// A run from one rank in each suit.
    pub open spec fn is_sanshokudoujun_spec(&self) -> bool {
        &&& self.blocks.len() == 5
        &&& exists|r: u8|
            r < 7 && #[trigger] some_block(self.blocks, BlockTest::SequenceAt(r)) && some_block(
                self.blocks,
                BlockTest::SequenceAt((r + 9) as u8),
            ) && some_block(self.blocks, BlockTest::SequenceAt((r + 18) as u8))
    }

    /// Four runs, each as often as another like it.
    pub open spec fn is_ryanpeikou_spec(&self) -> bool {
        &&& self.blocks.len() == 5
        &&& count_blocks(self.blocks, BlockTest::Sequence) == 4
        &&& forall|k: u8| #[trigger] count_blocks(self.blocks, BlockTest::SequenceAt(k)) % 2 == 0
    }

    /// A terminal in each of five groups.
    pub open spec fn is_junchantaiyaochuu_spec(&self) -> bool {
        self.blocks.len() == 5 && all_blocks(self.blocks, BlockTest::Any(TileTest::Terminal))
    }

    /// At most one suit occurs among the numbered tiles.
    pub open spec fn is_honiisou_spec(&self) -> bool {
        let m = some_block(self.blocks, BlockTest::Any(TileTest::InSuit(0)));
        let p = some_block(self.blocks, BlockTest::Any(TileTest::InSuit(1)));
        let s = some_block(self.blocks, BlockTest::Any(TileTest::InSuit(2)));
        !(m && p) && !(m && s) && !(p && s)
    }

    /// Every tile is of the type of the first.
    pub open spec fn is_chiniisou_spec(&self) -> bool {
        self.blocks.len() > 0 ==> all_blocks(
            self.blocks,
            BlockTest::Every(TileTest::TypeOf(self.blocks[0].first.id)),
        )
    }

    /// Triplets of all three dragons.
    pub open spec fn is_daisangen_spec(&self) -> bool {
        self.blocks.len() == 5 && count_blocks(self.blocks, BlockTest::DragonTriplet) == 3
    }

    /// Four triplets and a pair.
    pub open spec fn is_suuankou_spec(&self) -> bool {
        self.blocks.len() == 5 && all_blocks(self.blocks, BlockTest::TripletOrPair)
    }

    /// Honors only.
    pub open spec fn is_tsuuiisou_spec(&self) -> bool {
        all_blocks(self.blocks, BlockTest::Every(TileTest::Honor))
    }

    /// Green tiles only.
    pub open spec fn is_ryuuiisou_spec(&self) -> bool {
        all_blocks(self.blocks, BlockTest::Every(TileTest::Green))
    }

    /// Triplets and a pair of terminals.
    pub open spec fn is_chinroutou_spec(&self) -> bool {
        self.blocks.len() == 5 && all_blocks(self.blocks, BlockTest::TerminalTripletOrPair)
    }

    /// Fourteen groups.
    pub open spec fn is_kokushimusou_spec(&self) -> bool {
        self.blocks.len() == 14
    }

    /// At least four groups of winds, triplets or pair.
    pub open spec fn is_shousuushii_spec(&self) -> bool {
        self.blocks.len() == 5 && count_blocks(self.blocks, BlockTest::WindTripletOrPair) >= 4
    }

    /// One type of tile, every rank from 1 to 9, and 1 and 9 at least
    /// three times each.
    pub open spec fn is_chuurenpoutou_spec(&self) -> bool {
        &&& self.blocks.len() == 5
        &&& self.is_chiniisou_spec()
        &&& forall|r: int|
            1 <= r <= 9 ==> #[trigger] rank_count(self.blocks, r) >= (if r == 1 || r == 9 {
                3int
            } else {
                1int
            })
    }

    /// Four triplets and a pair of the tile drawn last.
    pub open spec fn is_suuankoutanki_spec(&self) -> bool {
        self.is_suuankou_spec() && all_blocks(
            self.blocks,
            BlockTest::NoPairBut(self.last_draw.id),
        )
    }

    /// Thirteen orphans of which the tile drawn last is the one held
    /// twice.
    pub open spec fn is_kokushimusou13_spec(&self) -> bool {
        self.blocks.len() == 14 && count_blocks(
            self.blocks,
            BlockTest::StartsAt(self.last_draw.id),
        ) >= 2
    }

    /// Nine gates in which the rank of the tile drawn last occurs once
    /// more than the shape needs.
    pub open spec fn is_junseichuurenpoutou_spec(&self) -> bool {
        let r = self.last_draw.rank();
        &&& self.is_chuurenpoutou_spec()
        &&& r >= 1
        &&& rank_count(self.blocks, r) == (if r == 1 || r == 9 {
            4int
        } else {
            2int
        })
    }

    /// Four triplets of winds and a pair.
    pub open spec fn is_daisuushii_spec(&self) -> bool {
        self.is_shousuushii_spec() && all_blocks(self.blocks, BlockTest::WindTripletOrAnyPair)
    }

    /// The yakuman of the reading, the stronger of two that exclude
    /// each other.
    pub open spec fn yakuman_spec(&self) -> Seq<Yaku> {
        Seq::<Yaku>::empty() + stronger_of(
            self.is_suuankoutanki_spec(),
            Yaku::Suuankoutanki,
            self.is_suuankou_spec(),
            Yaku::Suuankou,
        ) + stronger_of(
            self.is_kokushimusou13_spec(),
            Yaku::Kokushimusou13,
            self.is_kokushimusou_spec(),
            Yaku::Kokushimusou,
        ) + stronger_of(
            self.is_junseichuurenpoutou_spec(),
            Yaku::Junseichuurenpoutou,
            self.is_chuurenpoutou_spec(),
            Yaku::Chuurenpoutou,
        ) + stronger_of(
            self.is_daisuushii_spec(),
            Yaku::Daisuushii,
            self.is_shousuushii_spec(),
            Yaku::Shousuushii,
        ) + one_if(self.is_daisangen_spec(), Yaku::Daisangen) + one_if(
            self.is_tsuuiisou_spec(),
            Yaku::Tsuuiisou,
        ) + one_if(self.is_ryuuiisou_spec(), Yaku::Ryuuiisou) + one_if(
            self.is_chinroutou_spec(),
            Yaku::Chinroutou,
        )
    }

    /// The ordinary categories of the reading.
    pub open spec fn ordinary_spec(&self) -> Seq<Yaku> {
        Seq::<Yaku>::empty() + stronger_of(
            self.is_chiniisou_spec(),
            Yaku::Chiniisou,
            self.is_honiisou_spec(),
            Yaku::Honiisou,
        ) + stronger_of(
            self.is_ryanpeikou_spec(),
            Yaku::Ryanpeikou,
            self.is_iipeikou_spec(),
            Yaku::Iipeikou,
        ) + stronger_of(
            self.is_junchantaiyaochuu_spec(),
            Yaku::Junchantaiyaochuu,
            self.is_honroutou_spec() || self.is_honchantaiyaochuu_spec(),
            if self.is_honroutou_spec() {
                Yaku::Honroutou
            } else {
                Yaku::Honchantaiyaochuu
            },
        ) + one_if(self.is_tanyao_spec(), Yaku::Tanyao) + self.sangenpai_spec().map_values(
            as_dragon_yaku(),
        ) + one_if(self.is_pinfu_spec(), Yaku::Pinfu) + one_if(
            self.is_sanshokudoukou_spec(),
            Yaku::Sanshokudoukou,
        ) + one_if(self.is_toitoihou_spec(), Yaku::Toitoihou) + one_if(
            self.is_sanankou_spec(),
            Yaku::Sanankou,
        ) + one_if(self.is_shousangen_spec(), Yaku::Shousangen) + one_if(
            self.is_chiitoitsu_spec(),
            Yaku::Chiitoitsu,
        ) + one_if(self.is_ikkitsuukan_spec(), Yaku::Ikkitsuukan) + one_if(
            self.is_sanshokudoujun_spec(),
            Yaku::Sanshokudoujun,
        )
    }

    /// The categories of the reading: its yakuman where it has any,
    /// its ordinary categories where it has none.
    pub open spec fn yakus_spec(&self) -> Seq<Yaku> {
        if self.yakuman_spec().len() > 0 {
            self.yakuman_spec()
        } else {
            self.ordinary_spec()
        }
    }
}

impl TilePattern {
    /// A reading made of the given groups.
    ///
    /// The groups hold fourteen tiles between them and number five,
    /// seven or fourteen.
    pub fn new(pattern: Vec<TileBlock>, last_draw: Tile) -> (r: TilePattern)
        requires
            tiles_in(pattern@) == 14,
            pattern@.len() == 5 || pattern@.len() == 7 || pattern@.len() == 14,
        ensures
            r@ == (Reading { blocks: pattern@, last_draw }),
    {
        TilePattern { pattern, last_draw }
    }

    /// Whether the groups can make a reading: they hold fourteen tiles
    /// between them and number five, seven or fourteen.
    pub fn can_make(pattern: &Vec<TileBlock>) -> (r: bool)
        ensures
            r == (tiles_in(pattern@) == 14 && (pattern@.len() == 5 || pattern@.len() == 7
                || pattern@.len() == 14)),
    {
        let n: usize = pattern.len();
        if !(n == 5 || n == 7 || n == 14) {
            return false;
        }
        let ghost f = block_len();
        let mut total: usize = 0;
        let mut i: usize = 0;
        while i < n
            invariant
                n == pattern@.len(),
                n <= 14,
                i <= n,
                total == sum_by(pattern@.subrange(0, i as int), f),
                f == block_len(),
                total <= 3 * i,
            decreases n - i,
        {
            let l: u8 = pattern[i].len();
            proof {
                lemma_sum_push(pattern@.subrange(0, i as int), pattern@[i as int], f);
                assert(pattern@.subrange(0, i as int).push(pattern@[i as int])
                    =~= pattern@.subrange(0, i + 1));
            }
            total = total + l as usize;
            i += 1;
        }
        assert(pattern@.subrange(0, n as int) =~= pattern@);
        total == 14
    }

    fn all_match(&self, t: BlockTest) -> (r: bool)
        ensures
            r == all_blocks(self.pattern@, t),
    {
        let mut i: usize = 0;
        while i < self.pattern.len()
            invariant
                i <= self.pattern@.len(),
                forall|j: int| 0 <= j < i ==> block_holds(t, #[trigger] self.pattern@[j]),
            decreases self.pattern@.len() - i,
        {
            if !block_passes(t, &self.pattern[i]) {
                return false;
            }
            i += 1;
        }
        true
    }

    fn count_match(&self, t: BlockTest) -> (r: usize)
        ensures
            r == count_blocks(self.pattern@, t),
            r <= self.pattern@.len(),
            r > 0 <==> some_block(self.pattern@, t),
    {
        let ghost f = indicator(block_test(t));
        let mut c: usize = 0;
        let mut i: usize = 0;
        while i < self.pattern.len()
            invariant
                i <= self.pattern@.len(),
                c == sum_by(self.pattern@.subrange(0, i as int), f),
                c <= i,
                f == indicator(block_test(t)),
            decreases self.pattern@.len() - i,
        {
            proof {
                lemma_sum_push(self.pattern@.subrange(0, i as int), self.pattern@[i as int], f);
                assert(self.pattern@.subrange(0, i as int).push(self.pattern@[i as int])
                    =~= self.pattern@.subrange(0, i + 1));
            }
            if block_passes(t, &self.pattern[i]) {
                c += 1;
            }
            i += 1;
        }
        proof {
            assert(self.pattern@.subrange(0, i as int) =~= self.pattern@);
            lemma_count_blocks(self.pattern@, t);
        }
        c
    }

    fn some_match(&self, t: BlockTest) -> (r: bool)
        ensures
            r == some_block(self.pattern@, t),
    {
        self.count_match(t) > 0
    }

    /// The number of tiles of rank `r` in a reading of five groups.
    fn rank_total(&self, r: u8) -> (c: usize)
        requires
            self.pattern@.len() == 5,
            r >= 1,
        ensures
            c == rank_count(self.pattern@, r as int),
    {
        let ghost f = rank_counter(r as int);
        let mut c: usize = 0;
        let mut i: usize = 0;
        while i < self.pattern.len()
            invariant
                self.pattern@.len() == 5,
                i <= self.pattern@.len(),
                c == sum_by(self.pattern@.subrange(0, i as int), f),
                c <= 3 * i,
                f == rank_counter(r as int),
                r >= 1,
            decreases self.pattern@.len() - i,
        {
            proof {
                lemma_sum_push(self.pattern@.subrange(0, i as int), self.pattern@[i as int], f);
                assert(self.pattern@.subrange(0, i as int).push(self.pattern@[i as int])
                    =~= self.pattern@.subrange(0, i + 1));
            }
            let b = &self.pattern[i];
            let k: u16 = b.first.id as u16;
            let k2: u16 = b.second.id as u16;
            let n: usize = match b.block_type {
                BlockType::Triplet => 3 * has_rank(k, r),
                BlockType::Sequence => has_rank(k, r) + has_rank(k + 1, r) + has_rank(k + 2, r),
                BlockType::Pair => 2 * has_rank(k, r),
                BlockType::Incompleted => has_rank(k, r) + has_rank(k2, r),
                BlockType::Orphan => has_rank(k, r),
            };
            c += n;
            i += 1;
        }
        assert(self.pattern@.subrange(0, i as int) =~= self.pattern@);
        c
    }

    /// All simples: every tile is numbered and no terminal.
    pub fn is_tanyao(&self) -> (r: bool)
        ensures
            r == self@.is_tanyao_spec(),
    {
        self.all_match(BlockTest::Every(TileTest::Simple))
    }

    /// The dragons of which the hand holds a triplet.
    pub fn have_yakuhai_sangenpai(&self) -> (r: Vec<Tile>)
        ensures
            r@ == self@.sangenpai_spec(),
    {
        let mut v: Vec<Tile> = Vec::new();
        if self.pattern.len() == 5 {
            let haku = self.some_match(BlockTest::TripletAt(31));
            let hatsu = self.some_match(BlockTest::TripletAt(32));
            let chun = self.some_match(BlockTest::TripletAt(33));
            if haku {
                v.push(Tile { id: 31 });
            }
            if hatsu {
                v.push(Tile { id: 32 });
            }
            if chun {
                v.push(Tile { id: 33 });
            }
            assert(v@ =~= self@.sangenpai_spec());
        }
        v
    }

    /// Four runs and a pair that is not of dragons, with the tile
    /// drawn last on a wait open to both sides of a run.
    pub fn is_pinfu(&self) -> (r: bool)
        ensures
            r == self@.is_pinfu_spec(),
    {
        self.pattern.len() == 5 && self.all_match(BlockTest::RunOrPlainPair) && self.some_match(
            BlockTest::OpenWaitOn(self.last_draw.id),
        )
    }

    /// Two runs that are the same.
    pub fn is_iipeikou(&self) -> (r: bool)
        ensures
            r == self@.is_iipeikou_spec(),
    {
        if self.pattern.len() != 5 {
            return false;
        }
        let mut k: u8 = 0;
        loop
            invariant
                self.pattern@.len() == 5,
                forall|j: u8| j < k ==> #[trigger] count_blocks(self.pattern@, BlockTest::SequenceAt(j)) < 2,
            decreases 255 - k,
        {
            if self.count_match(BlockTest::SequenceAt(k)) >= 2 {
                assert(count_blocks(self@.blocks, BlockTest::SequenceAt(k)) >= 2);
                return true;
            }
            if k == 255 {
                return false;
            }
            k += 1;
        }
    }

    /// The same triplet in each of the three suits.
    pub fn is_sanshokudoukou(&self) -> (r: bool)
        ensures
            r == self@.is_sanshokudoukou_spec(),
    {
        if self.pattern.len() != 5 {
            return false;
        }
        let mut k: u8 = 0;
        while k < 9
            invariant
                k <= 9,
                self.pattern@.len() == 5,
                forall|j: u8|
                    j < k ==> !(#[trigger] some_block(self.pattern@, BlockTest::TripletAt(j))
                        && some_block(self.pattern@, BlockTest::TripletAt((j + 9) as u8))
                        && some_block(self.pattern@, BlockTest::TripletAt((j + 18) as u8))),
            decreases 9 - k,
        {
            if self.some_match(BlockTest::TripletAt(k)) && self.some_match(
                BlockTest::TripletAt(k + 9),
            ) && self.some_match(BlockTest::TripletAt(k + 18)) {
                assert(some_block(self@.blocks, BlockTest::TripletAt(k)));
                return true;
            }
            k += 1;
        }
        false
    }

    /// Triplets and a pair only.
    pub fn is_toitoihou(&self) -> (r: bool)
        ensures
            r == self@.is_toitoihou_spec(),
    {
        self.pattern.len() == 5 && self.all_match(BlockTest::TripletOrPair)
    }

    /// At least three triplets.
    pub fn is_sanankou(&self) -> (r: bool)
        ensures
            r == self@.is_sanankou_spec(),
    {
        self.pattern.len() == 5 && self.count_match(BlockTest::Triplet) >= 3
    }

    /// Three groups of dragons, triplets or pair.
    pub fn is_shousangen(&self) -> (r: bool)
        ensures
            r == self@.is_shousangen_spec(),
    {
        self.pattern.len() == 5 && self.count_match(BlockTest::DragonTripletOrPair) == 3
    }

    /// Terminals and honors only.
    pub fn is_honroutou(&self) -> (r: bool)
        ensures
            r == self@.is_honroutou_spec(),
    {
        self.all_match(BlockTest::Every(TileTest::Yaochuu))
    }

    /// Seven pairs.
    pub fn is_chiitoitsu(&self) -> (r: bool)
        ensures
            r == self@.is_chiitoitsu_spec(),
    {
        self.pattern.len() == 7
    }

    /// A terminal or an honor in each of the five groups.
    pub fn is_honchantaiyaochuu(&self) -> (r: bool)
        ensures
            r == self@.is_honchantaiyaochuu_spec(),
    {
        self.pattern.len() == 5 && self.all_match(BlockTest::Any(TileTest::Yaochuu))
    }

    /// The runs 1-2-3, 4-5-6 and 7-8-9 of one suit.
    pub fn is_ikkitsuukan(&self) -> (r: bool)
        ensures
            r == self@.is_ikkitsuukan_spec(),
    {
        if self.pattern.len() != 5 {
            return false;
        }
        let mut k: u8 = 0;
        while k < 27
            invariant
                k == 0 || k == 9 || k == 18 || k == 27,
                self.pattern@.len() == 5,
                forall|j: u8|
                    (j == 0 || j == 9 || j == 18) && j < k ==> !(#[trigger] some_block(
                        self.pattern@,
                        BlockTest::SequenceAt(j),
                    ) && some_block(self.pattern@, BlockTest::SequenceAt((j + 3) as u8))
                        && some_block(self.pattern@, BlockTest::SequenceAt((j + 6) as u8))),
            decreases 27 - k,
        {
            if self.some_match(BlockTest::SequenceAt(k)) && self.some_match(
                BlockTest::SequenceAt(k + 3),
            ) && self.some_match(BlockTest::SequenceAt(k + 6)) {
                assert(some_block(self@.blocks, BlockTest::SequenceAt(k)));
                return true;
            }
            k += 9;
        }
        false
    }

    /// The same run in each of the three suits.
    pub fn is_sanshokudoujun(&self) -> (r: bool)
        ensures
            r == self@.is_sanshokudoujun_spec(),
    {
        if self.pattern.len() != 5 {
            return false;
        }
        let mut k: u8 = 0;
        while k < 7
            invariant
                k <= 7,
                self.pattern@.len() == 5,
                forall|j: u8|
                    j < k ==> !(#[trigger] some_block(self.pattern@, BlockTest::SequenceAt(j))
                        && some_block(self.pattern@, BlockTest::SequenceAt((j + 9) as u8))
                        && some_block(self.pattern@, BlockTest::SequenceAt((j + 18) as u8))),
            decreases 7 - k,
        {
            if self.some_match(BlockTest::SequenceAt(k)) && self.some_match(
                BlockTest::SequenceAt(k + 9),
            ) && self.some_match(BlockTest::SequenceAt(k + 18)) {
                assert(some_block(self@.blocks, BlockTest::SequenceAt(k)));
                return true;
            }
            k += 1;
        }
        false
    }

    /// Four runs that are two and two the same.
    pub fn is_ryanpeikou(&self) -> (r: bool)
        ensures
            r == self@.is_ryanpeikou_spec(),
    {
        if self.pattern.len() != 5 || self.count_match(BlockTest::Sequence) != 4 {
            return false;
        }
        let mut k: u8 = 0;
        loop
            invariant
                self.pattern@.len() == 5,
                count_blocks(self.pattern@, BlockTest::Sequence) == 4,
                forall|j: u8|
                    j < k ==> #[trigger] count_blocks(self.pattern@, BlockTest::SequenceAt(j)) % 2
                        == 0,
            decreases 255 - k,
        {
            if self.count_match(BlockTest::SequenceAt(k)) % 2 != 0 {
                return false;
            }
            if k == 255 {
                return true;
            }
            k += 1;
        }
    }

    /// A terminal in each of the five groups.
    pub fn is_junchantaiyaochuu(&self) -> (r: bool)
        ensures
            r == self@.is_junchantaiyaochuu_spec(),
    {
        self.pattern.len() == 5 && self.all_match(BlockTest::Any(TileTest::Terminal))
    }

    /// At most one suit among the numbered tiles.
    pub fn is_honiisou(&self) -> (r: bool)
        ensures
            r == self@.is_honiisou_spec(),
    {
        let m = self.some_match(BlockTest::Any(TileTest::InSuit(0)));
        let p = self.some_match(BlockTest::Any(TileTest::InSuit(1)));
        let s = self.some_match(BlockTest::Any(TileTest::InSuit(2)));
        !(m && p) && !(m && s) && !(p && s)
    }

    /// Every tile of the type of the first.
    pub fn is_chiniisou(&self) -> (r: bool)
        ensures
            r == self@.is_chiniisou_spec(),
    {
        if self.pattern.len() == 0 {
            true
        } else {
            self.all_match(BlockTest::Every(TileTest::TypeOf(self.pattern[0].first.id)))
        }
    }

    /// Triplets of all three dragons.
    pub fn is_daisangen(&self) -> (r: bool)
        ensures
            r == self@.is_daisangen_spec(),
    {
        self.pattern.len() == 5 && self.count_match(BlockTest::DragonTriplet) == 3
    }

    /// Four triplets and a pair.
    pub fn is_suuankou(&self) -> (r: bool)
        ensures
            r == self@.is_suuankou_spec(),
    {
        self.pattern.len() == 5 && self.all_match(BlockTest::TripletOrPair)
    }

    /// Honors only.
    pub fn is_tsuuiisou(&self) -> (r: bool)
        ensures
            r == self@.is_tsuuiisou_spec(),
    {
        self.all_match(BlockTest::Every(TileTest::Honor))
    }

    /// Green tiles only.
    pub fn is_ryuuiisou(&self) -> (r: bool)
        ensures
            r == self@.is_ryuuiisou_spec(),
    {
        self.all_match(BlockTest::Every(TileTest::Green))
    }

    /// Triplets and a pair of terminals only.
    pub fn is_chinroutou(&self) -> (r: bool)
        ensures
            r == self@.is_chinroutou_spec(),
    {
        self.pattern.len() == 5 && self.all_match(BlockTest::TerminalTripletOrPair)
    }

    /// Thirteen orphans.
    pub fn is_kokushimusou(&self) -> (r: bool)
        ensures
            r == self@.is_kokushimusou_spec(),
    {
        self.pattern.len() == 14
    }

    /// At least four groups of winds, triplets or pair.
    pub fn is_shousuushii(&self) -> (r: bool)
        ensures
            r == self@.is_shousuushii_spec(),
    {
        self.pattern.len() == 5 && self.count_match(BlockTest::WindTripletOrPair) >= 4
    }

    /// Nine gates.
    pub fn is_chuurenpoutou(&self) -> (r: bool)
        ensures
            r == self@.is_chuurenpoutou_spec(),
    {
        if self.pattern.len() != 5 || !self.is_chiniisou() {
            return false;
        }
        let mut k: u8 = 1;
        while k <= 9
            invariant
                1 <= k <= 10,
                self.pattern@.len() == 5,
                forall|j: int|
                    1 <= j < k ==> #[trigger] rank_count(self.pattern@, j) >= (if j == 1 || j
                        == 9 {
                        3int
                    } else {
                        1int
                    }),
            decreases 10 - k,
        {
            let c: usize = self.rank_total(k);
            let need: usize = if k == 1 || k == 9 {
                3
            } else {
                1
            };
            if c < need {
                return false;
            }
            k += 1;
        }
        true
    }

    /// Four triplets, won on the pair.
    pub fn is_suuankoutanki(&self) -> (r: bool)
        ensures
            r == self@.is_suuankoutanki_spec(),
    {
        self.is_suuankou() && self.all_match(BlockTest::NoPairBut(self.last_draw.id))
    }

    /// Thirteen orphans, won on the tile held twice.
    pub fn is_kokushimusou13(&self) -> (r: bool)
        ensures
            r == self@.is_kokushimusou13_spec(),
    {
        self.pattern.len() == 14 && self.count_match(BlockTest::StartsAt(self.last_draw.id)) >= 2
    }

    /// Nine gates, won on the tile that the shape holds once more than
    /// it needs.
    pub fn is_junseichuurenpoutou(&self) -> (r: bool)
        ensures
            r == self@.is_junseichuurenpoutou_spec(),
    {
        if !self.is_chuurenpoutou() {
            return false;
        }
        let n: u8 = self.last_draw.number();
        if n == 0 {
            return false;
        }
        let c: usize = self.rank_total(n);
        if n == 1 || n == 9 {
            c == 4
        } else {
            c == 2
        }
    }

    /// Triplets of all four winds.
    pub fn is_daisuushii(&self) -> (r: bool)
        ensures
            r == self@.is_daisuushii_spec(),
    {
        self.is_shousuushii() && self.all_match(BlockTest::WindTripletOrAnyPair)
    }

    /// The categories that the reading earns: its yakuman where it has
    /// any, its ordinary categories where it has none, each kind in a
    /// fixed order.
    pub fn yakus(&self) -> (r: Vec<Yaku>)
        ensures
            r@ == self@.yakus_spec(),
    {
        let mut ret: Vec<Yaku> = Vec::new();
        assert(ret@ =~= Seq::<Yaku>::empty());
        push_stronger(
            &mut ret,
            self.is_suuankoutanki(),
            Yaku::Suuankoutanki,
            self.is_suuankou(),
            Yaku::Suuankou,
        );
        push_stronger(
            &mut ret,
            self.is_kokushimusou13(),
            Yaku::Kokushimusou13,
            self.is_kokushimusou(),
            Yaku::Kokushimusou,
        );
        push_stronger(
            &mut ret,
            self.is_junseichuurenpoutou(),
            Yaku::Junseichuurenpoutou,
            self.is_chuurenpoutou(),
            Yaku::Chuurenpoutou,
        );
        push_stronger(
            &mut ret,
            self.is_daisuushii(),
            Yaku::Daisuushii,
            self.is_shousuushii(),
            Yaku::Shousuushii,
        );
        push_if(&mut ret, self.is_daisangen(), Yaku::Daisangen);
        push_if(&mut ret, self.is_tsuuiisou(), Yaku::Tsuuiisou);
        push_if(&mut ret, self.is_ryuuiisou(), Yaku::Ryuuiisou);
        push_if(&mut ret, self.is_chinroutou(), Yaku::Chinroutou);
        if ret.len() > 0 {
            return ret;
        }
        let mut ret: Vec<Yaku> = Vec::new();
        assert(ret@ =~= Seq::<Yaku>::empty());
        push_stronger(
            &mut ret,
            self.is_chiniisou(),
            Yaku::Chiniisou,
            self.is_honiisou(),
            Yaku::Honiisou,
        );
        push_stronger(
            &mut ret,
            self.is_ryanpeikou(),
            Yaku::Ryanpeikou,
            self.is_iipeikou(),
            Yaku::Iipeikou,
        );
        let honroutou = self.is_honroutou();
        push_stronger(
            &mut ret,
            self.is_junchantaiyaochuu(),
            Yaku::Junchantaiyaochuu,
            honroutou || self.is_honchantaiyaochuu(),
            if honroutou {
                Yaku::Honroutou
            } else {
                Yaku::Honchantaiyaochuu
            },
        );
        push_if(&mut ret, self.is_tanyao(), Yaku::Tanyao);
        let dragons = self.have_yakuhai_sangenpai();
        let ghost before = ret@;
        let mut i: usize = 0;
        while i < dragons.len()
            invariant
                i <= dragons@.len(),
                ret@ == before + dragons@.subrange(0, i as int).map_values(as_dragon_yaku()),
            decreases dragons@.len() - i,
        {
            ret.push(Yaku::YakuhaiSangenpai(dragons[i]));
            i += 1;
            assert(ret@ =~= before + dragons@.subrange(0, i as int).map_values(as_dragon_yaku()));
        }
        assert(dragons@.subrange(0, i as int) =~= dragons@);
        push_if(&mut ret, self.is_pinfu(), Yaku::Pinfu);
        push_if(&mut ret, self.is_sanshokudoukou(), Yaku::Sanshokudoukou);
        push_if(&mut ret, self.is_toitoihou(), Yaku::Toitoihou);
        push_if(&mut ret, self.is_sanankou(), Yaku::Sanankou);
        push_if(&mut ret, self.is_shousangen(), Yaku::Shousangen);
        push_if(&mut ret, self.is_chiitoitsu(), Yaku::Chiitoitsu);
        push_if(&mut ret, self.is_ikkitsuukan(), Yaku::Ikkitsuukan);
        push_if(&mut ret, self.is_sanshokudoujun(), Yaku::Sanshokudoujun);
        ret
    }
}

fn has_rank(k: u16, r: u8) -> (n: usize)
    requires
        k <= 300,
        r >= 1,
    ensures
        n == (if rank_of_id(k as int) == r {
            1int
        } else {
            0int
        }),
{
    if k < 27 && k % 9 + 1 == r as u16 {
        1
    } else {
        0
    }
}

fn push_if(v: &mut Vec<Yaku>, c: bool, y: Yaku)
    ensures
        final(v)@ == old(v)@ + one_if(c, y),
{
    if c {
        v.push(y);
    }
    assert(v@ =~= old(v)@ + one_if(c, y));
}

fn push_stronger(v: &mut Vec<Yaku>, c1: bool, y1: Yaku, c2: bool, y2: Yaku)
    ensures
        final(v)@ == old(v)@ + stronger_of(c1, y1, c2, y2),
{
    if c1 {
        v.push(y1);
    } else if c2 {
        v.push(y2);
    }
    assert(v@ =~= old(v)@ + stronger_of(c1, y1, c2, y2));
}

} // verus!
