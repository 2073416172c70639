//! One structural group of a hand: a triplet, a run, a pair, two tiles
//! that may still grow into a group, or a single tile.

use crate::tile::Tile;
use vstd::prelude::*;

verus! {

/// The shape of a group.
#[derive(Debug, Clone, Copy, PartialEq, Eq, Structural, PartialOrd, Ord)]
pub enum BlockType {
    Triplet,
    Sequence,
    Pair,
    Incompleted,
    Orphan,
}

/// A group of one to three tiles.
///
/// `first` is the lowest tile of a triplet, run, pair or single tile,
/// and the first of the two tiles of an incomplete group; `second` is
/// the other tile of an incomplete group and repeats `first` in every
/// other shape.
#[derive(Debug, Clone, Copy, PartialEq, Eq, Structural)]
pub struct TileBlock {
    pub block_type: BlockType,
    pub first: Tile,
    pub second: Tile,
}

/// Why tiles do not form the group asked for.
#[derive(Debug, Clone, Copy, PartialEq, Eq, Structural)]
pub enum BlockError {
    /// One of the tiles is none of the 34 kinds.
    InvalidTile,
    NotTriplet,
    NotSequence,
    NotPair,
    NotIncompleted,
    /// A group has one, two or three tiles.
    BadLength,
}

/// Three tiles that form a run: one suit, consecutive ranks.
pub open spec fn is_run(a: Tile, b: Tile, c: Tile) -> bool {
    a.id < 27 && a.id % 9 <= 6 && b.id == a.id + 1 && c.id == a.id + 2
}

/// The place of a shape among the shapes.
pub open spec fn type_rank(t: BlockType) -> int {
    match t {
        BlockType::Triplet => 0,
        BlockType::Sequence => 1,
        BlockType::Pair => 2,
        BlockType::Incompleted => 3,
        BlockType::Orphan => 4,
    }
}

impl TileBlock {
    /// The tiles of the group, in order.
    pub open spec fn tiles_spec(self) -> Seq<Tile> {
        match self.block_type {
            BlockType::Triplet => seq![self.first, self.first, self.first],
            BlockType::Sequence => seq![
                self.first,
                Tile { id: (self.first.id + 1) as u8 },
                Tile { id: (self.first.id + 2) as u8 },
            ],
            BlockType::Pair => seq![self.first, self.first],
            BlockType::Incompleted => seq![self.first, self.second],
            BlockType::Orphan => seq![self.first],
        }
    }

    /// The tiles are valid and form the shape that the group claims.
    pub open spec fn wf(self) -> bool {
        &&& self.first.valid()
        &&& match self.block_type {
            BlockType::Sequence => self.first.id < 27 && self.first.id % 9 <= 6 && self.second
                == self.first,
            BlockType::Incompleted => self.first.is_related_spec(self.second),
            _ => self.second == self.first,
        }
    }

    /// How many tiles of kind `k` the group holds.
    pub open spec fn count_of(self, k: int) -> int {
        match self.block_type {
            BlockType::Triplet => if self.first.id == k {
                3
            } else {
                0
            },
            BlockType::Sequence => if self.first.id <= k <= self.first.id + 2 {
                1
            } else {
                0
            },
            BlockType::Pair => if self.first.id == k {
                2
            } else {
                0
            },
            BlockType::Incompleted => (if self.first.id == k {
                1int
            } else {
                0
            }) + (if self.second.id == k {
                1int
            } else {
                0
            }),
            BlockType::Orphan => if self.first.id == k {
                1
            } else {
                0
            },
        }
    }

    /// The number of tiles in the group.
    pub open spec fn len_spec(self) -> int {
        match self.block_type {
            BlockType::Triplet | BlockType::Sequence => 3,
            BlockType::Pair | BlockType::Incompleted => 2,
            BlockType::Orphan => 1,
        }
    }

    /// The place of the group in the order of groups: groups stand in
    /// the order of their tiles, read from the first, a group that is
    /// the beginning of another before it. Groups of the same tiles
    /// stand in the order of their shapes.
    pub open spec fn code(self) -> int {
        let t = self.tiles_spec();
        let k0 = t[0].id + 1;
        let k1 = if t.len() >= 2 {
            t[1].id + 1
        } else {
            0
        };
        let k2 = if t.len() >= 3 {
            t[2].id + 1
        } else {
            0
        };
        (((k0 * 512 + k1) * 512 + k2) * 8 + type_rank(self.block_type)) * 256 + self.second.id
    }

    /// Three tiles alike.
    pub open spec fn is_triplet(self) -> bool {
        self.block_type == BlockType::Triplet
    }

    /// Three tiles of one suit in a row.
    pub open spec fn is_sequence(self) -> bool {
        self.block_type == BlockType::Sequence
    }

    /// Two tiles alike.
    pub open spec fn is_pair(self) -> bool {
        self.block_type == BlockType::Pair
    }

    /// A single tile.
    pub open spec fn is_orphan(self) -> bool {
        self.block_type == BlockType::Orphan
    }

    /// Two tiles that may become a group.
    pub open spec fn is_incompleted(self) -> bool {
        self.block_type == BlockType::Incompleted
    }

    /// A triplet or a run.
    pub open spec fn is_group(self) -> bool {
        self.is_triplet() || self.is_sequence()
    }

    /// The tiles that would complete the group, for a group that is
    /// not complete.
    pub open spec fn income_spec(self) -> Option<Seq<Tile>> {
        match self.block_type {
            BlockType::Incompleted => Some(
                if self.first == self.second {
                    seq![self.first]
                } else if self.first.rank() + 1 == self.second.rank() {
                    (if self.first.rank() >= 2 {
                        seq![Tile { id: (self.first.id - 1) as u8 }]
                    } else {
                        Seq::<Tile>::empty()
                    }) + (if 1 <= self.second.rank() <= 8 {
                        seq![Tile { id: (self.second.id + 1) as u8 }]
                    } else {
                        Seq::<Tile>::empty()
                    })
                } else if 1 <= self.first.rank() <= 8 {
                    seq![Tile { id: (self.first.id + 1) as u8 }]
                } else {
                    Seq::<Tile>::empty()
                },
            ),
            BlockType::Orphan => Some(seq![self.first]),
            _ => None,
        }
    }

    /// A triplet: three times the same valid tile.
    pub fn new_triplet(tiles: [Tile; 3]) -> (r: Result<TileBlock, BlockError>)
        ensures
            match r {
                Ok(b) => b.wf() && b.is_triplet() && b.tiles_spec() == tiles@,
                Err(e) => (e == BlockError::InvalidTile <==> !tiles[0].valid())
                    && (e == BlockError::NotTriplet <==> tiles[0].valid()),
            },
            r.is_ok() <==> tiles[0].valid() && tiles[0] == tiles[1] && tiles[0] == tiles[2],
    {
        if tiles[0].id >= 34 {
            Err(BlockError::InvalidTile)
        } else if tiles[0] == tiles[1] && tiles[0] == tiles[2] {
            let b = TileBlock { block_type: BlockType::Triplet, first: tiles[0], second: tiles[0] };
            assert(b.tiles_spec() =~= tiles@);
            Ok(b)
        } else {
            Err(BlockError::NotTriplet)
        }
    }

    /// A run: three numbered tiles of one suit with consecutive ranks,
    /// lowest first.
    pub fn new_sequence(tiles: [Tile; 3]) -> (r: Result<TileBlock, BlockError>)
        ensures
            match r {
                Ok(b) => b.wf() && b.is_sequence() && b.tiles_spec() == tiles@,
                Err(e) => e == BlockError::NotSequence,
            },
            r.is_ok() <==> is_run(tiles[0], tiles[1], tiles[2]),
    {
        let a: u8 = tiles[0].id;
        if a < 27 && a % 9 <= 6 && tiles[1].id == a + 1 && tiles[2].id == a + 2 {
            let b = TileBlock { block_type: BlockType::Sequence, first: tiles[0], second: tiles[0] };
            assert(b.tiles_spec() =~= tiles@);
            Ok(b)
        } else {
            Err(BlockError::NotSequence)
        }
    }

    /// A pair: twice the same valid tile.
    pub fn new_pair(tiles: [Tile; 2]) -> (r: Result<TileBlock, BlockError>)
        ensures
            match r {
                Ok(b) => b.wf() && b.is_pair() && b.tiles_spec() == tiles@,
                Err(e) => (e == BlockError::InvalidTile <==> !tiles[0].valid())
                    && (e == BlockError::NotPair <==> tiles[0].valid()),
            },
            r.is_ok() <==> tiles[0].valid() && tiles[0] == tiles[1],
    {
        if tiles[0].id >= 34 {
            Err(BlockError::InvalidTile)
        } else if tiles[0] == tiles[1] {
            let b = TileBlock { block_type: BlockType::Pair, first: tiles[0], second: tiles[0] };
            assert(b.tiles_spec() =~= tiles@);
            Ok(b)
        } else {
            Err(BlockError::NotPair)
        }
    }

    /// Two related tiles that are not yet a group.
    pub fn new_incompleted(tiles: [Tile; 2]) -> (r: Result<TileBlock, BlockError>)
        ensures
            match r {
                Ok(b) => b.wf() && b.is_incompleted() && b.tiles_spec() == tiles@,
                Err(e) => e == BlockError::NotIncompleted,
            },
            r.is_ok() <==> tiles[0].is_related_spec(tiles[1]),
    {
        if tiles[0].is_related(tiles[1]) {
            let b = TileBlock {
                block_type: BlockType::Incompleted,
                first: tiles[0],
                second: tiles[1],
            };
            assert(b.tiles_spec() =~= tiles@);
            Ok(b)
        } else {
            Err(BlockError::NotIncompleted)
        }
    }

    /// A single valid tile.
    pub fn new_orphan(tile: Tile) -> (r: Result<TileBlock, BlockError>)
        ensures
            match r {
                Ok(b) => b.wf() && b.is_orphan() && b.tiles_spec() == seq![tile],
                Err(e) => e == BlockError::InvalidTile,
            },
            r.is_ok() <==> tile.valid(),
    {
        if tile.id >= 34 {
            Err(BlockError::InvalidTile)
        } else {
            let b = TileBlock { block_type: BlockType::Orphan, first: tile, second: tile };
            assert(b.tiles_spec() =~= seq![tile]);
            Ok(b)
        }
    }

    /// The complete group that the tiles form: a single tile, a pair,
    /// a triplet, or else a run.
    pub fn new_unknown(tiles: &[Tile]) -> (r: Result<TileBlock, BlockError>)
        ensures
            match r {
                Ok(b) => b.wf() && b.tiles_spec() == tiles@ && !b.is_incompleted(),
                Err(e) => e == unknown_error(tiles@),
            },
            r.is_ok() <==> forms_block(tiles@),
    {
        let n: usize = tiles.len();
        if n == 1 {
            let r = TileBlock::new_orphan(tiles[0]);
            proof {
                if let Ok(b) = r {
                    assert(b.tiles_spec() =~= tiles@);
                }
            }
            r
        } else if n == 2 {
            let r = TileBlock::new_pair([tiles[0], tiles[1]]);
            proof {
                if let Ok(b) = r {
                    assert(b.tiles_spec() =~= tiles@);
                }
            }
            r
        } else if n == 3 {
            let a = [tiles[0], tiles[1], tiles[2]];
            let r = match TileBlock::new_triplet(a) {
                Ok(b) => Ok(b),
                Err(_) => TileBlock::new_sequence(a),
            };
            proof {
                if let Ok(b) = r {
                    assert(b.tiles_spec() =~= tiles@);
                }
            }
            r
        } else {
            Err(BlockError::BadLength)
        }
    }

    /// The tile of a triplet.
    pub fn triplet(&self) -> (r: Option<Tile>)
        ensures
            r == (if self.is_triplet() {
                Some(self.first)
            } else {
                None
            }),
    {
        match self.block_type {
            BlockType::Triplet => Some(self.first),
            _ => None,
        }
    }

    /// The lowest tile of a run.
    pub fn sequence(&self) -> (r: Option<Tile>)
        ensures
            r == (if self.is_sequence() {
                Some(self.first)
            } else {
                None
            }),
    {
        match self.block_type {
            BlockType::Sequence => Some(self.first),
            _ => None,
        }
    }

    /// The tile of a pair.
    pub fn pair(&self) -> (r: Option<Tile>)
        ensures
            r == (if self.is_pair() {
                Some(self.first)
            } else {
                None
            }),
    {
        match self.block_type {
            BlockType::Pair => Some(self.first),
            _ => None,
        }
    }

    /// The tiles that would complete the group: for two equal tiles the
    /// third; for two neighbours the tile below and the tile above, as
    /// far as the suit has them; for two tiles with a gap the tile
    /// above the first; for a single tile that tile. A complete group
    /// has none.
    pub fn income(&self) -> (r: Option<Vec<Tile>>)
        ensures
            match r {
                Some(v) => self.income_spec() == Some(v@),
                None => self.income_spec().is_none(),
            },
    {
        match self.block_type {
            BlockType::Incompleted => {
                let mut v: Vec<Tile> = Vec::new();
                if self.first == self.second {
                    v.push(self.first);
                } else if self.first.number() + 1 == self.second.number() {
                    if let Some(tile) = self.first.prev() {
                        v.push(tile);
                    }
                    if let Some(tile) = self.second.next() {
                        v.push(tile);
                    }
                } else if let Some(tile) = self.first.next() {
                    v.push(tile);
                }
                assert(self.income_spec() == Some(v@)) by {
                    assert(self.income_spec().unwrap() =~= v@);
                }
                Some(v)
            },
            BlockType::Orphan => {
                let mut v: Vec<Tile> = Vec::new();
                v.push(self.first);
                assert(self.income_spec().unwrap() =~= v@);
                Some(v)
            },
            _ => None,
        }
    }

    /// The number of tiles in the group.
    pub fn len(&self) -> (r: u8)
        ensures
            r == self.len_spec(),
            r == self.tiles_spec().len(),
    {
        match self.block_type {
            BlockType::Triplet | BlockType::Sequence => 3,
            BlockType::Pair | BlockType::Incompleted => 2,
            BlockType::Orphan => 1,
        }
    }

    /// The tiles of the group, in order.
    pub fn tiles(&self) -> (r: Vec<Tile>)
        requires
            self.wf(),
        ensures
            r@ == self.tiles_spec(),
    {
        let mut v: Vec<Tile> = Vec::new();
        v.push(self.first);
        match self.block_type {
            BlockType::Triplet => {
                v.push(self.first);
                v.push(self.first);
            },
            BlockType::Sequence => {
                v.push(Tile { id: self.first.id + 1 });
                v.push(Tile { id: self.first.id + 2 });
            },
            BlockType::Pair => {
                v.push(self.first);
            },
            BlockType::Incompleted => {
                v.push(self.second);
            },
            BlockType::Orphan => {},
        }
        assert(v@ =~= self.tiles_spec());
        v
    }

    /// The place of the group in the order of groups.
    pub fn order_key(&self) -> (r: u64)
        requires
            self.wf(),
        ensures
            r == self.code(),
    {
        let f: u64 = self.first.id as u64;
        let s: u64 = self.second.id as u64;
        let (k1, k2, t): (u64, u64, u64) = match self.block_type {
            BlockType::Triplet => (f + 1, f + 1, 0),
            BlockType::Sequence => (f + 2, f + 3, 1),
            BlockType::Pair => (f + 1, 0, 2),
            BlockType::Incompleted => (s + 1, 0, 3),
            BlockType::Orphan => (0, 0, 4),
        };
        ((((f + 1) * 512 + k1) * 512 + k2) * 8 + t) * 256 + s
    }
}

/// Whether the tiles form a single tile, a pair, a triplet or a run.
pub open spec fn forms_block(tiles: Seq<Tile>) -> bool {
    ||| tiles.len() == 1 && tiles[0].valid()
    ||| tiles.len() == 2 && tiles[0].valid() && tiles[0] == tiles[1]
    ||| tiles.len() == 3 && tiles[0].valid() && tiles[0] == tiles[1] && tiles[0] == tiles[2]
    ||| tiles.len() == 3 && is_run(tiles[0], tiles[1], tiles[2])
}

/// The error for tiles that form no complete group.
pub open spec fn unknown_error(tiles: Seq<Tile>) -> BlockError {
    if tiles.len() == 1 {
        BlockError::InvalidTile
    } else if tiles.len() == 2 {
        if tiles[0].valid() {
            BlockError::NotPair
        } else {
            BlockError::InvalidTile
        }
    } else if tiles.len() == 3 {
        BlockError::NotSequence
    } else {
        BlockError::BadLength
    }
}

/// Two groups with the same place in the order are the same group.
pub proof fn lemma_code_injective(a: TileBlock, b: TileBlock)
    requires
        a.code() == b.code(),
    ensures
        a == b,
{
    let ta = a.tiles_spec();
    let tb = b.tiles_spec();
    let ha = ((ta[0].id + 1) * 512 + (if ta.len() >= 2 { ta[1].id + 1 } else { 0 })) * 512 + (if ta.len() >= 3 { ta[2].id + 1 } else { 0 });
    let hb = ((tb[0].id + 1) * 512 + (if tb.len() >= 2 { tb[1].id + 1 } else { 0 })) * 512 + (if tb.len() >= 3 { tb[2].id + 1 } else { 0 });
    assert(a.code() == (ha * 8 + type_rank(a.block_type)) * 256 + a.second.id);
    assert(b.code() == (hb * 8 + type_rank(b.block_type)) * 256 + b.second.id);
    assert(a.second.id == b.second.id);
    assert(ha * 8 + type_rank(a.block_type) == hb * 8 + type_rank(b.block_type));
    assert(type_rank(a.block_type) == type_rank(b.block_type));
    assert(ha == hb);
    assert(ta[0].id == tb[0].id);
}

} // verus!
