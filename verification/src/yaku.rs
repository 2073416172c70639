//! Scoring categories and the value they carry.

use crate::tile::Tile;
use core::cmp::Ordering;
use vstd::prelude::*;
use vstd::std_specs::cmp::PartialOrdSpecImpl;
use vstd::std_specs::convert::FromSpecImpl;
use vstd::std_specs::ops::AddSpecImpl;

verus! {

/// A scoring category of a closed hand.
#[derive(Debug, Clone, Copy, PartialEq, Eq, Structural, PartialOrd, Ord)]
pub enum Yaku {
    /// All simples.
    Tanyao,
    /// A triplet of the given dragon.
    YakuhaiSangenpai(Tile),
    /// Four runs, a valueless pair, a two-sided wait.
    Pinfu,
    /// One pair of identical runs.
    Iipeikou,
    /// The same triplet in all three suits.
    Sanshokudoukou,
    /// All triplets.
    Toitoihou,
    /// Three concealed triplets.
    Sanankou,
    /// Two dragon triplets and a dragon pair.
    Shousangen,
    /// Terminals and honors only.
    Honroutou,
    /// Seven pairs.
    Chiitoitsu,
    /// A terminal or honor in every group.
    Honchantaiyaochuu,
    /// A full straight in one suit.
    Ikkitsuukan,
    /// The same run in all three suits.
    Sanshokudoujun,
    /// Two pairs of identical runs.
    Ryanpeikou,
    /// A terminal in every group.
    Junchantaiyaochuu,
    /// One suit and honors.
    Honiisou,
    /// One suit.
    Chiniisou,
    /// Three dragon triplets.
    Daisangen,
    /// Four concealed triplets.
    Suuankou,
    /// Honors only.
    Tsuuiisou,
    /// Green tiles only.
    Ryuuiisou,
    /// Terminals only.
    Chinroutou,
    /// Thirteen orphans.
    Kokushimusou,
    /// Three wind triplets and a wind pair.
    Shousuushii,
    /// Nine gates.
    Chuurenpoutou,
    /// Four concealed triplets, won on the pair.
    Suuankoutanki,
    /// Thirteen orphans, won on the thirteen-sided wait.
    Kokushimusou13,
    /// Nine gates, won on the nine-sided wait.
    Junseichuurenpoutou,
    /// Four wind triplets.
    Daisuushii,
}

/// The value of a hand: an ordinary score, or a number of yakuman.
#[derive(Debug, Clone, Copy, PartialEq, Eq, Structural, Ord)]
pub struct Han {
    pub is_yakuman: bool,
    pub score: u8,
}

/// The highest ordinary score.
pub const MAX_SCORE: u8 = 13;

/// The highest number of yakuman.
pub const MAX_YAKUMAN: u8 = 2;

/// The sum of two values. A yakuman on either side makes the sum a
/// yakuman, of as many yakuman as both sides hold, at most two; two
/// ordinary scores add up to at most thirteen.
pub open spec fn han_add(a: Han, b: Han) -> Han {
    if a.is_yakuman || b.is_yakuman {
        let x: int = if a.is_yakuman {
            a.score as int
        } else {
            0
        };
        let y: int = if b.is_yakuman {
            b.score as int
        } else {
            0
        };
        Han {
            is_yakuman: true,
            score: if x + y >= 2 {
                2u8
            } else if x + y == 1 {
                1u8
            } else {
                0u8
            },
        }
    } else {
        Han {
            is_yakuman: false,
            score: if a.score + b.score >= 13 {
                13u8
            } else {
                (a.score + b.score) as u8
            },
        }
    }
}

/// `a` is worth less than `b`: an ordinary score is less than any
/// yakuman, and within one kind the number decides.
pub open spec fn han_lt(a: Han, b: Han) -> bool {
    (!a.is_yakuman && b.is_yakuman) || (a.is_yakuman == b.is_yakuman && a.score < b.score)
}

/// The value that a category carries.
pub open spec fn han_of(yaku: Yaku) -> Han {
    match yaku {
        Yaku::Tanyao | Yaku::YakuhaiSangenpai(_) | Yaku::Pinfu | Yaku::Iipeikou => Han {
            is_yakuman: false,
            score: 1,
        },
        Yaku::Sanshokudoukou
        | Yaku::Toitoihou
        | Yaku::Sanankou
        | Yaku::Shousangen
        | Yaku::Honroutou
        | Yaku::Chiitoitsu
        | Yaku::Honchantaiyaochuu
        | Yaku::Ikkitsuukan
        | Yaku::Sanshokudoujun => Han { is_yakuman: false, score: 2 },
        Yaku::Ryanpeikou | Yaku::Junchantaiyaochuu | Yaku::Honiisou => Han {
            is_yakuman: false,
            score: 3,
        },
        Yaku::Chiniisou => Han { is_yakuman: false, score: 6 },
        Yaku::Daisangen
        | Yaku::Suuankou
        | Yaku::Tsuuiisou
        | Yaku::Ryuuiisou
        | Yaku::Chinroutou
        | Yaku::Kokushimusou
        | Yaku::Shousuushii
        | Yaku::Chuurenpoutou => Han { is_yakuman: true, score: 1 },
        Yaku::Suuankoutanki
        | Yaku::Kokushimusou13
        | Yaku::Junseichuurenpoutou
        | Yaku::Daisuushii => Han { is_yakuman: true, score: 2 },
    }
}

/// The value of a list of categories: the sum of their values, from
/// nothing.
pub open spec fn han_sum(yakus: Seq<Yaku>) -> Han
    decreases yakus.len(),
{
    if yakus.len() == 0 {
        Han { is_yakuman: false, score: 0 }
    } else {
        han_add(han_sum(yakus.drop_last()), han_of(yakus.last()))
    }
}

/// The place of a category in the order of categories; two dragon
/// triplets stand in the order of their tiles.
pub open spec fn yaku_code(yaku: Yaku) -> int {
    match yaku {
        Yaku::Tanyao => 0int,
        Yaku::YakuhaiSangenpai(t) => 256 + t.id,
        Yaku::Pinfu => 512int,
        Yaku::Iipeikou => 768int,
        Yaku::Sanshokudoukou => 1024int,
        Yaku::Toitoihou => 1280int,
        Yaku::Sanankou => 1536int,
        Yaku::Shousangen => 1792int,
        Yaku::Honroutou => 2048int,
        Yaku::Chiitoitsu => 2304int,
        Yaku::Honchantaiyaochuu => 2560int,
        Yaku::Ikkitsuukan => 2816int,
        Yaku::Sanshokudoujun => 3072int,
        Yaku::Ryanpeikou => 3328int,
        Yaku::Junchantaiyaochuu => 3584int,
        Yaku::Honiisou => 3840int,
        Yaku::Chiniisou => 4096int,
        Yaku::Daisangen => 4352int,
        Yaku::Suuankou => 4608int,
        Yaku::Tsuuiisou => 4864int,
        Yaku::Ryuuiisou => 5120int,
        Yaku::Chinroutou => 5376int,
        Yaku::Kokushimusou => 5632int,
        Yaku::Shousuushii => 5888int,
        Yaku::Chuurenpoutou => 6144int,
        Yaku::Suuankoutanki => 6400int,
        Yaku::Kokushimusou13 => 6656int,
        Yaku::Junseichuurenpoutou => 6912int,
        Yaku::Daisuushii => 7168int,
    }
}

/// The name of a category.
pub open spec fn yaku_name(yaku: Yaku) -> Seq<char> {
    match yaku {
        Yaku::Tanyao => "Tanyao"@,
        Yaku::YakuhaiSangenpai(_) => "YakuhaiSangenpai"@,
        Yaku::Pinfu => "Pinfu"@,
        Yaku::Iipeikou => "Iipeikou"@,
        Yaku::Sanshokudoukou => "Sanshokudoukou"@,
        Yaku::Toitoihou => "Toitoihou"@,
        Yaku::Sanankou => "Sanankou"@,
        Yaku::Shousangen => "Shousangen"@,
        Yaku::Honroutou => "Honroutou"@,
        Yaku::Chiitoitsu => "Chiitoitsu"@,
        Yaku::Honchantaiyaochuu => "Honchantaiyaochuu"@,
        Yaku::Ikkitsuukan => "Ikkitsuukan"@,
        Yaku::Sanshokudoujun => "Sanshokudoujun"@,
        Yaku::Ryanpeikou => "Ryanpeikou"@,
        Yaku::Junchantaiyaochuu => "Junchantaiyaochuu"@,
        Yaku::Honiisou => "Honiisou"@,
        Yaku::Chiniisou => "Chiniisou"@,
        Yaku::Daisangen => "Daisangen"@,
        Yaku::Suuankou => "Suuankou"@,
        Yaku::Tsuuiisou => "Tsuuiisou"@,
        Yaku::Ryuuiisou => "Ryuuiisou"@,
        Yaku::Chinroutou => "Chinroutou"@,
        Yaku::Kokushimusou => "Kokushimusou"@,
        Yaku::Shousuushii => "Shousuushii"@,
        Yaku::Chuurenpoutou => "Chuurenpoutou"@,
        Yaku::Suuankoutanki => "Suuankoutanki"@,
        Yaku::Kokushimusou13 => "Kokushimusou13"@,
        Yaku::Junseichuurenpoutou => "Junseichuurenpoutou"@,
        Yaku::Daisuushii => "Daisuushii"@,
    }
}

impl Yaku {
    /// The place of the category in the order of categories.
    pub fn code(&self) -> (r: u16)
        ensures
            r == yaku_code(*self),
    {
        match self {
            Yaku::Tanyao => 0,
            Yaku::YakuhaiSangenpai(t) => {
                let id: u8 = t.index();
                256u16 + (id as u16)
            },
            Yaku::Pinfu => 2 * 256,
            Yaku::Iipeikou => 3 * 256,
            Yaku::Sanshokudoukou => 4 * 256,
            Yaku::Toitoihou => 5 * 256,
            Yaku::Sanankou => 6 * 256,
            Yaku::Shousangen => 7 * 256,
            Yaku::Honroutou => 8 * 256,
            Yaku::Chiitoitsu => 9 * 256,
            Yaku::Honchantaiyaochuu => 10 * 256,
            Yaku::Ikkitsuukan => 11 * 256,
            Yaku::Sanshokudoujun => 12 * 256,
            Yaku::Ryanpeikou => 13 * 256,
            Yaku::Junchantaiyaochuu => 14 * 256,
            Yaku::Honiisou => 15 * 256,
            Yaku::Chiniisou => 16 * 256,
            Yaku::Daisangen => 17 * 256,
            Yaku::Suuankou => 18 * 256,
            Yaku::Tsuuiisou => 19 * 256,
            Yaku::Ryuuiisou => 20 * 256,
            Yaku::Chinroutou => 21 * 256,
            Yaku::Kokushimusou => 22 * 256,
            Yaku::Shousuushii => 23 * 256,
            Yaku::Chuurenpoutou => 24 * 256,
            Yaku::Suuankoutanki => 25 * 256,
            Yaku::Kokushimusou13 => 26 * 256,
            Yaku::Junseichuurenpoutou => 27 * 256,
            Yaku::Daisuushii => 28 * 256,
        }
    }

    /// The name of the category.
    pub fn name(&self) -> (r: &'static str)
        ensures
            r@ == yaku_name(*self),
    {
        match self {
            Yaku::Tanyao => "Tanyao",
            Yaku::YakuhaiSangenpai(_) => "YakuhaiSangenpai",
            Yaku::Pinfu => "Pinfu",
            Yaku::Iipeikou => "Iipeikou",
            Yaku::Sanshokudoukou => "Sanshokudoukou",
            Yaku::Toitoihou => "Toitoihou",
            Yaku::Sanankou => "Sanankou",
            Yaku::Shousangen => "Shousangen",
            Yaku::Honroutou => "Honroutou",
            Yaku::Chiitoitsu => "Chiitoitsu",
            Yaku::Honchantaiyaochuu => "Honchantaiyaochuu",
            Yaku::Ikkitsuukan => "Ikkitsuukan",
            Yaku::Sanshokudoujun => "Sanshokudoujun",
            Yaku::Ryanpeikou => "Ryanpeikou",
            Yaku::Junchantaiyaochuu => "Junchantaiyaochuu",
            Yaku::Honiisou => "Honiisou",
            Yaku::Chiniisou => "Chiniisou",
            Yaku::Daisangen => "Daisangen",
            Yaku::Suuankou => "Suuankou",
            Yaku::Tsuuiisou => "Tsuuiisou",
            Yaku::Ryuuiisou => "Ryuuiisou",
            Yaku::Chinroutou => "Chinroutou",
            Yaku::Kokushimusou => "Kokushimusou",
            Yaku::Shousuushii => "Shousuushii",
            Yaku::Chuurenpoutou => "Chuurenpoutou",
            Yaku::Suuankoutanki => "Suuankoutanki",
            Yaku::Kokushimusou13 => "Kokushimusou13",
            Yaku::Junseichuurenpoutou => "Junseichuurenpoutou",
            Yaku::Daisuushii => "Daisuushii",
        }
    }
}

impl Han {
    /// An ordinary score.
    pub fn new(score: u8) -> (r: Han)
        ensures
            r == (Han { is_yakuman: false, score }),
    {
        Han { is_yakuman: false, score }
    }

    /// One yakuman.
    pub fn yakuman() -> (r: Han)
        ensures
            r == (Han { is_yakuman: true, score: 1 }),
    {
        Han { is_yakuman: true, score: 1 }
    }

    /// Two yakuman.
    pub fn double_yakuman() -> (r: Han)
        ensures
            r == (Han { is_yakuman: true, score: 2 }),
    {
        Han { is_yakuman: true, score: 2 }
    }

    /// Whether `self` is worth less than `other`.
    pub fn less_than(&self, other: &Han) -> (r: bool)
        ensures
            r == han_lt(*self, *other),
    {
        (!self.is_yakuman && other.is_yakuman) || (self.is_yakuman == other.is_yakuman
            && self.score < other.score)
    }

    /// The value of a list of categories.
    pub fn total(yakus: &Vec<Yaku>) -> (r: Han)
        ensures
            r == han_sum(yakus@),
    {
        let mut acc = Han::new(0);
        let mut i: usize = 0;
        while i < yakus.len()
            invariant
                i <= yakus.len(),
                acc == han_sum(yakus@.subrange(0, i as int)),
            decreases yakus.len() - i,
        {
            let h = Han::from(yakus[i]);
            proof {
                let s = yakus@.subrange(0, i + 1);
                assert(s.drop_last() =~= yakus@.subrange(0, i as int));
                assert(s.last() == yakus@[i as int]);
            }
            acc = acc + h;
            i += 1;
        }
        assert(yakus@.subrange(0, i as int) =~= yakus@);
        acc
    }
}

impl PartialOrd for Han {
    fn partial_cmp(&self, other: &Han) -> (r: Option<Ordering>) {
        if self.is_yakuman == other.is_yakuman {
            if self.score < other.score {
                Some(Ordering::Less)
            } else if self.score == other.score {
                Some(Ordering::Equal)
            } else {
                Some(Ordering::Greater)
            }
        } else if other.is_yakuman {
            Some(Ordering::Less)
        } else {
            Some(Ordering::Greater)
        }
    }
}

impl PartialOrdSpecImpl for Han {
    open spec fn obeys_partial_cmp_spec() -> bool {
        true
    }

    open spec fn partial_cmp_spec(&self, other: &Han) -> Option<Ordering> {
        if han_lt(*self, *other) {
            Some(Ordering::Less)
        } else if *self == *other {
            Some(Ordering::Equal)
        } else {
            Some(Ordering::Greater)
        }
    }
}

impl core::ops::Add for Han {
    type Output = Han;

    fn add(self, rhs: Han) -> (r: Han) {
        if self.is_yakuman || rhs.is_yakuman {
            let x: u8 = if self.is_yakuman {
                self.score
            } else {
                0
            };
            let y: u8 = if rhs.is_yakuman {
                rhs.score
            } else {
                0
            };
            let score: u8 = if x >= MAX_YAKUMAN || y >= MAX_YAKUMAN || (x == 1 && y == 1) {
                MAX_YAKUMAN
            } else if x == 1 || y == 1 {
                1
            } else {
                0
            };
            Han { is_yakuman: true, score }
        } else {
            let score: u8 = if self.score >= MAX_SCORE || rhs.score >= MAX_SCORE - self.score {
                MAX_SCORE
            } else {
                self.score + rhs.score
            };
            Han { is_yakuman: false, score }
        }
    }
}

impl AddSpecImpl for Han {
    open spec fn obeys_add_spec() -> bool {
        true
    }

    open spec fn add_req(self, rhs: Han) -> bool {
        true
    }

    open spec fn add_spec(self, rhs: Han) -> Han {
        han_add(self, rhs)
    }
}

impl From<Yaku> for Han {
    fn from(yaku: Yaku) -> (r: Han) {
        match yaku {
            Yaku::Tanyao | Yaku::YakuhaiSangenpai(_) | Yaku::Pinfu | Yaku::Iipeikou => Han::new(1),
            Yaku::Sanshokudoukou
            | Yaku::Toitoihou
            | Yaku::Sanankou
            | Yaku::Shousangen
            | Yaku::Honroutou
            | Yaku::Chiitoitsu
            | Yaku::Honchantaiyaochuu
            | Yaku::Ikkitsuukan
            | Yaku::Sanshokudoujun => Han::new(2),
            Yaku::Ryanpeikou | Yaku::Junchantaiyaochuu | Yaku::Honiisou => Han::new(3),
            Yaku::Chiniisou => Han::new(6),
            Yaku::Daisangen
            | Yaku::Suuankou
            | Yaku::Tsuuiisou
            | Yaku::Ryuuiisou
            | Yaku::Chinroutou
            | Yaku::Kokushimusou
            | Yaku::Shousuushii
            | Yaku::Chuurenpoutou => Han::yakuman(),
            Yaku::Suuankoutanki
            | Yaku::Kokushimusou13
            | Yaku::Junseichuurenpoutou
            | Yaku::Daisuushii => Han::double_yakuman(),
        }
    }
}

impl FromSpecImpl<Yaku> for Han {
    open spec fn obeys_from_spec() -> bool {
        true
    }

    open spec fn from_spec(yaku: Yaku) -> Han {
        han_of(yaku)
    }
}

/// Any number of yakuman is worth more than any ordinary score,
/// however high.
pub proof fn lemma_yakuman_dominates(ordinary: Han, yakuman: Han)
    requires
        !ordinary.is_yakuman,
        yakuman.is_yakuman,
    ensures
        han_lt(ordinary, yakuman),
        !han_lt(yakuman, ordinary),
{
}

/// The value of a list of categories is a yakuman exactly when one of
/// its categories is, and then stands above the value of every list
/// that holds none.
pub proof fn lemma_yakuman_list_dominates(with: Seq<Yaku>, without: Seq<Yaku>)
    requires
        exists|i: int| 0 <= i < with.len() && han_of(#[trigger] with[i]).is_yakuman,
        forall|i: int| 0 <= i < without.len() ==> !han_of(#[trigger] without[i]).is_yakuman,
    ensures
        han_sum(with).is_yakuman,
        !han_sum(without).is_yakuman,
        han_lt(han_sum(without), han_sum(with)),
{
    lemma_sum_is_yakuman(with);
    lemma_sum_is_yakuman(without);
}

/// The value of a list is a yakuman exactly when one of its
/// categories is.
pub proof fn lemma_sum_is_yakuman(yakus: Seq<Yaku>)
    ensures
        han_sum(yakus).is_yakuman <==> exists|i: int|
            0 <= i < yakus.len() && han_of(#[trigger] yakus[i]).is_yakuman,
    decreases yakus.len(),
{
    if yakus.len() > 0 {
        let front = yakus.drop_last();
        lemma_sum_is_yakuman(front);
        if han_sum(yakus).is_yakuman {
            if han_of(yakus.last()).is_yakuman {
                assert(han_of(yakus[yakus.len() - 1]).is_yakuman);
            } else {
                let i = choose|i: int| 0 <= i < front.len() && han_of(#[trigger] front[i]).is_yakuman;
                assert(yakus[i] == front[i]);
            }
        }
        if exists|i: int| 0 <= i < yakus.len() && han_of(#[trigger] yakus[i]).is_yakuman {
            let i = choose|i: int| 0 <= i < yakus.len() && han_of(#[trigger] yakus[i]).is_yakuman;
            if i < front.len() {
                assert(front[i] == yakus[i]);
            }
        }
    }
}

} // verus!
