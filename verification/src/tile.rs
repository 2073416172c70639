//! The 34 tile kinds and their canonical order.

use vstd::prelude::*;
use vstd::string::*;

verus! {

/// Number of tile kinds.
pub const TILE_KINDS: u8 = 34;

/// Index of the first honor tile in the canonical order.
pub const FIRST_HONOR: u8 = 27;

/// Index of the first dragon tile in the canonical order.
pub const FIRST_DRAGON: u8 = 31;

/// One tile kind, identified by its position in the canonical order:
/// characters 1-9, circles 1-9, bamboos 1-9, the four winds, the three
/// dragons.
#[derive(Clone, Copy, Debug, PartialEq, Eq, Structural, PartialOrd, Ord, Hash)]
pub struct Tile {
    pub id: u8,
}

/// Why a text is not the name of a tile.
#[derive(Clone, Copy, Debug, PartialEq, Eq, Structural)]
pub enum TileError {
    /// A rank between 1 and 9 followed by something that is no suit.
    NotInSuit,
    /// Anything else.
    NotATile,
}

/// A character that names a rank, from 1 to 9.
pub open spec fn is_rank_char(c: char) -> bool {
    '1' <= c && c <= '9'
}

/// A character that names a suit.
pub open spec fn is_suit_char(c: char) -> bool {
    c == 'm' || c == 'p' || c == 's'
}

/// The character that names the suit with the given number.
pub open spec fn suit_char(suit: int) -> char {
    if suit == 0 {
        'm'
    } else if suit == 1 {
        'p'
    } else {
        's'
    }
}

/// The character that names the rank.
pub open spec fn rank_char(rank: int) -> char {
    if rank == 1 {
        '1'
    } else if rank == 2 {
        '2'
    } else if rank == 3 {
        '3'
    } else if rank == 4 {
        '4'
    } else if rank == 5 {
        '5'
    } else if rank == 6 {
        '6'
    } else if rank == 7 {
        '7'
    } else if rank == 8 {
        '8'
    } else {
        '9'
    }
}

/// The name of the honor tile with index `id`.
pub open spec fn honor_name(id: int) -> Seq<char> {
    if id == 27 {
        seq!['t', 'o', 'n']
    } else if id == 28 {
        seq!['n', 'a', 'n']
    } else if id == 29 {
        seq!['s', 'h', 'a', 'a']
    } else if id == 30 {
        seq!['p', 'e', 'i']
    } else if id == 31 {
        seq!['h', 'a', 'k', 'u']
    } else if id == 32 {
        seq!['h', 'a', 't', 's', 'u']
    } else {
        seq!['c', 'h', 'u', 'n']
    }
}

/// Two tile indices that can stand in one pair or one run: the same
/// kind, or two numbered kinds of one suit at most two ranks apart.
pub open spec fn related_ids(a: int, b: int) -> bool {
    0 <= a < 34 && 0 <= b < 34 && (a == b || (a < 27 && b < 27 && a / 9 == b / 9 && -2 <= a - b
        <= 2))
}

impl Tile {
    /// The tile is one of the 34 kinds.
    pub open spec fn valid(self) -> bool {
        self.id < 34
    }

    /// A wind or a dragon.
    pub open spec fn is_honor_spec(self) -> bool {
        27 <= self.id < 34
    }

    /// A tile of one of the three suits.
    pub open spec fn is_numbered_spec(self) -> bool {
        self.id < 27
    }

    /// The rank of a numbered tile, 0 for any other.
    pub open spec fn rank(self) -> int {
        if self.id < 27 {
            self.id % 9 + 1
        } else {
            0
        }
    }

    /// 0, 1, 2 for characters, circles, bamboos; 3 for any other tile.
    pub open spec fn suit(self) -> int {
        if self.id < 27 {
            self.id as int / 9
        } else {
            3
        }
    }

    /// A 1 or a 9.
    pub open spec fn is_terminal_spec(self) -> bool {
        self.rank() == 1 || self.rank() == 9
    }

    /// One of the three dragons.
    pub open spec fn is_dragon_spec(self) -> bool {
        31 <= self.id < 34
    }

    /// One of the four winds.
    pub open spec fn is_wind_spec(self) -> bool {
        27 <= self.id < 31
    }

    /// Terminal or honor.
    pub open spec fn is_yaochuu(self) -> bool {
        self.is_terminal_spec() || self.is_honor_spec()
    }

    /// The two tiles can stand in one pair or one run.
    pub open spec fn is_related_spec(self, other: Tile) -> bool {
        related_ids(self.id as int, other.id as int)
    }

    /// The text that names the tile; empty for a tile that is not valid.
    pub open spec fn name_spec(self) -> Seq<char> {
        if self.id < 27 {
            seq![rank_char(self.rank()), suit_char(self.suit())]
        } else if self.id < 34 {
            honor_name(self.id as int)
        } else {
            Seq::empty()
        }
    }

    /// The suit letter of a numbered tile, the name of any other.
    pub open spec fn type_spec(self) -> Seq<char> {
        if self.id < 27 {
            seq![suit_char(self.suit())]
        } else {
            self.name_spec()
        }
    }

    /// The tile at position `index` of the canonical order.
    pub fn from_index(index: u8) -> (r: Option<Tile>)
        ensures
            index < 34 ==> r == Some(Tile { id: index }),
            index >= 34 ==> r.is_none(),
    {
        if index < TILE_KINDS {
            Some(Tile { id: index })
        } else {
            None
        }
    }

    /// Whether the tile is one of the 34 kinds.
    pub fn is_valid(&self) -> (r: bool)
        ensures
            r == self.valid(),
    {
        self.id < TILE_KINDS
    }

    /// The position of the tile in the canonical order.
    pub fn index(&self) -> (r: u8)
        ensures
            r == self.id,
    {
        self.id
    }

    /// Whether the tile is a wind or a dragon.
    pub fn is_honor(&self) -> (r: bool)
        ensures
            r == self.is_honor_spec(),
    {
        FIRST_HONOR <= self.id && self.id < TILE_KINDS
    }

    /// Whether the tile is a 1 or a 9.
    pub fn is_terminal(&self) -> (r: bool)
        ensures
            r == self.is_terminal_spec(),
    {
        self.id < FIRST_HONOR && (self.id % 9 == 0 || self.id % 9 == 8)
    }

    /// Whether the tile is of one of the three suits.
    pub fn is_numbered(&self) -> (r: bool)
        ensures
            r == self.is_numbered_spec(),
    {
        self.id < FIRST_HONOR
    }

    /// Whether the tile is one of the three dragons.
    pub fn is_dragon(&self) -> (r: bool)
        ensures
            r == self.is_dragon_spec(),
    {
        FIRST_DRAGON <= self.id && self.id < TILE_KINDS
    }

    /// Whether the tile is one of the four winds.
    pub fn is_wind(&self) -> (r: bool)
        ensures
            r == self.is_wind_spec(),
    {
        FIRST_HONOR <= self.id && self.id < FIRST_DRAGON
    }

    /// The rank of a numbered tile, 0 for any other.
    pub fn number(&self) -> (r: u8)
        ensures
            r == self.rank(),
            r <= 9,
    {
        if self.id < FIRST_HONOR {
            self.id % 9 + 1
        } else {
            0
        }
    }

    /// The suit letter of a numbered tile, the name of any other.
    pub fn tile_type(&self) -> (r: &'static str)
        ensures
            r@ == self.type_spec(),
    {
        proof {
            reveal_strlit("m");
            reveal_strlit("p");
            reveal_strlit("s");
            reveal_strlit("");
        }
        if self.id < 9 {
            assert("m"@ =~= self.type_spec());
            "m"
        } else if self.id < 18 {
            assert("p"@ =~= self.type_spec());
            "p"
        } else if self.id < 27 {
            assert("s"@ =~= self.type_spec());
            "s"
        } else {
            self.name()
        }
    }

    /// Whether the two tiles can stand in one pair or one run.
    pub fn is_related(&self, other: Tile) -> (r: bool)
        ensures
            r == self.is_related_spec(other),
    {
        if self.id >= TILE_KINDS || other.id >= TILE_KINDS {
            false
        } else if self.id == other.id {
            true
        } else if self.id < FIRST_HONOR && other.id < FIRST_HONOR && self.id / 9 == other.id / 9 {
            if self.id < other.id {
                other.id - self.id <= 2
            } else {
                self.id - other.id <= 2
            }
        } else {
            false
        }
    }

    /// The tile one rank below in the same suit.
    pub fn prev(&self) -> (r: Option<Tile>)
        ensures
            r == (if self.rank() >= 2 {
                Some(Tile { id: (self.id - 1) as u8 })
            } else {
                None
            }),
    {
        if self.id < FIRST_HONOR && self.id % 9 != 0 {
            Some(Tile { id: self.id - 1 })
        } else {
            None
        }
    }

    /// The tile one rank above in the same suit.
    pub fn next(&self) -> (r: Option<Tile>)
        ensures
            r == (if 1 <= self.rank() <= 8 {
                Some(Tile { id: (self.id + 1) as u8 })
            } else {
                None
            }),
    {
        if self.id < FIRST_HONOR && self.id % 9 != 8 {
            Some(Tile { id: self.id + 1 })
        } else {
            None
        }
    }

    /// Whether `self` comes before `other` in the canonical order.
    pub fn precedes(&self, other: &Tile) -> (r: bool)
        ensures
            r == (self.id < other.id),
    {
        self.id < other.id
    }

    /// The text that names the tile.
    pub fn name(&self) -> (r: &'static str)
        ensures
            r@ == self.name_spec(),
    {
        let id: u8 = self.id;
        if id < 9 {
            if id == 0 {
                proof { reveal_strlit("1m"); }
                assert("1m"@ =~= self.name_spec());
                "1m"
            } else if id == 1 {
                proof { reveal_strlit("2m"); }
                assert("2m"@ =~= self.name_spec());
                "2m"
            } else if id == 2 {
                proof { reveal_strlit("3m"); }
                assert("3m"@ =~= self.name_spec());
                "3m"
            } else if id == 3 {
                proof { reveal_strlit("4m"); }
                assert("4m"@ =~= self.name_spec());
                "4m"
            } else if id == 4 {
                proof { reveal_strlit("5m"); }
                assert("5m"@ =~= self.name_spec());
                "5m"
            } else if id == 5 {
                proof { reveal_strlit("6m"); }
                assert("6m"@ =~= self.name_spec());
                "6m"
            } else if id == 6 {
                proof { reveal_strlit("7m"); }
                assert("7m"@ =~= self.name_spec());
                "7m"
            } else if id == 7 {
                proof { reveal_strlit("8m"); }
                assert("8m"@ =~= self.name_spec());
                "8m"
            } else {
                proof { reveal_strlit("9m"); }
                assert("9m"@ =~= self.name_spec());
                "9m"
            }
        } else if id < 18 {
            if id == 9 {
                proof { reveal_strlit("1p"); }
                assert("1p"@ =~= self.name_spec());
                "1p"
            } else if id == 10 {
                proof { reveal_strlit("2p"); }
                assert("2p"@ =~= self.name_spec());
                "2p"
            } else if id == 11 {
                proof { reveal_strlit("3p"); }
                assert("3p"@ =~= self.name_spec());
                "3p"
            } else if id == 12 {
                proof { reveal_strlit("4p"); }
                assert("4p"@ =~= self.name_spec());
                "4p"
            } else if id == 13 {
                proof { reveal_strlit("5p"); }
                assert("5p"@ =~= self.name_spec());
                "5p"
            } else if id == 14 {
                proof { reveal_strlit("6p"); }
                assert("6p"@ =~= self.name_spec());
                "6p"
            } else if id == 15 {
                proof { reveal_strlit("7p"); }
                assert("7p"@ =~= self.name_spec());
                "7p"
            } else if id == 16 {
                proof { reveal_strlit("8p"); }
                assert("8p"@ =~= self.name_spec());
                "8p"
            } else {
                proof { reveal_strlit("9p"); }
                assert("9p"@ =~= self.name_spec());
                "9p"
            }
        } else if id < 27 {
            if id == 18 {
                proof { reveal_strlit("1s"); }
                assert("1s"@ =~= self.name_spec());
                "1s"
            } else if id == 19 {
                proof { reveal_strlit("2s"); }
                assert("2s"@ =~= self.name_spec());
                "2s"
            } else if id == 20 {
                proof { reveal_strlit("3s"); }
                assert("3s"@ =~= self.name_spec());
                "3s"
            } else if id == 21 {
                proof { reveal_strlit("4s"); }
                assert("4s"@ =~= self.name_spec());
                "4s"
            } else if id == 22 {
                proof { reveal_strlit("5s"); }
                assert("5s"@ =~= self.name_spec());
                "5s"
            } else if id == 23 {
                proof { reveal_strlit("6s"); }
                assert("6s"@ =~= self.name_spec());
                "6s"
            } else if id == 24 {
                proof { reveal_strlit("7s"); }
                assert("7s"@ =~= self.name_spec());
                "7s"
            } else if id == 25 {
                proof { reveal_strlit("8s"); }
                assert("8s"@ =~= self.name_spec());
                "8s"
            } else {
                proof { reveal_strlit("9s"); }
                assert("9s"@ =~= self.name_spec());
                "9s"
            }
        } else if id == 27 {
            proof { reveal_strlit("ton"); }
            assert("ton"@ =~= self.name_spec());
            "ton"
        } else if id == 28 {
            proof { reveal_strlit("nan"); }
            assert("nan"@ =~= self.name_spec());
            "nan"
        } else if id == 29 {
            proof { reveal_strlit("shaa"); }
            assert("shaa"@ =~= self.name_spec());
            "shaa"
        } else if id == 30 {
            proof { reveal_strlit("pei"); }
            assert("pei"@ =~= self.name_spec());
            "pei"
        } else if id == 31 {
            proof { reveal_strlit("haku"); }
            assert("haku"@ =~= self.name_spec());
            "haku"
        } else if id == 32 {
            proof { reveal_strlit("hatsu"); }
            assert("hatsu"@ =~= self.name_spec());
            "hatsu"
        } else if id == 33 {
            proof { reveal_strlit("chun"); }
            assert("chun"@ =~= self.name_spec());
            "chun"
        } else {
            proof { reveal_strlit(""); }
            assert(""@ =~= self.name_spec());
            ""
        }
    }

    /// The text that names the tile, as a string of its own.
    pub fn to_string(&self) -> (r: String)
        ensures
            r@ == self.name_spec(),
    {
        String::from_str(self.name())
    }

    /// Reads the name of a tile from characters.
    ///
    /// Succeeds exactly on the 34 names, with the tile of that name. A
    /// rank from 1 to 9 followed by one character that is no suit letter
    /// is `NotInSuit`; every other text is `NotATile`.
    pub fn from_chars(chars: &Vec<char>) -> (r: Result<Tile, TileError>)
        ensures
            parse_tile(chars@) == r,
    {
        let n: usize = chars.len();
        if n == 2 && '1' <= chars[0] && chars[0] <= '9' {
            let rank: u8 = rank_of_char(chars[0]);
            let c = chars[1];
            if c == 'm' {
                Ok(Tile { id: rank - 1 })
            } else if c == 'p' {
                Ok(Tile { id: rank + 8 })
            } else if c == 's' {
                Ok(Tile { id: rank + 17 })
            } else {
                Err(TileError::NotInSuit)
            }
        } else if n == 3 && chars[0] == 't' && chars[1] == 'o' && chars[2] == 'n' {
            assert(chars@ =~= honor_name(27));
            Ok(Tile { id: 27 })
        } else if n == 3 && chars[0] == 'n' && chars[1] == 'a' && chars[2] == 'n' {
            assert(chars@ =~= honor_name(28));
            Ok(Tile { id: 28 })
        } else if n == 4 && chars[0] == 's' && chars[1] == 'h' && chars[2] == 'a' && chars[3]
            == 'a' {
            assert(chars@ =~= honor_name(29));
            Ok(Tile { id: 29 })
        } else if n == 3 && chars[0] == 'p' && chars[1] == 'e' && chars[2] == 'i' {
            assert(chars@ =~= honor_name(30));
            Ok(Tile { id: 30 })
        } else if n == 4 && chars[0] == 'h' && chars[1] == 'a' && chars[2] == 'k' && chars[3]
            == 'u' {
            assert(chars@ =~= honor_name(31));
            Ok(Tile { id: 31 })
        } else if n == 5 && chars[0] == 'h' && chars[1] == 'a' && chars[2] == 't' && chars[3]
            == 's' && chars[4] == 'u' {
            assert(chars@ =~= honor_name(32));
            Ok(Tile { id: 32 })
        } else if n == 4 && chars[0] == 'c' && chars[1] == 'h' && chars[2] == 'u' && chars[3]
            == 'n' {
            assert(chars@ =~= honor_name(33));
            Ok(Tile { id: 33 })
        } else {
            Err(TileError::NotATile)
        }
    }

    /// Reads the name of a tile; see [`Tile::from_chars`].
    pub fn from_str(s: &str) -> (r: Result<Tile, TileError>)
        ensures
            parse_tile(s@) == r,
    {
        let n: usize = s.unicode_len();
        let mut chars: Vec<char> = Vec::new();
        let mut i: usize = 0;
        while i < n
            invariant
                n == s@.len(),
                i <= n,
                chars@ == s@.subrange(0, i as int),
            decreases n - i,
        {
            let c = s.get_char(i);
            chars.push(c);
            i += 1;
            assert(chars@ =~= s@.subrange(0, i as int));
        }
        assert(chars@ =~= s@);
        Tile::from_chars(&chars)
    }
}

/// The rank that a character from '1' to '9' stands for.
pub open spec fn rank_of(c: char) -> int {
    if c == '1' {
        1
    } else if c == '2' {
        2
    } else if c == '3' {
        3
    } else if c == '4' {
        4
    } else if c == '5' {
        5
    } else if c == '6' {
        6
    } else if c == '7' {
        7
    } else if c == '8' {
        8
    } else {
        9
    }
}

/// What a text names: the tile, or why it names none.
pub open spec fn parse_tile(s: Seq<char>) -> Result<Tile, TileError> {
    if s.len() == 2 && is_rank_char(s[0]) {
        if s[1] == 'm' {
            Ok(Tile { id: (rank_of(s[0]) - 1) as u8 })
        } else if s[1] == 'p' {
            Ok(Tile { id: (rank_of(s[0]) + 8) as u8 })
        } else if s[1] == 's' {
            Ok(Tile { id: (rank_of(s[0]) + 17) as u8 })
        } else {
            Err(TileError::NotInSuit)
        }
    } else if s == honor_name(27) {
        Ok(Tile { id: 27 })
    } else if s == honor_name(28) {
        Ok(Tile { id: 28 })
    } else if s == honor_name(29) {
        Ok(Tile { id: 29 })
    } else if s == honor_name(30) {
        Ok(Tile { id: 30 })
    } else if s == honor_name(31) {
        Ok(Tile { id: 31 })
    } else if s == honor_name(32) {
        Ok(Tile { id: 32 })
    } else if s == honor_name(33) {
        Ok(Tile { id: 33 })
    } else {
        Err(TileError::NotATile)
    }
}

fn rank_of_char(c: char) -> (r: u8)
    requires
        is_rank_char(c),
    ensures
        r == rank_of(c),
        1 <= r <= 9,
{
    if c == '1' {
        1
    } else if c == '2' {
        2
    } else if c == '3' {
        3
    } else if c == '4' {
        4
    } else if c == '5' {
        5
    } else if c == '6' {
        6
    } else if c == '7' {
        7
    } else if c == '8' {
        8
    } else {
        9
    }
}

/// Reading a tile's name gives the tile back, and a text that reads
/// as a tile is that tile's name.
pub proof fn lemma_name_round_trip(t: Tile)
    requires
        t.valid(),
    ensures
        parse_tile(t.name_spec()) == Ok::<Tile, TileError>(t),
{
    let s = t.name_spec();
    if t.id < 27 {
        assert(s.len() == 2);
        assert(s[0] == rank_char(t.rank()));
        assert(s[1] == suit_char(t.suit()));
        assert(rank_of(rank_char(t.rank())) == t.rank());
    } else {
        assert(honor_name(27).len() == 3);
        assert(honor_name(27)[0] == 't');
        assert(honor_name(28)[0] == 'n');
        assert(honor_name(29)[0] == 's');
        assert(honor_name(30)[0] == 'p');
        assert(honor_name(31)[2] == 'k');
        assert(honor_name(32)[2] == 't');
        assert(honor_name(33)[0] == 'c');
        assert(s[0] != '1');
    }
}

/// A text that reads as a tile is the name of that tile.
pub proof fn lemma_parse_is_name(s: Seq<char>)
    ensures
        parse_tile(s) matches Ok(t) ==> t.valid() && t.name_spec() == s,
{
    if s.len() == 2 && is_rank_char(s[0]) {
        if let Ok(t) = parse_tile(s) {
            assert(rank_char(rank_of(s[0])) == s[0]);
            assert(t.name_spec() =~= s);
        }
    }
}

impl core::str::FromStr for Tile {
    type Err = TileError;

    fn from_str(s: &str) -> (r: Result<Tile, TileError>)
        ensures
            parse_tile(s@) == r,
    {
        Tile::from_str(s)
    }
}

} // verus!
