//! Hands as text: tiles by name, several ranks of one suit at once,
//! and a number behind a name for as many tiles of that name.

use crate::counting::lemma_sum_permutation;
use crate::hand::{
    all_valid, insert_tile, kind_is, lemma_count_push, lemma_insert_at, lemma_insert_members,
    lemma_insert_then_remove, lemma_sorted_unique, sorted_tiles, tile_count, HandError,
};
use crate::ready_set::{ready_wf, ReadyTileSet};
use crate::tile::{
    honor_name, is_rank_char, is_suit_char, lemma_name_round_trip, lemma_parse_is_name, parse_tile,
    rank_char, rank_of, suit_char, Tile,
};
use vstd::prelude::*;
use vstd::string::*;

verus! {

/// The parts of a text that name tiles, from left to right: the name
/// of an honor, or ranks and the letter of their suit, each with the
/// digits that follow it.
pub uninterp spec fn tile_words(text: Seq<char>) -> Seq<Seq<char>>;

/// A decimal digit.
pub open spec fn is_digit(c: char) -> bool {
    '0' <= c && c <= '9'
}

/// A small letter.
pub open spec fn is_letter(c: char) -> bool {
    'a' <= c && c <= 'z'
}

/// The number that a digit writes.
pub open spec fn digit_value(c: char) -> int {
    c as int - '0' as int
}

/// The number that the digits write.
pub open spec fn decimal(digits: Seq<char>) -> int
    decreases digits.len(),
{
    if digits.len() == 0 {
        0
    } else {
        10 * decimal(digits.drop_last()) + digit_value(digits.last())
    }
}

/// Nothing but digits.
pub open spec fn all_digits(s: Seq<char>) -> bool {
    forall|i: int| 0 <= i < s.len() ==> is_digit(#[trigger] s[i])
}

/// The first place from `i` on where the word has no letter.
pub open spec fn letters_end(word: Seq<char>, i: int) -> int
    decreases word.len() - i,
{
    if i < 0 || i >= word.len() || !is_letter(word[i]) {
        i
    } else {
        letters_end(word, i + 1)
    }
}

/// The first place from `i` on where the word has no rank.
pub open spec fn ranks_end(word: Seq<char>, i: int) -> int
    decreases word.len() - i,
{
    if i < 0 || i >= word.len() || !is_rank_char(word[i]) {
        i
    } else {
        ranks_end(word, i + 1)
    }
}

/// How often the digits behind a name ask for its tiles: once where
/// there are none.
pub open spec fn times_of(digits: Seq<char>) -> int {
    if digits.len() == 0 {
        1
    } else {
        decimal(digits)
    }
}

/// The index of the suit that the letter stands for.
pub open spec fn suit_base(c: char) -> int {
    if c == 'm' {
        0
    } else if c == 'p' {
        9
    } else {
        18
    }
}

/// The tiles of the ranks in the suit with the given first index.
pub open spec fn tiles_of_ranks(ranks: Seq<char>, base: int) -> Seq<Tile> {
    Seq::new(ranks.len(), |i: int| Tile { id: (base + rank_of(ranks[i]) - 1) as u8 })
}

/// What a word names: tiles, and how often it asks for them; or
/// nothing for a word that is none.
pub open spec fn word_parts(word: Seq<char>) -> Option<(Seq<Tile>, int)> {
    if word.len() == 0 {
        None
    } else if is_rank_char(word[0]) {
        let e = ranks_end(word, 0);
        if e < word.len() && is_suit_char(word[e]) && all_digits(
            word.subrange(e + 1, word.len() as int),
        ) {
            Some(
                (
                    tiles_of_ranks(word.subrange(0, e), suit_base(word[e])),
                    times_of(word.subrange(e + 1, word.len() as int)),
                ),
            )
        } else {
            None
        }
    } else {
        let e = letters_end(word, 0);
        match parse_tile(word.subrange(0, e)) {
            Ok(t) => if t.id >= 27 && all_digits(word.subrange(e, word.len() as int)) {
                Some((seq![t], times_of(word.subrange(e, word.len() as int))))
            } else {
                None
            },
            Err(_) => None,
        }
    }
}

/// Every word names tiles.
pub open spec fn all_words(words: Seq<Seq<char>>) -> bool {
    forall|i: int| 0 <= i < words.len() ==> word_parts(#[trigger] words[i]).is_some()
}

/// `tiles`, `n` times over.
pub open spec fn repeated(tiles: Seq<Tile>, n: int) -> Seq<Tile>
    decreases n,
{
    if n <= 0 {
        Seq::empty()
    } else {
        repeated(tiles, n - 1) + tiles
    }
}

/// The tiles that the words name, in the order of the words.
pub open spec fn named_tiles(words: Seq<Seq<char>>) -> Seq<Tile>
    decreases words.len(),
{
    if words.len() == 0 {
        Seq::empty()
    } else {
        named_tiles(words.drop_last()) + match word_parts(words.last()) {
            Some((tiles, times)) => repeated(tiles, times),
            None => Seq::empty(),
        }
    }
}

/// The tiles in the canonical order.
pub open spec fn sort_tiles(tiles: Seq<Tile>) -> Seq<Tile>
    decreases tiles.len(),
{
    if tiles.len() == 0 {
        tiles
    } else {
        insert_tile(sort_tiles(tiles.drop_last()), tiles.last())
    }
}

/// The hand that the words name, or why they name none: a part that
/// is no word makes them `Malformed`; words that do not name thirteen
/// tiles have the `WrongTileCount`.
pub open spec fn hand_of_words(words: Seq<Seq<char>>) -> Result<Seq<Tile>, HandError> {
    if !all_words(words) {
        Err(HandError::Malformed)
    } else if named_tiles(words).len() != 13 {
        Err(HandError::WrongTileCount)
    } else {
        Ok(sort_tiles(named_tiles(words)))
    }
}

/// The text of the tiles: their names with a blank between.
pub open spec fn text_of(tiles: Seq<Tile>) -> Seq<char>
    decreases tiles.len(),
{
    if tiles.len() == 0 {
        Seq::empty()
    } else if tiles.len() == 1 {
        tiles[0].name_spec()
    } else {
        text_of(tiles.drop_last()) + seq![' '] + tiles.last().name_spec()
    }
}

/// Sorting keeps the tiles and puts them in order.
pub proof fn lemma_sort_tiles(tiles: Seq<Tile>)
    ensures
        sorted_tiles(sort_tiles(tiles)),
        sort_tiles(tiles).len() == tiles.len(),
        forall|k: int| tile_count(sort_tiles(tiles), k) == tile_count(tiles, k),
        all_valid(tiles) ==> all_valid(sort_tiles(tiles)),
    decreases tiles.len(),
{
    if tiles.len() > 0 {
        let front = tiles.drop_last();
        let t = tiles.last();
        lemma_sort_tiles(front);
        lemma_insert_then_remove(sort_tiles(front), t);
        lemma_insert_members(sort_tiles(front), t);
        assert forall|k: int| tile_count(sort_tiles(tiles), k) == tile_count(tiles, k) by {
            assert(front.push(t) =~= tiles);
            lemma_count_push(front, t, k);
        }
        if all_valid(tiles) {
            assert forall|i: int| 0 <= i < front.len() implies (#[trigger] front[i]).valid() by {
                assert(front[i] == tiles[i]);
            }
            assert(tiles[tiles.len() - 1].valid());
            let s = sort_tiles(tiles);
            assert forall|i: int| 0 <= i < s.len() implies (#[trigger] s[i]).valid() by {
                if s[i] != t {
                    let m = choose|m: int|
                        0 <= m < sort_tiles(front).len() && sort_tiles(front)[m] == s[i];
                    assert(sort_tiles(front)[m].valid());
                }
            }
        }
    }
}

/// The order in which tiles are named makes no difference to the
/// hand: tiles that are the same up to their order sort to the same
/// hand.
pub proof fn lemma_order_is_irrelevant(a: Seq<Tile>, b: Seq<Tile>)
    requires
        forall|k: int| 0 <= k < 256 ==> tile_count(a, k) == tile_count(b, k),
    ensures
        sort_tiles(a) == sort_tiles(b),
{
    lemma_sort_tiles(a);
    lemma_sort_tiles(b);
    assert forall|k: int| 0 <= k < 256 implies tile_count(sort_tiles(a), k) == tile_count(
        sort_tiles(b),
        k,
    ) by {
        assert(tile_count(a, k) == tile_count(b, k));
    }
    lemma_sorted_unique(sort_tiles(a), sort_tiles(b));
}

/// Tiles in the canonical order stay as they are when they are
/// sorted.
pub proof fn lemma_sorted_is_fixed(tiles: Seq<Tile>)
    requires
        sorted_tiles(tiles),
    ensures
        sort_tiles(tiles) == tiles,
{
    lemma_sort_tiles(tiles);
    lemma_sorted_unique(sort_tiles(tiles), tiles);
}

/// The pattern that finds the words of a hand in a text.
pub const WORD_PATTERN: &'static str =
    "((ton|nan|shaa|pei|haku|chun|hatsu)|([1-9]+)([psm]))(\\d+)?";

/// Finds the words of a hand in a text with `regex::Regex::find_iter`:
/// the matches of the word pattern, from left to right, none
/// overlapping another. The contract only names what comes back: for
/// the same text it is the same words.
#[verifier::external_body]
fn find_words(text: &str) -> (r: Vec<Vec<char>>)
    ensures
        r.deep_view() == tile_words(text@),
{
    let pattern = regex::Regex::new(WORD_PATTERN).unwrap();
    pattern.find_iter(text).map(|m| m.as_str().chars().collect()).collect()
}

/// `a` is the beginning of `b`.
pub open spec fn is_prefix(a: Seq<Tile>, b: Seq<Tile>) -> bool {
    a.len() <= b.len() && b.subrange(0, a.len() as int) == a
}

/// The tiles named by the first words are the beginning of the tiles
/// named by all.
pub proof fn lemma_named_prefix(words: Seq<Seq<char>>, i: int)
    requires
        0 <= i <= words.len(),
    ensures
        is_prefix(named_tiles(words.subrange(0, i)), named_tiles(words)),
    decreases words.len() - i,
{
    if i == words.len() {
        assert(words.subrange(0, i) =~= words);
        assert(named_tiles(words).subrange(0, named_tiles(words).len() as int) =~= named_tiles(
            words,
        ));
    } else {
        lemma_named_prefix(words, i + 1);
        let a = words.subrange(0, i);
        let b = words.subrange(0, i + 1);
        assert(b.drop_last() =~= a);
        let x = named_tiles(a);
        let y = named_tiles(b);
        let z = named_tiles(words);
        assert(y.subrange(0, x.len() as int) =~= x);
        assert(z.subrange(0, x.len() as int) =~= z.subrange(0, y.len() as int).subrange(
            0,
            x.len() as int,
        ));
    }
}

/// Tiles repeated are as many as the tiles, times the number, and
/// fewer repetitions with a beginning of the tiles are a beginning of
/// more.
pub proof fn lemma_repeated(tiles: Seq<Tile>, n: int, r: int, j: int)
    requires
        0 <= r <= n,
        0 <= j <= tiles.len(),
        r < n || j == 0,
    ensures
        repeated(tiles, n).len() == tiles.len() * n,
        repeated(tiles, r).len() == tiles.len() * r,
        is_prefix(repeated(tiles, r) + tiles.subrange(0, j), repeated(tiles, n)),
    decreases n,
{
    if n > 0 {
        assert(tiles.len() * n == tiles.len() * (n - 1) + tiles.len()) by (nonlinear_arith);
        if r == n {
            lemma_repeated(tiles, n - 1, r - 1, 0);
            assert(repeated(tiles, r) + tiles.subrange(0, 0) =~= repeated(tiles, n));
            assert(repeated(tiles, n).subrange(0, repeated(tiles, n).len() as int) =~= repeated(
                tiles,
                n,
            ));
        } else if r == n - 1 {
            lemma_repeated(tiles, n - 1, r, 0);
            let whole = repeated(tiles, n);
            let part = repeated(tiles, r) + tiles.subrange(0, j);
            assert(whole.subrange(0, part.len() as int) =~= part);
        } else {
            lemma_repeated(tiles, n - 1, r, j);
            let whole = repeated(tiles, n);
            let less = repeated(tiles, n - 1);
            let part = repeated(tiles, r) + tiles.subrange(0, j);
            assert(less.subrange(0, part.len() as int) == part);
            assert(whole.subrange(0, part.len() as int) =~= less.subrange(0, part.len() as int));
        }
    } else {
        assert(tiles.len() * 0 == 0) by (nonlinear_arith);
        assert(repeated(tiles, 0) + tiles.subrange(0, 0) =~= repeated(tiles, 0));
        assert(repeated(tiles, 0).subrange(0, 0) =~= repeated(tiles, 0));
    }
}

/// The number that digits write is not negative.
pub proof fn lemma_decimal(digits: Seq<char>)
    requires
        all_digits(digits),
    ensures
        decimal(digits) >= 0,
    decreases digits.len(),
{
    if digits.len() > 0 {
        let front = digits.drop_last();
        assert forall|i: int| 0 <= i < front.len() implies is_digit(#[trigger] front[i]) by {
            assert(front[i] == digits[i]);
        }
        lemma_decimal(front);
        assert(is_digit(digits[digits.len() - 1]));
    }
}

fn digit_of(c: char) -> (r: u8)
    requires
        is_digit(c),
    ensures
        r == digit_value(c),
        r <= 9,
{
    if c == '0' {
        0
    } else if c == '1' {
        1
    } else if c == '2' {
        2
    } else if c == '3' {
        3
    } else if c == '4' {
        4
    } else if c == '5' {
        5
    } else if c == '6' {
        6
    } else if c == '7' {
        7
    } else if c == '8' {
        8
    } else {
        9
    }
}

/// Reads the digits of a word from `from` on: how often the word
/// asks for its tiles, but no more than 14; nothing where anything
/// but a digit stands there.
fn read_times(word: &Vec<char>, from: usize) -> (r: Option<u8>)
    requires
        from <= word@.len(),
    ensures
        match r {
            Some(n) => all_digits(word@.subrange(from as int, word@.len() as int)) && n == (
            if times_of(word@.subrange(from as int, word@.len() as int)) >= 14 {
                14int
            } else {
                times_of(word@.subrange(from as int, word@.len() as int))
            }),
            None => !all_digits(word@.subrange(from as int, word@.len() as int)),
        },
{
    let ghost rest = word@.subrange(from as int, word@.len() as int);
    if from == word.len() {
        return Some(1);
    }
    let mut value: u8 = 0;
    let mut i: usize = from;
    assert(word@.subrange(from as int, from as int) =~= Seq::<char>::empty());
    while i < word.len()
        invariant
            from <= i <= word@.len(),
            rest == word@.subrange(from as int, word@.len() as int),
            all_digits(word@.subrange(from as int, i as int)),
            value <= 14,
            value == (if decimal(word@.subrange(from as int, i as int)) >= 14 {
                14int
            } else {
                decimal(word@.subrange(from as int, i as int))
            }),
        decreases word@.len() - i,
    {
        let c = word[i];
        if !('0' <= c && c <= '9') {
            assert(rest[i - from] == c);
            return None;
        }
        let d: u8 = digit_of(c);
        proof {
            let before = word@.subrange(from as int, i as int);
            let after = word@.subrange(from as int, i + 1);
            assert(after.drop_last() =~= before);
            assert(after.last() == c);
            lemma_decimal(before);
            assert forall|m: int| 0 <= m < after.len() implies is_digit(#[trigger] after[m]) by {
                if m < before.len() {
                    assert(after[m] == before[m]);
                }
            }
        }
        let next: u16 = 10 * (value as u16) + d as u16;
        value = if next >= 14 {
            14
        } else {
            next as u8
        };
        i += 1;
    }
    assert(word@.subrange(from as int, i as int) =~= rest);
    Some(value)
}

/// Reads one word.
pub fn parse_word(word: &Vec<char>) -> (r: Option<(Vec<Tile>, u8)>)
    ensures
        match r {
            Some(x) => word_parts(word@).is_some() && x.0@ == word_parts(word@).unwrap().0
                && x.0@.len() >= 1 && all_valid(x.0@) && x.1 == (if word_parts(
                word@,
            ).unwrap().1 >= 14 {
                14int
            } else {
                word_parts(word@).unwrap().1
            }) && word_parts(word@).unwrap().1 >= 0,
            None => word_parts(word@).is_none(),
        },
{
    let n: usize = word.len();
    if n == 0 {
        return None;
    }
    let first = word[0];
    if '1' <= first && first <= '9' {
        let mut e: usize = 0;
        while e < n && '1' <= word[e] && word[e] <= '9'
            invariant
                e <= n,
                n == word@.len(),
                ranks_end(word@, 0) == ranks_end(word@, e as int),
                forall|m: int| 0 <= m < e ==> is_rank_char(#[trigger] word@[m]),
            decreases n - e,
        {
            e += 1;
        }
        if e >= n {
            return None;
        }
        let suit = word[e];
        let base: u8 = if suit == 'm' {
            0
        } else if suit == 'p' {
            9
        } else if suit == 's' {
            18
        } else {
            return None;
        };
        let times = match read_times(word, e + 1) {
            Some(t) => t,
            None => {
                return None;
            },
        };
        let mut tiles: Vec<Tile> = Vec::new();
        let ghost ranks = word@.subrange(0, e as int);
        let mut i: usize = 0;
        while i < e
            invariant
                i <= e,
                e < n,
                n == word@.len(),
                base == suit_base(suit),
                ranks == word@.subrange(0, e as int),
                forall|m: int| 0 <= m < e ==> is_rank_char(#[trigger] word@[m]),
                tiles@.len() == i,
                forall|m: int| 0 <= m < i ==> tiles@[m] == tiles_of_ranks(ranks, base as int)[m],
                forall|m: int| 0 <= m < i ==> (#[trigger] tiles@[m]).valid(),
            decreases e - i,
        {
            let c = word[i];
            assert(is_rank_char(word@[i as int]));
            let rank: u8 = rank_digit(c);
            tiles.push(Tile { id: base + rank - 1 });
            i += 1;
        }
        proof {
            assert(tiles@ =~= tiles_of_ranks(ranks, base as int));
            let rest = word@.subrange(e + 1, n as int);
            if rest.len() > 0 {
                lemma_decimal(rest);
            }
        }
        Some((tiles, times))
    } else {
        let mut e: usize = 0;
        while e < n && 'a' <= word[e] && word[e] <= 'z'
            invariant
                e <= n,
                n == word@.len(),
                letters_end(word@, 0) == letters_end(word@, e as int),
            decreases n - e,
        {
            e += 1;
        }
        let mut name: Vec<char> = Vec::new();
        let mut i: usize = 0;
        while i < e
            invariant
                i <= e <= n,
                n == word@.len(),
                name@ == word@.subrange(0, i as int),
            decreases e - i,
        {
            name.push(word[i]);
            i += 1;
            assert(name@ =~= word@.subrange(0, i as int));
        }
        let tile = match Tile::from_chars(&name) {
            Ok(t) => t,
            Err(_) => {
                return None;
            },
        };
        if tile.id < 27 {
            return None;
        }
        let times = match read_times(word, e) {
            Some(t) => t,
            None => {
                return None;
            },
        };
        let mut tiles: Vec<Tile> = Vec::new();
        tiles.push(tile);
        proof {
            assert(tiles@ =~= seq![tile]);
            lemma_parse_is_name(name@);
            let rest = word@.subrange(e as int, n as int);
            if rest.len() > 0 {
                lemma_decimal(rest);
            }
        }
        Some((tiles, times))
    }
}

fn rank_digit(c: char) -> (r: u8)
    requires
        is_rank_char(c),
    ensures
        r == rank_of(c),
        1 <= r <= 9,
{
    if c == '1' {
        1
    } else if c == '2' {
        2
    } else if c == '3' {
        3
    } else if c == '4' {
        4
    } else if c == '5' {
        5
    } else if c == '6' {
        6
    } else if c == '7' {
        7
    } else if c == '8' {
        8
    } else {
        9
    }
}

/// The tiles in the canonical order.
pub fn sorted_hand(tiles: &Vec<Tile>) -> (r: Vec<Tile>)
    ensures
        r@ == sort_tiles(tiles@),
{
    let mut hand: Vec<Tile> = Vec::new();
    let mut i: usize = 0;
    assert(tiles@.subrange(0, 0) =~= Seq::<Tile>::empty());
    while i < tiles.len()
        invariant
            i <= tiles@.len(),
            hand@ == sort_tiles(tiles@.subrange(0, i as int)),
        decreases tiles@.len() - i,
    {
        let t = tiles[i];
        let mut j: usize = 0;
        while j < hand.len() && hand[j].id <= t.id
            invariant
                j <= hand@.len(),
                forall|m: int| 0 <= m < j ==> hand@[m].id <= t.id,
            decreases hand@.len() - j,
        {
            j += 1;
        }
        proof {
            let before = tiles@.subrange(0, i as int);
            let after = tiles@.subrange(0, i + 1);
            assert(after.drop_last() =~= before);
            assert(after.last() == t);
            lemma_sort_tiles(before);
            assert forall|m: int| j <= m < hand@.len() implies t.id <= hand@[m].id by {
                assert(hand@[j as int].id <= hand@[m].id);
            }
            lemma_insert_at(hand@, t, j as int);
        }
        hand.insert(j, t);
        i += 1;
    }
    assert(tiles@.subrange(0, i as int) =~= tiles@);
    hand
}

impl ReadyTileSet {
    /// The hand that the words name.
    pub fn from_words(words: &Vec<Vec<char>>) -> (r: Result<ReadyTileSet, HandError>)
        ensures
            match r {
                Ok(h) => hand_of_words(words.deep_view()) == Ok::<Seq<Tile>, HandError>(h@)
                    && h.wf(),
                Err(e) => hand_of_words(words.deep_view()) == Err::<Seq<Tile>, HandError>(e),
            },
    {
        let ghost all = words.deep_view();
        let mut parts: Vec<(Vec<Tile>, u8)> = Vec::new();
        let mut i: usize = 0;
        while i < words.len()
            invariant
                i <= words@.len(),
                all == words.deep_view(),
                all.len() == words@.len(),
                parts@.len() == i,
                forall|m: int| 0 <= m < i ==> fits_word(#[trigger] parts@[m], all[m]),
            decreases words@.len() - i,
        {
            assert(all[i as int] == words@[i as int]@);
            match parse_word(&words[i]) {
                Some(part) => {
                    parts.push(part);
                },
                None => {
                    assert(word_parts(all[i as int]).is_none());
                    return Err(HandError::Malformed);
                },
            }
            i += 1;
        }
        assert(all_words(all)) by {
            assert forall|m: int| 0 <= m < all.len() implies word_parts(
                #[trigger] all[m],
            ).is_some() by {
                assert(fits_word(parts@[m], all[m]));
            }
        }
        let mut named: Vec<Tile> = Vec::new();
        let mut i: usize = 0;
        assert(all.subrange(0, 0) =~= Seq::<Seq<char>>::empty());
        while i < parts.len()
            invariant
                i <= parts@.len(),
                parts@.len() == all.len(),
                all == words.deep_view(),
                all_words(all),
                forall|m: int| 0 <= m < parts@.len() ==> fits_word(#[trigger] parts@[m], all[m]),
                named@ == named_tiles(all.subrange(0, i as int)),
                named@.len() <= 13,
                all_valid(named@),
            decreases parts@.len() - i,
        {
            let ghost start = named@;
            let ghost base = parts@[i as int].0@;
            let ghost times = word_parts(all[i as int]).unwrap().1;
            assert(fits_word(parts@[i as int], all[i as int]));
            let n: u8 = parts[i].1;
            let len: usize = parts[i].0.len();
            proof {
                let upto = all.subrange(0, i + 1);
                assert(upto.drop_last() =~= all.subrange(0, i as int));
                assert(upto.last() == all[i as int]);
                assert(named_tiles(upto) == start + repeated(base, times));
                lemma_named_prefix(all, i + 1);
            }
            let mut r: u8 = 0;
            assert(start + repeated(base, 0) =~= start);
            while r < n
                invariant
                    r <= n,
                    n <= 14,
                    i < parts@.len(),
                    all == words.deep_view(),
                    all_words(all),
                    base == parts@[i as int].0@,
                    len == base.len(),
                    len >= 1,
                    all_valid(base),
                    times >= 0,
                    n == (if times >= 14 {
                        14int
                    } else {
                        times
                    }),
                    named@ == start + repeated(base, r as int),
                    named@.len() <= 13,
                    all_valid(named@),
                    is_prefix(start + repeated(base, times), named_tiles(all)),
                decreases n - r,
            {
                let ghost round = named@;
                let mut j: usize = 0;
                assert(round + base.subrange(0, 0) =~= round);
                while j < len
                    invariant
                        j <= len,
                        r < n,
                        n <= 14,
                        i < parts@.len(),
                        all == words.deep_view(),
                        all_words(all),
                        base == parts@[i as int].0@,
                        len == base.len(),
                        all_valid(base),
                        times >= 0,
                        n == (if times >= 14 {
                            14int
                        } else {
                            times
                        }),
                        round == start + repeated(base, r as int),
                        named@ == round + base.subrange(0, j as int),
                        named@.len() <= 13,
                        all_valid(named@),
                        is_prefix(start + repeated(base, times), named_tiles(all)),
                    decreases len - j,
                {
                    let t = parts[i].0[j];
                    assert(t == base[j as int]);
                    if named.len() >= 13 {
                        proof {
                            lemma_repeated(base, times, r as int, j + 1);
                            let part = repeated(base, r as int) + base.subrange(0, j + 1);
                            assert(part.len() == repeated(base, r as int).len() + j + 1);
                            assert(start.len() + part.len() >= 14);
                            assert((start + repeated(base, times)).len() >= 14);
                        }
                        return Err(HandError::WrongTileCount);
                    }
                    named.push(t);
                    j += 1;
                    proof {
                        assert(named@ =~= round + base.subrange(0, j as int));
                        assert forall|m: int| 0 <= m < named@.len() implies (
                        #[trigger] named@[m]).valid() by {
                            if m == named@.len() - 1 {
                                assert(base[j - 1].valid());
                            }
                        }
                    }
                }
                r += 1;
                proof {
                    assert(base.subrange(0, len as int) =~= base);
                    assert(named@ =~= start + repeated(base, r as int));
                }
            }
            proof {
                lemma_repeated(base, times, r as int, 0);
                if times >= 14 {
                    assert(base.len() * 14 >= 14) by (nonlinear_arith)
                        requires
                            base.len() >= 1,
                    ;
                }
                assert(r == times);
            }
            i += 1;
        }
        assert(all.subrange(0, i as int) =~= all);
        if named.len() != 13 {
            return Err(HandError::WrongTileCount);
        }
        let tiles = sorted_hand(&named);
        proof {
            lemma_sort_tiles(named@);
        }
        Ok(ReadyTileSet { tiles })
    }

    /// Reads a hand from text: the words of a hand are found in the
    /// text, and the hand is the one that they name. Anything between
    /// the words is passed over.
    pub fn from_str(text: &str) -> (r: Result<ReadyTileSet, HandError>)
        ensures
            match r {
                Ok(h) => hand_of_words(tile_words(text@)) == Ok::<Seq<Tile>, HandError>(h@)
                    && h.wf(),
                Err(e) => hand_of_words(tile_words(text@)) == Err::<Seq<Tile>, HandError>(e),
            },
    {
        let words = find_words(text);
        ReadyTileSet::from_words(&words)
    }

    /// The hand as text: the names of its tiles in order, with a
    /// blank between.
    pub fn to_string(&self) -> (r: String)
        ensures
            r@ == text_of(self@),
    {
        tiles_text(&self.tiles)
    }
}

/// What was read of a word is what the word names: its tiles, and how
/// often it asks for them, but no more than 14.
pub open spec fn fits_word(part: (Vec<Tile>, u8), word: Seq<char>) -> bool {
    &&& word_parts(word).is_some()
    &&& part.0@ == word_parts(word).unwrap().0
    &&& part.0@.len() >= 1
    &&& all_valid(part.0@)
    &&& word_parts(word).unwrap().1 >= 0
    &&& part.1 == (if word_parts(word).unwrap().1 >= 14 {
        14int
    } else {
        word_parts(word).unwrap().1
    })
}

/// The tiles as text: their names with a blank between.
pub fn tiles_text(tiles: &Vec<Tile>) -> (r: String)
    ensures
        r@ == text_of(tiles@),
{
    let mut text = String::new();
    let mut i: usize = 0;
    assert(tiles@.subrange(0, 0) =~= Seq::<Tile>::empty());
    while i < tiles.len()
        invariant
            i <= tiles@.len(),
            text@ == text_of(tiles@.subrange(0, i as int)),
        decreases tiles@.len() - i,
    {
        proof {
            let before = tiles@.subrange(0, i as int);
            let after = tiles@.subrange(0, i + 1);
            assert(after.drop_last() =~= before);
            assert(after.last() == tiles@[i as int]);
            reveal_strlit(" ");
            assert(" "@ =~= seq![' ']);
        }
        if i > 0 {
            text.append(" ");
        }
        text.append(tiles[i].name());
        proof {
            if i == 0 {
                assert(tiles@.subrange(0, 1)[0] == tiles@[0]);
                assert(Seq::<char>::empty() + tiles@[0].name_spec() =~= tiles@[0].name_spec());
            }
        }
        i += 1;
    }
    assert(tiles@.subrange(0, i as int) =~= tiles@);
    text
}

/// The name of every tile, as a word of its own.
pub open spec fn names_of(tiles: Seq<Tile>) -> Seq<Seq<char>> {
    Seq::new(tiles.len(), |i: int| tiles[i].name_spec())
}

/// The name of a tile is a word that names this tile once.
pub proof fn lemma_name_is_word(t: Tile)
    requires
        t.valid(),
    ensures
        word_parts(t.name_spec()) == Some((seq![t], 1int)),
{
    let word = t.name_spec();
    lemma_name_round_trip(t);
    if t.id < 27 {
        reveal_with_fuel(ranks_end, 3);
        assert(word.len() == 2);
        assert(word[0] == rank_char(t.rank()));
        assert(word[1] == suit_char(t.suit()));
        assert(ranks_end(word, 0) == 1);
        let rest = word.subrange(2, 2);
        assert(rest.len() == 0);
        let ranks = word.subrange(0, 1);
        assert(ranks[0] == word[0]);
        assert(rank_of(rank_char(t.rank())) == t.rank());
        let named = tiles_of_ranks(ranks, suit_base(word[1]));
        assert(named.len() == 1);
        assert(named[0] == t);
        assert(named =~= seq![t]);
    } else {
        reveal_with_fuel(letters_end, 7);
        let n = word.len() as int;
        assert(word == honor_name(t.id as int));
        assert(letters_end(word, 0) == n);
        assert(word.subrange(0, n) =~= word);
        let rest = word.subrange(n, n);
        assert(rest.len() == 0);
    }
}

/// The names of tiles are words that name these tiles, in their
/// order.
pub proof fn lemma_names_read_back(tiles: Seq<Tile>)
    requires
        all_valid(tiles),
    ensures
        all_words(names_of(tiles)),
        named_tiles(names_of(tiles)) == tiles,
    decreases tiles.len(),
{
    let words = names_of(tiles);
    assert forall|i: int| 0 <= i < words.len() implies word_parts(#[trigger] words[i]).is_some() by {
        assert(tiles[i].valid());
        lemma_name_is_word(tiles[i]);
    }
    if tiles.len() > 0 {
        let front = tiles.drop_last();
        assert forall|i: int| 0 <= i < front.len() implies (#[trigger] front[i]).valid() by {
            assert(front[i] == tiles[i]);
        }
        lemma_names_read_back(front);
        assert(words.drop_last() =~= names_of(front));
        let t = tiles.last();
        assert(tiles[tiles.len() - 1].valid());
        lemma_name_is_word(t);
        assert(words.last() == t.name_spec());
        reveal_with_fuel(repeated, 2);
        assert(repeated(seq![t], 1) =~= seq![t]);
        assert(front + seq![t] =~= tiles);
    } else {
        assert(named_tiles(words) =~= tiles);
    }
}

/// The tiles of a hand, named one by one in their order, read as the
/// hand.
pub proof fn lemma_text_round_trip(tiles: Seq<Tile>)
    requires
        ready_wf(tiles),
    ensures
        hand_of_words(names_of(tiles)) == Ok::<Seq<Tile>, HandError>(tiles),
{
    lemma_names_read_back(tiles);
    lemma_sorted_is_fixed(tiles);
}

/// Neither the order in which tiles are named nor the way in which
/// they are counted makes a difference: words that name the same
/// tiles equally often name the same hand, or fail alike.
pub proof fn lemma_notation_is_irrelevant(a: Seq<Seq<char>>, b: Seq<Seq<char>>)
    requires
        all_words(a),
        all_words(b),
        named_tiles(a).to_multiset() == named_tiles(b).to_multiset(),
    ensures
        hand_of_words(a) == hand_of_words(b),
{
    let x = named_tiles(a);
    let y = named_tiles(b);
    vstd::seq_lib::to_multiset_len(x);
    vstd::seq_lib::to_multiset_len(y);
    assert forall|k: int| 0 <= k < 256 implies tile_count(x, k) == tile_count(y, k) by {
        lemma_sum_permutation(x, y, kind_is(k));
    }
    lemma_order_is_irrelevant(x, y);
}

impl core::str::FromStr for ReadyTileSet {
    type Err = HandError;

    fn from_str(text: &str) -> (r: Result<ReadyTileSet, HandError>)
        ensures
            match r {
                Ok(h) => hand_of_words(tile_words(text@)) == Ok::<Seq<Tile>, HandError>(h@)
                    && h.wf(),
                Err(e) => hand_of_words(tile_words(text@)) == Err::<Seq<Tile>, HandError>(e),
            },
    {
        ReadyTileSet::from_str(text)
    }
}

} // verus!
