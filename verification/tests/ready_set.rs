use yaku_checker::hand::HandError;
use yaku_checker::notation::parse_word;
use yaku_checker::distance::Shape;
use yaku_checker::ready_set::ReadyTileSet;
use yaku_checker::tile::Tile;
use yaku_checker::yaku::Yaku;

fn tile(name: &str) -> Tile {
    Tile::from_str(name).unwrap()
}

fn hand(text: &str) -> ReadyTileSet {
    ReadyTileSet::from_str(text).unwrap()
}

#[test]
fn ready_set_from_str() {
    assert_eq!(
        ReadyTileSet::from_str("123p 4m3 5s1 6s haku1 chun2 nan1 shaa")
            .unwrap()
            .to_string(),
        "4m 4m 4m 1p 2p 3p 5s 6s nan shaa haku chun chun"
    );
    assert_eq!(
        ReadyTileSet::from_str("hatsu1 123p3 hatsu ton pei")
            .unwrap()
            .to_string(),
        "1p 1p 1p 2p 2p 2p 3p 3p 3p ton pei hatsu hatsu"
    );
    assert_eq!(
        ReadyTileSet::from_str("1112345678999p")
            .unwrap()
            .to_string(),
        "1p 1p 1p 2p 3p 4p 5p 6p 7p 8p 9p 9p 9p"
    );

    assert_eq!(
        ReadyTileSet::from_str("hatsu12 haku0 chun")
            .unwrap()
            .to_string(),
        "hatsu hatsu hatsu hatsu hatsu hatsu hatsu hatsu hatsu hatsu hatsu hatsu chun"
    );
}

#[test]
fn the_text_of_a_hand_reads_as_the_hand() {
    let texts = [
        "4m 4m 4m 1p 2p 3p 5s 6s nan shaa haku chun chun",
        "1p 1p 1p 2p 3p 4p 5p 6p 7p 8p 9p 9p 9p",
        "1m 9m 1p 9p 1s 9s ton nan shaa pei haku hatsu chun",
    ];
    for text in texts {
        assert_eq!(hand(text).to_string(), text);
    }
    // the same tiles in another order and another notation
    let a = hand("chun2 haku shaa nan 65s 321p 4m3");
    let b = hand("123p 4m3 5s1 6s haku1 chun2 nan1 shaa");
    assert_eq!(a, b);
    assert_eq!(a.to_string(), b.to_string());
    let c = hand("9p 1p 9s 1s 9m 1m chun hatsu haku pei shaa nan ton");
    assert_eq!(c.to_string(), texts[2]);
}

#[test]
fn wrong_numbers_of_tiles_are_refused() {
    assert_eq!(ReadyTileSet::from_str("").err(), Some(HandError::WrongTileCount));
    assert_eq!(ReadyTileSet::from_str("123p").err(), Some(HandError::WrongTileCount));
    assert_eq!(
        ReadyTileSet::from_str("123456789p 12345m").err(),
        Some(HandError::WrongTileCount)
    );
    assert_eq!(ReadyTileSet::from_str("hatsu14").err(), Some(HandError::WrongTileCount));
    assert_eq!(
        ReadyTileSet::from_str("hatsu99999999999999999999999999").err(),
        Some(HandError::WrongTileCount)
    );
    assert_eq!(ReadyTileSet::from_str("no tiles here").err(), Some(HandError::WrongTileCount));
    assert!(ReadyTileSet::from_str("hatsu13").is_ok());
    assert!(ReadyTileSet::from_str("hatsu013").is_ok());
    assert!(ReadyTileSet::from_str("and 123456789p, then 1234m!").is_ok());
}

#[test]
fn words_are_read_one_by_one() {
    let chars = |s: &str| s.chars().collect::<Vec<char>>();
    assert_eq!(parse_word(&chars("123p")), Some((vec![tile("1p"), tile("2p"), tile("3p")], 1)));
    assert_eq!(parse_word(&chars("4m3")), Some((vec![tile("4m")], 3)));
    assert_eq!(parse_word(&chars("99s0")), Some((vec![tile("9s"), tile("9s")], 0)));
    assert_eq!(parse_word(&chars("haku")), Some((vec![tile("haku")], 1)));
    assert_eq!(parse_word(&chars("chun12")), Some((vec![tile("chun")], 12)));
    assert_eq!(parse_word(&chars("chun14")), Some((vec![tile("chun")], 14)));
    assert_eq!(parse_word(&chars("chun123456789")), Some((vec![tile("chun")], 14)));
    assert_eq!(parse_word(&chars("")), None);
    assert_eq!(parse_word(&chars("123")), None);
    assert_eq!(parse_word(&chars("123q")), None);
    assert_eq!(parse_word(&chars("1p2x")), None);
    assert_eq!(parse_word(&chars("tonn")), None);
    assert_eq!(parse_word(&chars("m")), None);
    assert_eq!(parse_word(&chars("haku-1")), None);
    assert_eq!(parse_word(&chars("0p")), None);
}

#[test]
fn words_that_are_none_are_malformed() {
    let words = |list: &[&str]| list.iter().map(|s| s.chars().collect()).collect::<Vec<Vec<char>>>();
    assert_eq!(
        ReadyTileSet::from_words(&words(&["123456789p", "1234m"])).map(|h| h.to_string()),
        Ok("1m 2m 3m 4m 1p 2p 3p 4p 5p 6p 7p 8p 9p".to_string())
    );
    assert_eq!(
        ReadyTileSet::from_words(&words(&["123456789p", "1234x"])).err(),
        Some(HandError::Malformed)
    );
    assert_eq!(
        ReadyTileSet::from_words(&words(&["hatsu99", "bad"])).err(),
        Some(HandError::Malformed)
    );
    assert_eq!(
        ReadyTileSet::from_words(&words(&["hatsu99", "chun"])).err(),
        Some(HandError::WrongTileCount)
    );
    assert_eq!(ReadyTileSet::from_words(&words(&[])).err(), Some(HandError::WrongTileCount));
}

#[test]
fn draw_puts_the_tile_in_its_place() {
    let h = hand("123456789p 1234m");
    let full = h.draw(tile("4m"));
    let names: Vec<&str> = full.tiles.iter().map(|t| t.name()).collect();
    assert_eq!(
        names,
        ["1m", "2m", "3m", "4m", "4m", "1p", "2p", "3p", "4p", "5p", "6p", "7p", "8p", "9p"]
    );
    assert_eq!(full.last_draw, tile("4m"));
    let full = h.draw(tile("chun"));
    assert_eq!(full.tiles[13], tile("chun"));
    let full = hand("2m 123456789p 123s").draw(tile("1m"));
    assert_eq!(full.tiles[0], tile("1m"));
    assert_eq!(full.tiles[1], tile("2m"));
}

#[test]
fn maybe_effective_needs_a_related_tile() {
    let h = hand("123456789p 1234m");
    assert!(h.maybe_effective(tile("5m")));
    assert!(h.maybe_effective(tile("6m")));
    assert!(!h.maybe_effective(tile("7m")));
    assert!(h.maybe_effective(tile("9p")));
    assert!(!h.maybe_effective(tile("1s")));
    assert!(!h.maybe_effective(tile("ton")));
}

#[test]
fn distance_from_seven_pairs() {
    assert_eq!(hand("1p2 2s2 3m2 4p2 5s2 6m2 7p").chiitou_shanten(), 0);
    assert_eq!(hand("1p2 2s2 3m2 4p2 5s2 6m 7p 8p").chiitou_shanten(), 1);
    assert_eq!(hand("1p3 2s2 3m2 4p2 5s2 6m2").chiitou_shanten(), 0);
    assert_eq!(hand("1p4 2s4 3m4 4p").chiitou_shanten(), 3);
    assert_eq!(hand("147m 147p 147s ton nan shaa pei").chiitou_shanten(), 6);
    assert_eq!(hand("1p2 2s2 3m2 4p2 5s2 6m2 7p").distance_for(Shape::SevenPairs), 0);
}

#[test]
fn distance_from_thirteen_orphans() {
    assert_eq!(hand("19p 19s 19m haku hatsu chun ton nan shaa pei").kokushi_shanten(), 0);
    assert_eq!(hand("19p 19s 19m haku hatsu chun ton nan shaa shaa").kokushi_shanten(), 0);
    assert_eq!(hand("19p 19s 19m haku hatsu chun ton nan shaa 5m").kokushi_shanten(), 1);
    assert_eq!(hand("19p 19s 19m haku hatsu chun ton nan nan 5m").kokushi_shanten(), 1);
    assert_eq!(hand("2345678p 234567m").kokushi_shanten(), 13);
    assert_eq!(hand("147m 258p 369s ton nan shaa pei").kokushi_shanten(), 7);
    assert_eq!(hand("1m3 9m3 1p3 9p3 5s").kokushi_shanten(), 8);
}

#[test]
fn distance_from_four_groups_and_a_pair() {
    assert_eq!(hand("123456789p 1234m").common_shanten(), 0);
    assert_eq!(hand("123456789p 123m chun").common_shanten(), 0);
    assert_eq!(hand("123456789p 12m chun2").common_shanten(), 0);
    assert_eq!(hand("123456789p 13m chun2").common_shanten(), 0);
    assert_eq!(hand("123456789p 1m ton nan chun").common_shanten(), 2);
    assert_eq!(hand("123456789p 12m ton nan").common_shanten(), 1);
    assert_eq!(hand("123456789p 11m ton nan").common_shanten(), 1);
    assert_eq!(hand("123456p 1m 9m ton nan shaa pei chun").common_shanten(), 4);
    assert_eq!(hand("147m 258p 369s ton nan shaa pei").common_shanten(), 8);
    assert_eq!(hand("1m2 4m2 7m2 2p2 5p2 8p2 ton").common_shanten(), 3);
    assert_eq!(hand("123456789p 1234m").distance_for(Shape::Standard), 0);
}

#[test]
fn a_hand_one_draw_from_complete_lists_its_draws() {
    let h = hand("123456789p 1234m");
    let (distance, detail) = h.check();
    assert_eq!(distance, 0);
    assert_eq!(
        detail,
        vec![
            (tile("1m"), vec![Yaku::Ikkitsuukan]),
            (tile("4m"), vec![Yaku::Ikkitsuukan]),
        ]
    );
    assert_eq!(h.shanten(), 0);
    assert_eq!(h.winning_draws(), detail);
}

#[test]
fn thirteen_orphans_wait_on_all_thirteen() {
    let h = hand("19p 19s 19m haku hatsu chun ton nan shaa pei");
    let (distance, detail) = h.check();
    assert_eq!(distance, 0);
    assert_eq!(detail.len(), 13);
    for (t, yakus) in &detail {
        assert!(t.is_honor() || t.is_terminal());
        assert_eq!(yakus, &vec![Yaku::Kokushimusou13]);
    }
    let h = hand("19p 19s 19m haku hatsu chun ton nan shaa shaa");
    assert_eq!(h.check(), (0, vec![(tile("pei"), vec![Yaku::Kokushimusou])]));
}

#[test]
fn seven_pairs_wait_on_the_single_tile() {
    let h = hand("1p2 2s2 3m2 4p2 5s2 6m2 7p");
    assert_eq!(h.check(), (0, vec![(tile("7p"), vec![Yaku::Chiitoitsu])]));
}

#[test]
fn a_hand_far_from_complete_has_no_detail() {
    let h = hand("147m 258p 369s ton nan shaa pei");
    assert_eq!(h.distances(), (7, 8, 6));
    assert_eq!(h.check(), (6, vec![]));
    assert_eq!(h.shanten(), 6);
    let h = hand("123456p 1m 9m ton nan shaa pei chun");
    assert_eq!(h.distances(), (5, 4, 6));
    assert_eq!(h.check(), (4, vec![]));
}

#[test]
fn a_hand_near_thirteen_orphans_names_what_helps() {
    // eleven kinds of orphans and a pair among them: the two that are
    // missing help
    let h = hand("19p 19s 19m haku hatsu chun ton ton nan 5m");
    assert_eq!(h.kokushi_shanten(), 1);
    let (distance, detail) = h.check();
    assert_eq!(distance, 1);
    let orphans: Vec<&(Tile, Vec<Yaku>)> =
        detail.iter().filter(|(_, y)| y == &vec![Yaku::Kokushimusou]).collect();
    let tiles: Vec<Tile> = orphans.iter().map(|(t, _)| *t).collect();
    assert!(!tiles.contains(&tile("nan")));
    assert!(tiles.contains(&tile("shaa")));
    assert!(tiles.contains(&tile("pei")));
    assert!(!tiles.contains(&tile("ton")));
    // entries stand in order, none twice
    for pair in detail.windows(2) {
        assert!(pair[0] < pair[1]);
    }
}

#[test]
fn a_hand_one_exchange_away_names_first_draws() {
    let h = hand("123456789p 12m ton nan");
    let (distance, detail) = h.check();
    assert_eq!(distance, 1);
    assert!(!detail.is_empty());
    for pair in detail.windows(2) {
        assert!(pair[0] < pair[1]);
    }
    // every first draw is a tile that the hand holds a related tile to
    for (t, _) in &detail {
        assert!(h.maybe_effective(*t));
    }
    assert!(detail.contains(&(tile("3m"), vec![Yaku::Ikkitsuukan])));
    assert!(detail.contains(&(tile("ton"), vec![Yaku::Ikkitsuukan])));
    assert!(detail.contains(&(tile("nan"), vec![Yaku::Ikkitsuukan])));
    assert!(!detail.iter().any(|(t, _)| *t == tile("chun")));
}

#[test]
fn the_distance_is_never_below_the_lowest_of_the_three() {
    let texts = [
        "123456789p 1234m",
        "123456789p 12m ton nan",
        "147m 258p 369s ton nan shaa pei",
        "19p 19s 19m haku hatsu chun ton nan shaa pei",
        "1p2 2s2 3m2 4p2 5s2 6m2 7p",
        "123456p 1m 9m ton nan shaa pei chun",
        "1p3 2s2 3m2 4p2 5s2 6m2",
    ];
    for text in texts {
        let h = hand(text);
        let (orphans, standard, pairs) = h.distances();
        let least = orphans.min(standard).min(pairs);
        assert!(h.shanten() >= least, "{}", text);
        assert!(h.shanten() <= least, "{}", text);
    }
}

#[test]
fn drawing_a_winning_tile_and_putting_it_down_keeps_the_distance() {
    let h = hand("123456789p 1234m");
    let (distance, detail) = h.check();
    for (t, _) in detail {
        let full = h.draw(t);
        assert!(full.yakus().is_some());
        let back = full.discard(t).unwrap();
        assert_eq!(back, h);
        assert!(back.shanten() <= distance);
    }
}

#[test]
fn a_hand_at_no_distance_may_still_not_be_one_draw_from_complete() {
    // six pairs, one of them with a third tile: no draw makes seven
    let h = hand("1p3 2s2 3m2 4p2 5s2 6m2");
    assert_eq!(h.chiitou_shanten(), 0);
    assert!(h.winning_draws().is_empty());
    assert_eq!(h.check(), (0, vec![]));
}

#[test]
fn hands_made_by_hand_can_be_checked() {
    let h = hand("123456789p 1234m");
    assert!(h.is_wf());
    let mut short = h.clone();
    short.tiles.pop();
    assert!(!short.is_wf());
    let mut unsorted = h.clone();
    unsorted.tiles.swap(0, 12);
    assert!(!unsorted.is_wf());
    let mut invalid = h.clone();
    invalid.tiles[12] = Tile { id: 34 };
    assert!(!invalid.is_wf());
    assert!(!Tile { id: 34 }.is_valid());
    assert!(tile("chun").is_valid());

    let full = h.draw(tile("4m"));
    assert!(full.is_wf());
    let mut stranger = full.clone();
    stranger.last_draw = tile("chun");
    assert!(!stranger.is_wf());
}

#[test]
fn hands_parse_from_text() {
    let h: ReadyTileSet = "123456789p 1234m".parse().unwrap();
    assert_eq!(h, hand("123456789p 1234m"));
    assert_eq!("123p".parse::<ReadyTileSet>().err(), Some(HandError::WrongTileCount));
}

#[test]
fn a_hand_two_exchanges_away_names_first_draws() {
    let h = hand("123456789p 1m ton nan chun");
    let (distance, detail) = h.check();
    assert_eq!(distance, 2);
    assert!(!detail.is_empty());
    for pair in detail.windows(2) {
        assert!(pair[0] < pair[1]);
    }
    for (t, _) in &detail {
        assert!(h.maybe_effective(*t));
    }
    // a second wind or dragon or a neighbour of the 1 brings the hand on
    assert!(detail.iter().any(|(t, _)| *t == tile("ton")));
    assert!(detail.iter().any(|(t, _)| *t == tile("2m")));
    assert!(detail.iter().any(|(t, y)| *t == tile("1m") && y == &vec![Yaku::Ikkitsuukan]));
    assert!(!detail.iter().any(|(t, _)| *t == tile("5s")));
}
