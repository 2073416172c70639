use yaku_checker::full_set::FullTileSet;
use yaku_checker::hand::HandError;
use yaku_checker::ready_set::ReadyTileSet;
use yaku_checker::tile::Tile;
use yaku_checker::tile_block::{BlockType, TileBlock};
use yaku_checker::yaku::{Han, Yaku};

fn tile(name: &str) -> Tile {
    Tile::from_str(name).unwrap()
}

fn drawn(hand: &str, draw: &str) -> FullTileSet {
    ReadyTileSet::from_str(hand).unwrap().draw(tile(draw))
}

#[test]
fn kukoshi_pattern() {
    let tileset = ReadyTileSet::from_str("19p 19s 19m haku hatsu chun tonn nan shaa pei")
        .unwrap()
        .draw(tile("chun"));
    let patterns = tileset.patterns();
    assert_eq!(patterns.len(), 1);
    assert_eq!(patterns[0].pattern.len(), 14);
    assert_eq!(patterns[0].last_draw, tile("chun"));
}

#[test]
fn chiitoi_pattern() {
    let tileset = ReadyTileSet::from_str("1p2 2s2 3m2 4p2 5s2 6m2 7p")
        .unwrap()
        .draw(tile("7p"));
    let patterns = tileset.patterns();
    assert_eq!(patterns.len(), 1);
    assert_eq!(patterns[0].pattern.len(), 7);
    assert_eq!(patterns[0].last_draw, tile("7p"));
    let tileset = ReadyTileSet::from_str("1p2 2s2 3m2 4p2 5s2 6m3")
        .unwrap()
        .draw(tile("6s"));
    let patterns = tileset.patterns();
    assert_eq!(patterns.len(), 0);
}

#[test]
fn common_pattern() {
    let tileset = ReadyTileSet::from_str("123456789p 1234m")
        .unwrap()
        .draw(tile("4m"));
    let patterns = tileset.patterns();
    assert_eq!(patterns.len(), 1);
    assert_eq!(patterns[0].pattern.len(), 5);
    assert_eq!(patterns[0].last_draw, tile("4m"));

    let tileset = ReadyTileSet::from_str("1p3 2p3 3p 4p3 1m3")
        .unwrap()
        .draw(tile("2p"));
    let patterns = tileset.patterns();
    assert_eq!(patterns.len(), 2);
    assert_eq!(patterns[0].pattern.len(), 5);
    assert_eq!(patterns[1].pattern.len(), 5);
    assert_eq!(patterns[0].last_draw, tile("2p"));

    let tileset = ReadyTileSet::from_str("1p3 2p3 3p3 4p3 haku")
        .unwrap()
        .draw(tile("haku"));
    let patterns = tileset.patterns();
    assert_eq!(patterns.len(), 3);
    assert_eq!(patterns[0].pattern.len(), 5);
    assert_eq!(patterns[1].pattern.len(), 5);
    assert_eq!(patterns[2].pattern.len(), 5);
    assert_eq!(patterns[0].last_draw, tile("haku").clone());
}

#[test]
fn non_pattern() {
    let tileset = ReadyTileSet::from_str("124578p 124578m 1s")
        .unwrap()
        .draw(tile("1s"));
    let patterns = tileset.patterns();
    assert!(patterns.is_empty());
}

#[test]
fn test_full_tileset_kukoshi_pattern() {
    let tileset = ReadyTileSet::from_str("19p 19s 19m haku hatsu chun tonn nan shaa pei")
        .unwrap()
        .draw(Tile::from_str("chun").unwrap());
    let patterns = tileset.patterns();
    assert_eq!(patterns.len(), 1);
    assert_eq!(patterns[0].pattern.len(), 14);
    assert_eq!(patterns[0].last_draw, Tile::from_str("chun").unwrap());
}

#[test]
fn test_full_tileset_pattern() {
    let tileset = ReadyTileSet::from_str("123456789p 1234m")
        .unwrap()
        .draw(Tile::from_str("4m").unwrap());
    let patterns = tileset.patterns();
    assert_eq!(patterns.len(), 1);
    assert_eq!(patterns[0].pattern.len(), 5);
    assert_eq!(patterns[0].last_draw, Tile::from_str("4m").unwrap());

    let tileset = ReadyTileSet::from_str("1p3 2p3 3p 4p3 1m3")
        .unwrap()
        .draw(Tile::from_str("2p").unwrap());
    let patterns = tileset.patterns();
    assert_eq!(patterns.len(), 2);
    assert_eq!(patterns[0].pattern.len(), 5);
    assert_eq!(patterns[1].pattern.len(), 5);
    assert_eq!(patterns[0].last_draw, Tile::from_str("2p").unwrap());

    let tileset = ReadyTileSet::from_str("1p3 2p3 3p3 4p3 haku")
        .unwrap()
        .draw(Tile::from_str("haku").unwrap());
    let patterns = tileset.patterns();
    println!("{:?}", patterns);
    assert_eq!(patterns.len(), 3);
    assert_eq!(patterns[0].pattern.len(), 5);
    assert_eq!(patterns[1].pattern.len(), 5);
    assert_eq!(patterns[2].pattern.len(), 5);
    assert_eq!(patterns[0].last_draw, Tile::from_str("haku").unwrap());
}

fn shapes(full: &FullTileSet) -> Vec<Vec<(BlockType, Tile)>> {
    full.patterns()
        .iter()
        .map(|p| p.pattern.iter().map(|b| (b.block_type, b.first)).collect())
        .collect()
}

#[test]
fn readings_are_listed_in_order_each_once() {
    // 111 222 333 444 of circles and a pair: as four triplets, or as
    // three runs with one of the triplets.
    let full = drawn("1p3 2p3 3p3 4p3 haku", "haku");
    let found = shapes(&full);
    let t = BlockType::Triplet;
    let s = BlockType::Sequence;
    let p = BlockType::Pair;
    assert_eq!(
        found,
        vec![
            vec![(t, tile("1p")), (t, tile("2p")), (t, tile("3p")), (t, tile("4p")), (p, tile("haku"))],
            vec![(t, tile("1p")), (s, tile("2p")), (s, tile("2p")), (s, tile("2p")), (p, tile("haku"))],
            vec![(s, tile("1p")), (s, tile("1p")), (s, tile("1p")), (t, tile("4p")), (p, tile("haku"))],
        ]
    );
    for pattern in full.patterns() {
        for pair in pattern.pattern.windows(2) {
            assert!(pair[0].order_key() <= pair[1].order_key());
        }
    }
}

#[test]
fn a_hand_built_from_groups_is_read_as_built() {
    // 234m 567m 888p 123s and a pair of west winds
    let full = drawn("234567m 888p 123s shaa", "shaa");
    let found = shapes(&full);
    let t = BlockType::Triplet;
    let s = BlockType::Sequence;
    let p = BlockType::Pair;
    assert_eq!(
        found,
        vec![vec![
            (s, tile("2m")),
            (s, tile("5m")),
            (t, tile("8p")),
            (s, tile("1s")),
            (p, tile("shaa")),
        ]]
    );
    // the pair may lie below the groups
    let full = drawn("11m 234567m 888p 12s", "3s");
    assert!(shapes(&full).contains(&vec![
        (p, tile("1m")),
        (s, tile("2m")),
        (s, tile("5m")),
        (t, tile("8p")),
        (s, tile("1s")),
    ]));
}

#[test]
fn the_two_special_shapes_exclude_each_other() {
    let orphans = drawn("19p 19s 19m haku hatsu chun ton nan shaa pei", "1m");
    assert!(orphans.thirteen_orphans());
    assert!(!orphans.seven_pairs());
    let pairs = drawn("1m2 9m2 1p2 9p2 1s2 9s2 ton", "ton");
    assert!(pairs.seven_pairs());
    assert!(!pairs.thirteen_orphans());
    let four_alike = drawn("1m4 9m2 1p2 9p2 1s2 ton", "ton");
    assert!(!four_alike.seven_pairs());
    let three_alike = drawn("19p 19s 19m haku hatsu chun ton nan shaa shaa", "shaa");
    assert!(!three_alike.thirteen_orphans());
    let not_all_orphans = drawn("19p 19s 19m haku hatsu chun ton nan shaa 2m", "2m");
    assert!(!not_all_orphans.thirteen_orphans());
}

#[test]
fn an_isolated_tile_rules_the_standard_shape_out() {
    assert!(drawn("123456789p 238m hatsu", "8m").has_isolated_tile());
    assert!(!drawn("123456789p 1234m", "4m").has_isolated_tile());
    assert!(drawn("123456789p 1234m", "chun").has_isolated_tile());
    assert!(drawn("ton 123456789p 123m", "1m").has_isolated_tile());
}

#[test]
fn a_hand_with_groups_unformed_does_not_score() {
    let full = drawn("123456789p 238m hatsu", "8m");
    assert!(full.patterns().is_empty());
    assert_eq!(full.yakus(), None);
}

#[test]
fn thirteen_orphans_score() {
    let hand = "19p 19s 19m haku hatsu chun ton nan shaa pei";
    for name in ["1p", "9s", "chun", "ton"] {
        assert_eq!(drawn(hand, name).yakus(), Some(vec![Yaku::Kokushimusou13]));
    }
    assert_eq!(drawn(hand, "2p").yakus(), None);
    // a pair in hand, the missing orphan drawn
    let waiting = "19p 19s 19m haku hatsu chun ton nan shaa shaa";
    assert_eq!(drawn(waiting, "pei").yakus(), Some(vec![Yaku::Kokushimusou]));
    assert_eq!(drawn(waiting, "shaa").yakus(), None);
}

#[test]
fn seven_pairs_score() {
    let full = drawn("1p2 2s2 3m2 4p2 5s2 6m2 7p", "7p");
    assert_eq!(full.yakus(), Some(vec![Yaku::Chiitoitsu]));
    let full = drawn("2p2 3p2 4p2 5p2 6p2 7p2 8p", "8p");
    assert_eq!(
        full.yakus(),
        Some(vec![Yaku::Chiniisou, Yaku::Ryanpeikou, Yaku::Tanyao, Yaku::Pinfu])
    );
}

#[test]
fn the_best_reading_is_scored() {
    let full = drawn("1p3 2p3 3p3 4p3 haku", "haku");
    assert_eq!(full.yakus(), Some(vec![Yaku::Suuankoutanki]));
    let full = drawn("123456789p 1234m", "4m");
    assert_eq!(full.yakus(), Some(vec![Yaku::Ikkitsuukan]));
    let full = drawn("234m 234p 234s 678m 5s", "5s");
    assert_eq!(full.yakus(), Some(vec![Yaku::Tanyao, Yaku::Sanshokudoujun]));
    let full = drawn("123m 456m 789s 123s ton", "ton");
    assert_eq!(full.yakus(), Some(vec![]));
}

#[test]
fn discard_takes_one_tile_out() {
    let full = drawn("123456789p 1234m", "4m");
    let back = full.discard(tile("4m")).unwrap();
    assert_eq!(back.to_string(), "1m 2m 3m 4m 1p 2p 3p 4p 5p 6p 7p 8p 9p");
    let other = full.discard(tile("9p")).unwrap();
    assert_eq!(other.to_string(), "1m 2m 3m 4m 4m 1p 2p 3p 4p 5p 6p 7p 8p");
    assert_eq!(full.discard(tile("5m")).map(|h| h.to_string()), Err(HandError::NoSuchTile));
    assert_eq!(full.discard(tile("chun")).map(|h| h.to_string()), Err(HandError::NoSuchTile));
    // the hand of fourteen is there to be tried again
    assert_eq!(full.tiles.len(), 14);
    assert_eq!(full.last_draw, tile("4m"));
}

#[test]
fn draw_then_discard_gives_the_hand_back() {
    let hand = ReadyTileSet::from_str("123456789p 1234m").unwrap();
    for id in 0..34 {
        let t = Tile::from_index(id).unwrap();
        let full = hand.draw(t);
        assert_eq!(full.tiles.len(), 14);
        assert_eq!(full.last_draw, t);
        assert!(full.tiles.windows(2).all(|w| w[0] <= w[1]));
        assert_eq!(full.discard(t).unwrap(), hand);
    }
}

#[test]
fn is_useless_counts_related_tiles() {
    let full = drawn("123456789p 1234m", "chun");
    assert!(full.is_useless(tile("chun")));
    assert!(!full.is_useless(tile("4m")));
    assert!(!full.is_useless(tile("9p")));
    assert!(!full.is_useless(tile("ton")));
    let full = drawn("147m 147p 147s ton nan shaa pei", "chun");
    assert!(full.is_useless(tile("1m")));
    assert!(full.is_useless(tile("ton")));
    assert!(!full.is_useless(tile("2m")));
}

#[test]
fn block_lists_are_sorted_by_their_tiles() {
    let t = |s: &str| {
        TileBlock::new_triplet([tile(s), tile(s), tile(s)]).unwrap()
    };
    let p = |s: &str| TileBlock::new_pair([tile(s), tile(s)]).unwrap();
    let r = |a: &str, b: &str, c: &str| TileBlock::new_sequence([tile(a), tile(b), tile(c)]).unwrap();
    let given = vec![p("haku"), r("2p", "3p", "4p"), t("2p"), p("2p"), t("1m")];
    let sorted = yaku_checker::groups::sort_blocks(&given);
    assert_eq!(sorted, vec![t("1m"), p("2p"), t("2p"), r("2p", "3p", "4p"), p("haku")]);
}

#[test]
fn seven_pairs_of_one_suit_read_four_ways() {
    let full = drawn("1s2 2s2 3s2 4s2 5s2 6s2 7s", "7s");
    let patterns = full.patterns();
    assert_eq!(patterns.len(), 4);
    let lengths: Vec<usize> = patterns.iter().map(|p| p.pattern.len()).collect();
    assert_eq!(lengths.iter().filter(|&&n| n == 7).count(), 1);
    assert_eq!(lengths.iter().filter(|&&n| n == 5).count(), 3);
    assert_eq!(full.yakus(), Some(vec![Yaku::Chiniisou, Yaku::Ryanpeikou, Yaku::Pinfu]));
}

#[test]
fn score_gives_the_worth_with_the_categories() {
    assert_eq!(
        drawn("1p3 2p3 3p3 4p3 haku", "haku").score(),
        Some((vec![Yaku::Suuankoutanki], Han::double_yakuman()))
    );
    assert_eq!(
        drawn("234m 234p 234s 678m 5s", "5s").score(),
        Some((vec![Yaku::Tanyao, Yaku::Sanshokudoujun], Han::new(3)))
    );
    assert_eq!(drawn("123m 456m 789s 123s ton", "ton").score(), Some((vec![], Han::new(0))));
    assert_eq!(drawn("123456789p 238m hatsu", "8m").score(), None);
}
