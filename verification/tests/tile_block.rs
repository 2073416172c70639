use yaku_checker::tile::Tile;
use yaku_checker::tile_block::{BlockError, BlockType, TileBlock};
use yaku_checker::tile_pattern::TilePattern;

fn tile(name: &str) -> Tile {
    Tile::from_str(name).unwrap()
}

fn tiles(names: &[&str]) -> Vec<Tile> {
    names.iter().map(|s| tile(s)).collect()
}

#[test]
fn blocks_are_made_of_the_right_tiles() {
    let t = TileBlock::new_triplet([tile("5m"), tile("5m"), tile("5m")]).unwrap();
    assert_eq!(t.triplet(), Some(tile("5m")));
    assert_eq!(t.sequence(), None);
    assert_eq!(t.pair(), None);
    assert_eq!(t.len(), 3);
    assert_eq!(t.tiles(), tiles(&["5m", "5m", "5m"]));
    assert_eq!(t.income(), None);

    let s = TileBlock::new_sequence([tile("7s"), tile("8s"), tile("9s")]).unwrap();
    assert_eq!(s.sequence(), Some(tile("7s")));
    assert_eq!(s.triplet(), None);
    assert_eq!(s.len(), 3);
    assert_eq!(s.tiles(), tiles(&["7s", "8s", "9s"]));
    assert_eq!(s.income(), None);

    let p = TileBlock::new_pair([tile("ton"), tile("ton")]).unwrap();
    assert_eq!(p.pair(), Some(tile("ton")));
    assert_eq!(p.len(), 2);
    assert_eq!(p.tiles(), tiles(&["ton", "ton"]));
    assert_eq!(p.income(), None);

    let o = TileBlock::new_orphan(tile("chun")).unwrap();
    assert_eq!(o.block_type, BlockType::Orphan);
    assert_eq!(o.len(), 1);
    assert_eq!(o.tiles(), tiles(&["chun"]));
    assert_eq!(o.income(), Some(tiles(&["chun"])));
}

#[test]
fn blocks_refuse_the_wrong_tiles() {
    assert_eq!(
        TileBlock::new_triplet([tile("5m"), tile("5m"), tile("6m")]),
        Err(BlockError::NotTriplet)
    );
    assert_eq!(
        TileBlock::new_triplet([Tile { id: 99 }, Tile { id: 99 }, Tile { id: 99 }]),
        Err(BlockError::InvalidTile)
    );
    assert_eq!(
        TileBlock::new_sequence([tile("8s"), tile("9s"), tile("1m")]),
        Err(BlockError::NotSequence)
    );
    assert_eq!(
        TileBlock::new_sequence([tile("8m"), tile("9m"), tile("1p")]),
        Err(BlockError::NotSequence)
    );
    assert_eq!(
        TileBlock::new_sequence([tile("3m"), tile("2m"), tile("1m")]),
        Err(BlockError::NotSequence)
    );
    assert_eq!(
        TileBlock::new_sequence([tile("ton"), tile("nan"), tile("shaa")]),
        Err(BlockError::NotSequence)
    );
    assert_eq!(TileBlock::new_pair([tile("1m"), tile("2m")]), Err(BlockError::NotPair));
    assert_eq!(
        TileBlock::new_pair([Tile { id: 34 }, Tile { id: 34 }]),
        Err(BlockError::InvalidTile)
    );
    assert_eq!(
        TileBlock::new_incompleted([tile("1m"), tile("4m")]),
        Err(BlockError::NotIncompleted)
    );
    assert_eq!(
        TileBlock::new_incompleted([tile("ton"), tile("nan")]),
        Err(BlockError::NotIncompleted)
    );
    assert_eq!(TileBlock::new_orphan(Tile { id: 34 }), Err(BlockError::InvalidTile));
}

#[test]
fn unknown_blocks_are_told_by_their_tiles() {
    assert_eq!(
        TileBlock::new_unknown(&tiles(&["1m"])).unwrap().block_type,
        BlockType::Orphan
    );
    assert_eq!(
        TileBlock::new_unknown(&tiles(&["1m", "1m"])).unwrap().block_type,
        BlockType::Pair
    );
    assert_eq!(
        TileBlock::new_unknown(&tiles(&["1m", "1m", "1m"])).unwrap().block_type,
        BlockType::Triplet
    );
    assert_eq!(
        TileBlock::new_unknown(&tiles(&["1m", "2m", "3m"])).unwrap().block_type,
        BlockType::Sequence
    );
    assert_eq!(TileBlock::new_unknown(&tiles(&["1m", "2m"])), Err(BlockError::NotPair));
    assert_eq!(
        TileBlock::new_unknown(&tiles(&["1m", "2m", "4m"])),
        Err(BlockError::NotSequence)
    );
    assert_eq!(TileBlock::new_unknown(&[]), Err(BlockError::BadLength));
    assert_eq!(
        TileBlock::new_unknown(&tiles(&["1m", "1m", "1m", "1m"])),
        Err(BlockError::BadLength)
    );
    assert_eq!(TileBlock::new_unknown(&[Tile { id: 50 }]), Err(BlockError::InvalidTile));
    assert_eq!(
        TileBlock::new_unknown(&[Tile { id: 50 }, Tile { id: 50 }]),
        Err(BlockError::InvalidTile)
    );
}

#[test]
fn incomplete_blocks_name_what_completes_them() {
    let income = |a: &str, b: &str| TileBlock::new_incompleted([tile(a), tile(b)]).unwrap().income();
    assert_eq!(income("3m", "3m"), Some(tiles(&["3m"])));
    assert_eq!(income("3m", "4m"), Some(tiles(&["2m", "5m"])));
    assert_eq!(income("1m", "2m"), Some(tiles(&["3m"])));
    assert_eq!(income("8p", "9p"), Some(tiles(&["7p"])));
    assert_eq!(income("3s", "5s"), Some(tiles(&["4s"])));
    assert_eq!(income("7s", "9s"), Some(tiles(&["8s"])));
    assert_eq!(income("ton", "ton"), Some(tiles(&["ton"])));
    let b = TileBlock::new_incompleted([tile("3m"), tile("5m")]).unwrap();
    assert_eq!(b.len(), 2);
    assert_eq!(b.tiles(), tiles(&["3m", "5m"]));
    assert_eq!(b.triplet(), None);
    assert_eq!(b.pair(), None);
}

#[test]
fn blocks_stand_in_the_order_of_their_tiles() {
    let p = TileBlock::new_pair([tile("2p"), tile("2p")]).unwrap();
    let t = TileBlock::new_triplet([tile("2p"), tile("2p"), tile("2p")]).unwrap();
    let s = TileBlock::new_sequence([tile("2p"), tile("3p"), tile("4p")]).unwrap();
    let o = TileBlock::new_orphan(tile("2p")).unwrap();
    let lower = TileBlock::new_triplet([tile("9m"), tile("9m"), tile("9m")]).unwrap();
    let keys = [lower.order_key(), o.order_key(), p.order_key(), t.order_key(), s.order_key()];
    for pair in keys.windows(2) {
        assert!(pair[0] < pair[1]);
    }
}

#[test]
fn patterns_need_fourteen_tiles_in_five_seven_or_fourteen_blocks() {
    let t = |s: &str| TileBlock::new_triplet([tile(s), tile(s), tile(s)]).unwrap();
    let p = |s: &str| TileBlock::new_pair([tile(s), tile(s)]).unwrap();
    let o = |s: &str| TileBlock::new_orphan(tile(s)).unwrap();
    assert!(TilePattern::can_make(&vec![t("1m"), t("2m"), t("3m"), t("4m"), p("5m")]));
    assert!(!TilePattern::can_make(&vec![t("1m"), t("2m"), t("3m"), t("4m"), t("5m")]));
    assert!(!TilePattern::can_make(&vec![t("1m"), t("2m"), t("3m"), t("4m")]));
    assert!(!TilePattern::can_make(&vec![]));
    assert!(TilePattern::can_make(&vec![p("1m"); 7]));
    assert!(!TilePattern::can_make(&vec![p("1m"); 6]));
    assert!(TilePattern::can_make(&vec![o("1m"); 14]));
    assert!(!TilePattern::can_make(&vec![o("1m"); 7]));
    assert!(TilePattern::can_make(&vec![t("1m"), t("2m"), t("3m"), o("4m"), o("5m"), o("6m"), p("7m")]));
    let pattern = TilePattern::new(vec![t("1m"), t("2m"), t("3m"), t("4m"), p("5m")], tile("5m"));
    assert_eq!(pattern.pattern.len(), 5);
    assert_eq!(pattern.last_draw, tile("5m"));
}
