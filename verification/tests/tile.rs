use yaku_checker::tile::{Tile, TileError};

const ALL_TILES: [&str; 34] = [
    "1m", "2m", "3m", "4m", "5m", "6m", "7m", "8m", "9m", "1p", "2p", "3p", "4p", "5p", "6p", "7p",
    "8p", "9p", "1s", "2s", "3s", "4s", "5s", "6s", "7s", "8s", "9s", "ton", "nan", "shaa", "pei",
    "haku", "hatsu", "chun",
];

#[test]
fn tile_from_str() {
    for tile_str in ALL_TILES {
        let tile = Tile::from_str(tile_str).unwrap();
        assert_eq!(tile.to_string(), tile_str);
    }
    let not_tiles = ["foo", "bar", "0s", "5q", "10"];
    for not_tile_str in not_tiles {
        assert!(Tile::from_str(not_tile_str).is_err());
    }
}

#[test]
fn tile_ord() {
    let mut v = ALL_TILES
        .iter()
        .rev()
        .map(|s| Tile::from_str(s).unwrap())
        .collect::<Vec<_>>();
    v.sort();
    assert_eq!(
        v.iter().map(|tile| tile.to_string()).collect::<Vec<_>>(),
        ALL_TILES
    );
}

#[test]
fn tile_errors_tell_suit_from_name() {
    assert_eq!(Tile::from_str("5q"), Err(TileError::NotInSuit));
    assert_eq!(Tile::from_str("10"), Err(TileError::NotInSuit));
    assert_eq!(Tile::from_str("0s"), Err(TileError::NotATile));
    assert_eq!(Tile::from_str(""), Err(TileError::NotATile));
    assert_eq!(Tile::from_str("tonn"), Err(TileError::NotATile));
    assert_eq!(Tile::from_str("1mm"), Err(TileError::NotATile));
}

#[test]
fn tile_index_follows_the_order() {
    for (i, name) in ALL_TILES.iter().enumerate() {
        let tile = Tile::from_str(name).unwrap();
        assert_eq!(tile.index() as usize, i);
        assert_eq!(Tile::from_index(i as u8), Some(tile));
    }
    assert_eq!(Tile::from_index(34), None);
    assert_eq!(Tile::from_index(255), None);
}

#[test]
fn tile_kinds() {
    let t = |s: &str| Tile::from_str(s).unwrap();
    assert!(t("ton").is_honor() && t("ton").is_wind() && !t("ton").is_dragon());
    assert!(t("pei").is_wind());
    assert!(t("haku").is_honor() && t("haku").is_dragon() && !t("haku").is_wind());
    assert!(t("chun").is_dragon());
    assert!(!t("ton").is_numbered() && !t("ton").is_terminal());
    assert!(t("1m").is_terminal() && t("9s").is_terminal() && t("9p").is_numbered());
    assert!(!t("2m").is_terminal() && !t("8p").is_terminal());
    assert!(!t("5p").is_honor());
    assert_eq!(t("7s").number(), 7);
    assert_eq!(t("1m").number(), 1);
    assert_eq!(t("hatsu").number(), 0);
    assert_eq!(t("7s").tile_type(), "s");
    assert_eq!(t("1m").tile_type(), "m");
    assert_eq!(t("4p").tile_type(), "p");
    assert_eq!(t("hatsu").tile_type(), "hatsu");
}

#[test]
fn tile_relations() {
    let t = |s: &str| Tile::from_str(s).unwrap();
    assert!(t("3m").is_related(t("3m")));
    assert!(t("3m").is_related(t("4m")));
    assert!(t("3m").is_related(t("5m")));
    assert!(t("5m").is_related(t("3m")));
    assert!(!t("3m").is_related(t("6m")));
    assert!(!t("9m").is_related(t("1p")));
    assert!(!t("3m").is_related(t("3p")));
    assert!(t("ton").is_related(t("ton")));
    assert!(!t("ton").is_related(t("nan")));
    assert!(!t("haku").is_related(t("hatsu")));
    assert!(!Tile { id: 40 }.is_related(Tile { id: 40 }));
    assert!(!t("1m").is_related(Tile { id: 34 }));
    assert_eq!(t("1m").prev(), None);
    assert_eq!(t("2m").prev(), Some(t("1m")));
    assert_eq!(t("9m").next(), None);
    assert_eq!(t("8s").next(), Some(t("9s")));
    assert_eq!(t("1p").prev(), None);
    assert_eq!(t("ton").next(), None);
    assert_eq!(t("chun").prev(), None);
    assert!(t("9m").precedes(&t("1p")));
    assert!(t("9p").precedes(&t("1s")));
    assert!(t("pei").precedes(&t("haku")));
    assert!(!t("chun").precedes(&t("hatsu")));
}

#[test]
fn tiles_parse_from_text() {
    let tile: Tile = "hatsu".parse().unwrap();
    assert_eq!(tile, Tile::from_str("hatsu").unwrap());
    assert_eq!("7s".parse::<Tile>().map(|t| t.index()), Ok(24));
    assert_eq!("7x".parse::<Tile>(), Err(TileError::NotInSuit));
}
