use yaku_checker::tile::Tile;
use yaku_checker::tile_block::TileBlock;
use yaku_checker::tile_pattern::TilePattern;
use yaku_checker::yaku::Yaku;

fn tile(name: &str) -> Tile {
    Tile::from_str(name).unwrap()
}

fn build_pattern(pattern: Vec<Vec<&str>>, last_draw: &str) -> TilePattern {
    let pattern: Vec<TileBlock> = pattern
        .iter()
        .map(|block| {
            let tiles: Vec<Tile> = block.iter().map(|s| tile(s)).collect();
            TileBlock::new_unknown(&tiles).unwrap()
        })
        .collect();
    assert!(TilePattern::can_make(&pattern));
    TilePattern::new(pattern, tile(last_draw))
}

#[test]
fn tanyao() {
    let tileset = vec![
        vec!["2p", "2p", "2p"],
        vec!["6p", "7p", "8p"],
        vec!["4m", "5m", "6m"],
        vec!["6s", "6s", "6s"],
        vec!["3p", "3p"],
    ];
    let pattern = build_pattern(tileset, "3p");
    assert!(pattern.is_tanyao());

    let tileset = vec![
        vec!["2p", "2p", "2p"],
        vec!["7p", "8p", "9p"],
        vec!["4m", "5m", "6m"],
        vec!["6s", "6s", "6s"],
        vec!["3p", "3p"],
    ];
    let pattern = build_pattern(tileset, "3p");
    assert!(!pattern.is_tanyao());
}

#[test]
fn sangenpai() {
    let tileset = vec![
        vec!["2p", "2p", "2p"],
        vec!["3p", "3p", "3p"],
        vec!["hatsu", "hatsu", "hatsu"],
        vec!["6s", "6s", "6s"],
        vec!["chun", "chun"],
    ];
    let pattern = build_pattern(tileset, "3p");
    assert_eq!(pattern.have_yakuhai_sangenpai(), vec![tile("hatsu")]);

    let tileset = vec![
        vec!["2p", "2p", "2p"],
        vec!["7p", "8p", "9p"],
        vec!["4m", "5m", "6m"],
        vec!["6s", "6s", "6s"],
        vec!["haku", "haku"],
    ];
    let pattern = build_pattern(tileset, "3p");
    assert!(pattern.have_yakuhai_sangenpai().is_empty());
}

#[test]
fn pinfu() {
    let tileset = vec![
        vec!["2p", "3p", "4p"],
        vec!["5m", "6m", "7m"],
        vec!["3s", "4s", "5s"],
        vec!["7s", "8s", "9s"],
        vec!["3p", "3p"],
    ];
    let pattern = build_pattern(tileset.clone(), "2p");
    assert!(pattern.is_pinfu());
    let pattern = build_pattern(tileset.clone(), "3p");
    assert!(!pattern.is_pinfu());
    let pattern = build_pattern(tileset, "4s");
    assert!(!pattern.is_pinfu());

    let tileset = vec![
        vec!["2p", "3p", "4p"],
        vec!["5m", "6m", "7m"],
        vec!["3s", "4s", "5s"],
        vec!["7s", "8s", "9s"],
        vec!["haku", "haku"],
    ];
    let pattern = build_pattern(tileset, "9s");
    assert!(!pattern.is_pinfu());

    let tileset = vec![
        vec!["2p", "3p", "4p"],
        vec!["5m", "5m", "5m"],
        vec!["3s", "4s", "5s"],
        vec!["7s", "8s", "9s"],
        vec!["haku", "haku"],
    ];
    let pattern = build_pattern(tileset, "9s");
    assert!(!pattern.is_pinfu());
}

#[test]
fn iipeikou() {
    let tileset = vec![
        vec!["2p", "3p", "4p"],
        vec!["2p", "3p", "4p"],
        vec!["3s", "4s", "5s"],
        vec!["7s", "8s", "9s"],
        vec!["3p", "3p"],
    ];
    let pattern = build_pattern(tileset.clone(), "2p");
    assert!(pattern.is_iipeikou());

    let tileset = vec![
        vec!["2p", "3p", "4p"],
        vec!["2p", "3p", "4p"],
        vec!["2p", "3p", "4p"],
        vec!["7s", "8s", "9s"],
        vec!["3p", "3p"],
    ];
    let pattern = build_pattern(tileset.clone(), "2p");
    assert!(pattern.is_iipeikou());

    let tileset = vec![
        vec!["2p", "2p", "2p"],
        vec!["3p", "3p", "3p"],
        vec!["4p", "4p", "4p"],
        vec!["7s", "8s", "9s"],
        vec!["3p", "3p"],
    ];
    let pattern = build_pattern(tileset.clone(), "2p");
    assert!(!pattern.is_iipeikou());
}

#[test]
fn sanshokudoukou() {
    let tileset = vec![
        vec!["2p", "2p", "2p"],
        vec!["2s", "2s", "2s"],
        vec!["2m", "2m", "2m"],
        vec!["7s", "8s", "9s"],
        vec!["3p", "3p"],
    ];
    let pattern = build_pattern(tileset.clone(), "2p");
    assert!(pattern.is_sanshokudoukou());

    let tileset = vec![
        vec!["2p", "2p", "2p"],
        vec!["3s", "3s", "3s"],
        vec!["2s", "2s", "2s"],
        vec!["2m", "2m", "2m"],
        vec!["3p", "3p"],
    ];
    let pattern = build_pattern(tileset.clone(), "2p");
    assert!(pattern.is_sanshokudoukou());

    let tileset = vec![
        vec!["haku", "haku", "haku"],
        vec!["3s", "3s", "3s"],
        vec!["2s", "2s", "2s"],
        vec!["2m", "2m", "2m"],
        vec!["2p", "2p"],
    ];
    let pattern = build_pattern(tileset.clone(), "2p");
    assert!(!pattern.is_sanshokudoukou());
}

#[test]
fn toitoihou() {
    let tileset = vec![
        vec!["2p", "2p", "2p"],
        vec!["3s", "3s", "3s"],
        vec!["2s", "2s", "2s"],
        vec!["2m", "2m", "2m"],
        vec!["3p", "3p"],
    ];
    let pattern = build_pattern(tileset.clone(), "2p");
    assert!(pattern.is_toitoihou());

    let tileset = vec![
        vec!["2p", "2p", "2p"],
        vec!["2s", "2s", "2s"],
        vec!["2m", "2m", "2m"],
        vec!["7s", "8s", "9s"],
        vec!["3p", "3p"],
    ];
    let pattern = build_pattern(tileset.clone(), "2p");
    assert!(!pattern.is_toitoihou());
}

#[test]
fn sanankou() {
    let tileset = vec![
        vec!["2p", "2p", "2p"],
        vec!["3s", "3s", "3s"],
        vec!["2s", "2s", "2s"],
        vec!["2m", "3m", "4m"],
        vec!["3p", "3p"],
    ];
    let pattern = build_pattern(tileset.clone(), "2p");
    assert!(pattern.is_sanankou());

    let tileset = vec![
        vec!["2p", "2p", "2p"],
        vec!["3s", "3s", "3s"],
        vec!["2s", "2s", "2s"],
        vec!["2m", "2m", "2m"],
        vec!["3p", "3p"],
    ];
    let pattern = build_pattern(tileset.clone(), "2p");
    assert!(pattern.is_sanankou());

    let tileset = vec![
        vec!["2p", "2p", "2p"],
        vec!["3s", "3s", "3s"],
        vec!["2s", "3s", "4s"],
        vec!["2m", "3m", "4m"],
        vec!["3p", "3p"],
    ];
    let pattern = build_pattern(tileset.clone(), "2p");
    assert!(!pattern.is_sanankou());
}

#[test]
fn shousangen() {
    let tileset = vec![
        vec!["hatsu", "hatsu", "hatsu"],
        vec!["4p", "5p", "6p"],
        vec!["chun", "chun", "chun"],
        vec!["1p", "1p", "1p"],
        vec!["haku", "haku"],
    ];
    let pattern = build_pattern(tileset, "chun");
    assert!(pattern.is_shousangen());

    let tileset = vec![
        vec!["hatsu", "hatsu", "hatsu"],
        vec!["4p", "5p", "6p"],
        vec!["chun", "chun", "chun"],
        vec!["haku", "haku", "haku"],
        vec!["1p", "1p"],
    ];
    let pattern = build_pattern(tileset, "chun");
    assert!(pattern.is_shousangen());

    let tileset = vec![
        vec!["hatsu", "hatsu", "hatsu"],
        vec!["4p", "5p", "6p"],
        vec!["chun", "chun", "chun"],
        vec!["3p", "3p", "3p"],
        vec!["1p", "1p"],
    ];
    let pattern = build_pattern(tileset, "chun");
    assert!(!pattern.is_shousangen());
}

#[test]
fn honroutou() {
    let tileset = vec![
        vec!["hatsu", "hatsu", "hatsu"],
        vec!["9m", "9m", "9m"],
        vec!["chun", "chun", "chun"],
        vec!["1s", "1s", "1s"],
        vec!["1p", "1p"],
    ];
    let pattern = build_pattern(tileset, "chun");
    assert!(pattern.is_honroutou());

    let tileset = vec![
        vec!["9s", "9s", "9s"],
        vec!["9m", "9m", "9m"],
        vec!["1m", "1m", "1m"],
        vec!["1s", "1s", "1s"],
        vec!["1p", "1p"],
    ];
    let pattern = build_pattern(tileset, "1m");
    assert!(pattern.is_honroutou());

    let tileset = vec![
        vec!["hatsu", "hatsu", "hatsu"],
        vec!["9m", "9m", "9m"],
        vec!["chun", "chun", "chun"],
        vec!["1s", "2s", "3s"],
        vec!["1p", "1p"],
    ];
    let pattern = build_pattern(tileset, "chun");
    assert!(!pattern.is_honroutou());
}

#[test]
fn chiitoitsu() {
    let tileset = vec![
        vec!["hatsu", "hatsu"],
        vec!["9m", "9m"],
        vec!["chun", "chun"],
        vec!["1s", "1s"],
        vec!["1p", "1p"],
        vec!["5m", "5m"],
        vec!["ton", "ton"],
    ];
    let pattern = build_pattern(tileset, "chun");
    assert!(pattern.is_chiitoitsu());
}

#[test]
fn honchantaiyaochuu() {
    let tileset = vec![
        vec!["hatsu", "hatsu", "hatsu"],
        vec!["7m", "8m", "9m"],
        vec!["chun", "chun", "chun"],
        vec!["1s", "2s", "3s"],
        vec!["1p", "1p"],
    ];
    let pattern = build_pattern(tileset, "chun");
    assert!(pattern.is_honchantaiyaochuu());

    let tileset = vec![
        vec!["hatsu", "hatsu", "hatsu"],
        vec!["9m", "9m", "9m"],
        vec!["chun", "chun", "chun"],
        vec!["1s", "1s", "1s"],
        vec!["1p", "1p"],
    ];
    let pattern = build_pattern(tileset, "chun");
    assert!(pattern.is_honchantaiyaochuu());

    let tileset = vec![
        vec!["1m", "2m", "3m"],
        vec!["9m", "9m", "9m"],
        vec!["9s", "9s", "9s"],
        vec!["1s", "1s", "1s"],
        vec!["1p", "1p"],
    ];
    let pattern = build_pattern(tileset, "9s");
    assert!(pattern.is_honchantaiyaochuu());

    let tileset = vec![
        vec!["hatsu", "hatsu", "hatsu"],
        vec!["6m", "7m", "8m"],
        vec!["chun", "chun", "chun"],
        vec!["1s", "1s", "1s"],
        vec!["1p", "1p"],
    ];
    let pattern = build_pattern(tileset, "chun");
    assert!(!pattern.is_honchantaiyaochuu());
}

#[test]
fn ikkitsuukan() {
    let tileset = vec![
        vec!["1s", "2s", "3s"],
        vec!["4s", "5s", "6s"],
        vec!["7s", "8s", "9s"],
        vec!["chun", "chun", "chun"],
        vec!["1p", "1p"],
    ];
    let pattern = build_pattern(tileset, "chun");
    assert!(pattern.is_ikkitsuukan());

    let tileset = vec![
        vec!["2s", "3s", "4s"],
        vec!["4s", "5s", "6s"],
        vec!["7s", "8s", "9s"],
        vec!["chun", "chun", "chun"],
        vec!["1s", "1s"],
    ];
    let pattern = build_pattern(tileset, "chun");
    assert!(!pattern.is_ikkitsuukan());
}

#[test]
fn sanshokudoujun() {
    let tileset = vec![
        vec!["1s", "2s", "3s"],
        vec!["1m", "2m", "3m"],
        vec!["1p", "2p", "3p"],
        vec!["chun", "chun", "chun"],
        vec!["1p", "1p"],
    ];
    let pattern = build_pattern(tileset, "chun");
    assert!(pattern.is_sanshokudoujun());

    let tileset = vec![
        vec!["1s", "2s", "3s"],
        vec!["1m", "2m", "3m"],
        vec!["1p", "1p", "1p"],
        vec!["2p", "2p", "2p"],
        vec!["3p", "3p"],
    ];
    let pattern = build_pattern(tileset, "1p");
    assert!(!pattern.is_sanshokudoujun());
}

#[test]
fn ryanpeikou() {
    let tileset = vec![
        vec!["1s", "2s", "3s"],
        vec!["1s", "2s", "3s"],
        vec!["1p", "2p", "3p"],
        vec!["1p", "2p", "3p"],
        vec!["1p", "1p"],
    ];
    let pattern = build_pattern(tileset, "1p");
    assert!(pattern.is_ryanpeikou());

    let tileset = vec![
        vec!["1s", "2s", "3s"],
        vec!["1s", "2s", "3s"],
        vec!["1p", "2p", "3p"],
        vec!["2p", "3p", "4p"],
        vec!["1p", "1p"],
    ];
    let pattern = build_pattern(tileset, "1p");
    assert!(!pattern.is_ryanpeikou());
}

#[test]
fn junchantaiyaochuu() {
    let tileset = vec![
        vec!["1m", "2m", "3m"],
        vec!["9m", "9m", "9m"],
        vec!["9s", "9s", "9s"],
        vec!["1s", "1s", "1s"],
        vec!["1p", "1p"],
    ];
    let pattern = build_pattern(tileset, "9s");
    assert!(pattern.is_junchantaiyaochuu());

    let tileset = vec![
        vec!["2m", "3m", "4m"],
        vec!["9m", "9m", "9m"],
        vec!["9s", "9s", "9s"],
        vec!["1s", "1s", "1s"],
        vec!["1p", "1p"],
    ];
    let pattern = build_pattern(tileset, "9s");
    assert!(!pattern.is_junchantaiyaochuu());

    let tileset = vec![
        vec!["1m", "2m", "3m"],
        vec!["9m", "9m", "9m"],
        vec!["9s", "9s", "9s"],
        vec!["haku", "haku", "haku"],
        vec!["1p", "1p"],
    ];
    let pattern = build_pattern(tileset, "9s");
    assert!(!pattern.is_junchantaiyaochuu());
}

#[test]
fn honiisou() {
    let tileset = vec![
        vec!["3p", "3p", "3p"],
        vec!["4p", "5p", "6p"],
        vec!["chun", "chun", "chun"],
        vec!["1p", "1p", "1p"],
        vec!["haku", "haku"],
    ];
    let pattern = build_pattern(tileset, "chun");
    assert!(pattern.is_honiisou());

    let tileset = vec![
        vec!["3p", "3p", "3p"],
        vec!["4p", "5p", "6p"],
        vec!["9p", "9p", "9p"],
        vec!["1p", "1p", "1p"],
        vec!["5p", "5p"],
    ];
    let pattern = build_pattern(tileset, "chun");
    assert!(pattern.is_honiisou());

    let tileset = vec![
        vec!["3p", "3p", "3p"],
        vec!["4p", "5p", "6p"],
        vec!["chun", "chun", "chun"],
        vec!["1p", "1p", "1p"],
        vec!["2m", "2m"],
    ];
    let pattern = build_pattern(tileset, "chun");
    assert!(!pattern.is_honiisou());
}

#[test]
fn chiniisou() {
    let tileset = vec![
        vec!["3p", "3p", "3p"],
        vec!["4p", "5p", "6p"],
        vec!["9p", "9p", "9p"],
        vec!["1p", "1p", "1p"],
        vec!["2p", "2p"],
    ];
    let pattern = build_pattern(tileset, "2p");
    assert!(pattern.is_chiniisou());

    let tileset = vec![
        vec!["3p", "3p", "3p"],
        vec!["4p", "5p", "6p"],
        vec!["9p", "9p", "9p"],
        vec!["1p", "1p", "1p"],
        vec!["2m", "2m"],
    ];
    let pattern = build_pattern(tileset, "2p");
    assert!(!pattern.is_chiniisou());
}

#[test]
fn daisangen() {
    let tileset = vec![
        vec!["haku", "haku", "haku"],
        vec!["hatsu", "hatsu", "hatsu"],
        vec!["chun", "chun", "chun"],
        vec!["1p", "1p", "1p"],
        vec!["2p", "2p"],
    ];
    let pattern = build_pattern(tileset, "2p");
    assert!(pattern.is_daisangen());

    let tileset = vec![
        vec!["haku", "haku", "haku"],
        vec!["hatsu", "hatsu", "hatsu"],
        vec!["2p", "2p", "2p"],
        vec!["1p", "1p", "1p"],
        vec!["chun", "chun"],
    ];
    let pattern = build_pattern(tileset, "2p");
    assert!(!pattern.is_daisangen());
}

#[test]
fn suuankou() {
    let tileset = vec![
        vec!["haku", "haku", "haku"],
        vec!["hatsu", "hatsu", "hatsu"],
        vec!["chun", "chun", "chun"],
        vec!["1p", "1p", "1p"],
        vec!["2p", "2p"],
    ];
    let pattern = build_pattern(tileset, "haku");
    assert!(pattern.is_suuankou());

    let tileset = vec![
        vec!["haku", "haku", "haku"],
        vec!["hatsu", "hatsu", "hatsu"],
        vec!["chun", "chun", "chun"],
        vec!["1p", "2p", "3p"],
        vec!["2p", "2p"],
    ];
    let pattern = build_pattern(tileset, "haku");
    assert!(!pattern.is_suuankou());
}

#[test]
fn tsuuiisou() {
    let tileset = vec![
        vec!["haku", "haku", "haku"],
        vec!["hatsu", "hatsu", "hatsu"],
        vec!["chun", "chun", "chun"],
        vec!["ton", "ton", "ton"],
        vec!["shaa", "shaa"],
    ];
    let pattern = build_pattern(tileset, "haku");
    assert!(pattern.is_tsuuiisou());

    let tileset = vec![
        vec!["haku", "haku", "haku"],
        vec!["hatsu", "hatsu", "hatsu"],
        vec!["chun", "chun", "chun"],
        vec!["ton", "ton", "ton"],
        vec!["8p", "8p"],
    ];
    let pattern = build_pattern(tileset, "haku");
    assert!(!pattern.is_tsuuiisou());
}

#[test]
fn ryuuiisou() {
    let tileset = vec![
        vec!["2s", "3s", "4s"],
        vec!["2s", "3s", "4s"],
        vec!["2s", "3s", "4s"],
        vec!["hatsu", "hatsu", "hatsu"],
        vec!["8s", "8s"],
    ];
    let pattern = build_pattern(tileset, "8s");
    assert!(pattern.is_ryuuiisou());

    let tileset = vec![
        vec!["2s", "3s", "4s"],
        vec!["2s", "3s", "4s"],
        vec!["2s", "3s", "4s"],
        vec!["haku", "haku", "haku"],
        vec!["8s", "8s"],
    ];
    let pattern = build_pattern(tileset, "8s");
    assert!(!pattern.is_ryuuiisou());

    let tileset = vec![
        vec!["2s", "3s", "4s"],
        vec!["2s", "3s", "4s"],
        vec!["2s", "3s", "4s"],
        vec!["hatsu", "hatsu", "hatsu"],
        vec!["8m", "8m"],
    ];
    let pattern = build_pattern(tileset, "8m");
    assert!(!pattern.is_ryuuiisou());
}

#[test]
fn chinroutou() {
    let tileset = vec![
        vec!["1p", "1p", "1p"],
        vec!["9p", "9p", "9p"],
        vec!["1s", "1s", "1s"],
        vec!["9s", "9s", "9s"],
        vec!["1m", "1m"],
    ];
    let pattern = build_pattern(tileset, "1m");
    assert!(pattern.is_chinroutou());

    let tileset = vec![
        vec!["1p", "2p", "3p"],
        vec!["9p", "9p", "9p"],
        vec!["1s", "1s", "1s"],
        vec!["9s", "9s", "9s"],
        vec!["1m", "1m"],
    ];
    let pattern = build_pattern(tileset, "1m");
    assert!(!pattern.is_chinroutou());

    let tileset = vec![
        vec!["haku", "haku", "haku"],
        vec!["9p", "9p", "9p"],
        vec!["1s", "1s", "1s"],
        vec!["9s", "9s", "9s"],
        vec!["1m", "1m"],
    ];
    let pattern = build_pattern(tileset, "1m");
    assert!(!pattern.is_chinroutou());
}

#[test]
fn kokushimusou() {
    let tileset = [
        "1p", "9p", "1s", "9s", "1m", "9m", "ton", "nan", "shaa", "pei", "haku", "hatsu",
        "hatsu", "chun",
    ];
    let pattern = build_pattern(tileset.iter().map(|&s| vec![s]).collect(), "shaa");
    assert!(pattern.is_kokushimusou());
}

#[test]
fn shousuushii() {
    let tileset = vec![
        vec!["ton", "ton", "ton"],
        vec!["nan", "nan", "nan"],
        vec!["shaa", "shaa", "shaa"],
        vec!["3p", "3p", "3p"],
        vec!["pei", "pei"],
    ];
    let pattern = build_pattern(tileset.clone(), "pei");
    assert!(pattern.is_shousuushii());

    let tileset = vec![
        vec!["ton", "ton", "ton"],
        vec!["nan", "nan", "nan"],
        vec!["shaa", "shaa", "shaa"],
        vec!["pei", "pei", "pei"],
        vec!["3p", "3p"],
    ];
    let pattern = build_pattern(tileset.clone(), "pei");
    assert!(pattern.is_shousuushii());

    let tileset = vec![
        vec!["ton", "ton", "ton"],
        vec!["nan", "nan", "nan"],
        vec!["shaa", "shaa", "shaa"],
        vec!["2p", "2p", "2p"],
        vec!["3p", "3p"],
    ];
    let pattern = build_pattern(tileset.clone(), "3p");
    assert!(!pattern.is_shousuushii());
}

#[test]
fn chuurenpoutou() {
    let tileset = vec![
        vec!["1p", "1p", "1p"],
        vec!["2p", "3p", "4p"],
        vec!["5p", "6p", "7p"],
        vec!["9p", "9p", "9p"],
        vec!["8p", "8p"],
    ];
    let pattern = build_pattern(tileset.clone(), "9p");
    assert!(pattern.is_chuurenpoutou());

    let tileset = vec![
        vec!["1p", "1p", "1p"],
        vec!["1p", "2p", "3p"],
        vec!["5p", "6p", "7p"],
        vec!["7p", "8p", "9p"],
        vec!["9p", "9p"],
    ];
    let pattern = build_pattern(tileset.clone(), "9p");
    assert!(!pattern.is_chuurenpoutou());
}

#[test]
fn suuankoutanki() {
    let tileset = vec![
        vec!["haku", "haku", "haku"],
        vec!["hatsu", "hatsu", "hatsu"],
        vec!["chun", "chun", "chun"],
        vec!["1p", "1p", "1p"],
        vec!["2p", "2p"],
    ];
    let pattern = build_pattern(tileset, "2p");
    assert!(pattern.is_suuankoutanki());

    let tileset = vec![
        vec!["haku", "haku", "haku"],
        vec!["hatsu", "hatsu", "hatsu"],
        vec!["chun", "chun", "chun"],
        vec!["1p", "1p", "1p"],
        vec!["2p", "2p"],
    ];
    let pattern = build_pattern(tileset, "1p");
    assert!(!pattern.is_suuankoutanki());
}

#[test]
fn kokushimusou13() {
    let tileset = [
        "1p", "9p", "1s", "9s", "1m", "9m", "ton", "nan", "shaa", "pei", "haku", "hatsu",
        "hatsu", "chun",
    ];
    let pattern = build_pattern(tileset.iter().map(|&s| vec![s]).collect(), "hatsu");
    assert!(pattern.is_kokushimusou13());

    let tileset = [
        "1p", "9p", "1s", "9s", "1m", "9m", "ton", "nan", "shaa", "pei", "haku", "hatsu",
        "hatsu", "chun",
    ];
    let pattern = build_pattern(tileset.iter().map(|&s| vec![s]).collect(), "haku");
    assert!(!pattern.is_kokushimusou13());
}

#[test]
fn junseichuurenpoutou() {
    let tileset = vec![
        vec!["1p", "1p", "1p"],
        vec!["2p", "3p", "4p"],
        vec!["5p", "6p", "7p"],
        vec!["9p", "9p", "9p"],
        vec!["8p", "8p"],
    ];
    let pattern = build_pattern(tileset.clone(), "8p");
    assert!(pattern.is_junseichuurenpoutou());

    let tileset = vec![
        vec!["1p", "1p", "1p"],
        vec!["1p", "2p", "3p"],
        vec!["4p", "5p", "6p"],
        vec!["7p", "8p", "9p"],
        vec!["9p", "9p"],
    ];
    let pattern = build_pattern(tileset.clone(), "1p");
    assert!(pattern.is_junseichuurenpoutou());

    let tileset = vec![
        vec!["1p", "1p", "1p"],
        vec!["2p", "3p", "4p"],
        vec!["5p", "6p", "7p"],
        vec!["9p", "9p", "9p"],
        vec!["8p", "8p"],
    ];
    let pattern = build_pattern(tileset.clone(), "9p");
    assert!(!pattern.is_junseichuurenpoutou());

    let tileset = vec![
        vec!["1p", "1p", "1p"],
        vec!["1p", "2p", "3p"],
        vec!["4p", "5p", "6p"],
        vec!["7p", "8p", "9p"],
        vec!["9p", "9p"],
    ];
    let pattern = build_pattern(tileset.clone(), "9p");
    assert!(!pattern.is_junseichuurenpoutou());
}

#[test]
fn daisuushii() {
    let tileset = vec![
        vec!["ton", "ton", "ton"],
        vec!["nan", "nan", "nan"],
        vec!["shaa", "shaa", "shaa"],
        vec!["pei", "pei", "pei"],
        vec!["3p", "3p"],
    ];
    let pattern = build_pattern(tileset.clone(), "3p");
    assert!(pattern.is_daisuushii());

    let tileset = vec![
        vec!["ton", "ton", "ton"],
        vec!["nan", "nan", "nan"],
        vec!["shaa", "shaa", "shaa"],
        vec!["2p", "2p", "2p"],
        vec!["3p", "3p"],
    ];
    let pattern = build_pattern(tileset.clone(), "3p");
    assert!(!pattern.is_daisuushii());
}

#[test]
fn yakus_of_a_pattern() {
    let tileset = vec![
        vec!["2p", "3p", "4p"],
        vec!["5m", "6m", "7m"],
        vec!["3s", "4s", "5s"],
        vec!["6s", "7s", "8s"],
        vec!["3p", "3p"],
    ];
    assert_eq!(
        build_pattern(tileset.clone(), "2p").yakus(),
        vec![Yaku::Tanyao, Yaku::Pinfu]
    );
    assert_eq!(build_pattern(tileset, "3p").yakus(), vec![Yaku::Tanyao]);

    let tileset = vec![
        vec!["haku", "haku", "haku"],
        vec!["hatsu", "hatsu", "hatsu"],
        vec!["chun", "chun", "chun"],
        vec!["1p", "1p", "1p"],
        vec!["2p", "2p"],
    ];
    assert_eq!(
        build_pattern(tileset.clone(), "2p").yakus(),
        vec![Yaku::Suuankoutanki, Yaku::Daisangen]
    );
    assert_eq!(
        build_pattern(tileset, "1p").yakus(),
        vec![Yaku::Suuankou, Yaku::Daisangen]
    );

    let tileset = vec![
        vec!["hatsu", "hatsu", "hatsu"],
        vec!["chun", "chun", "chun"],
        vec!["1p", "2p", "3p"],
        vec!["7p", "8p", "9p"],
        vec!["1p", "1p"],
    ];
    assert_eq!(
        build_pattern(tileset, "1p").yakus(),
        vec![
            Yaku::Honiisou,
            Yaku::Honchantaiyaochuu,
            Yaku::YakuhaiSangenpai(tile("hatsu")),
            Yaku::YakuhaiSangenpai(tile("chun")),
        ]
    );

    let orphans = [
        "1m", "9m", "1p", "9p", "1s", "9s", "ton", "nan", "shaa", "pei", "haku", "hatsu",
        "hatsu", "chun",
    ];
    assert_eq!(
        build_pattern(orphans.iter().map(|&s| vec![s]).collect(), "hatsu").yakus(),
        vec![Yaku::Kokushimusou13]
    );
    assert_eq!(
        build_pattern(orphans.iter().map(|&s| vec![s]).collect(), "1m").yakus(),
        vec![Yaku::Kokushimusou]
    );
    let pairs = vec![
        vec!["2m", "2m"],
        vec!["3m", "3m"],
        vec!["4m", "4m"],
        vec!["5m", "5m"],
        vec!["6m", "6m"],
        vec!["7m", "7m"],
        vec!["8m", "8m"],
    ];
    assert_eq!(
        build_pattern(pairs, "8m").yakus(),
        vec![Yaku::Chiniisou, Yaku::Tanyao, Yaku::Chiitoitsu]
    );
}

#[test]
fn the_straight_is_found_in_any_order_of_the_blocks() {
    let tileset = vec![
        vec!["7s", "8s", "9s"],
        vec!["chun", "chun", "chun"],
        vec!["1s", "2s", "3s"],
        vec!["1p", "1p"],
        vec!["4s", "5s", "6s"],
    ];
    assert!(build_pattern(tileset, "chun").is_ikkitsuukan());
    let tileset = vec![
        vec!["1s", "2s", "3s"],
        vec!["4p", "5p", "6p"],
        vec!["7s", "8s", "9s"],
        vec!["chun", "chun", "chun"],
        vec!["1p", "1p"],
    ];
    assert!(!build_pattern(tileset, "chun").is_ikkitsuukan());
}

#[test]
fn dragon_triplets_are_named_in_order() {
    let tileset = vec![
        vec!["chun", "chun", "chun"],
        vec!["haku", "haku", "haku"],
        vec!["1p", "2p", "3p"],
        vec!["7p", "8p", "9p"],
        vec!["hatsu", "hatsu"],
    ];
    assert_eq!(
        build_pattern(tileset, "1p").have_yakuhai_sangenpai(),
        vec![tile("haku"), tile("chun")]
    );
}

#[test]
fn pinfu_needs_a_wait_open_to_both_sides() {
    let tileset = vec![
        vec!["1p", "2p", "3p"],
        vec!["5m", "6m", "7m"],
        vec!["3s", "4s", "5s"],
        vec!["7s", "8s", "9s"],
        vec!["2m", "2m"],
    ];
    // 1-2 waits for the 3 alone, 8-9 for the 7 alone
    assert!(!build_pattern(tileset.clone(), "3p").is_pinfu());
    assert!(!build_pattern(tileset.clone(), "7s").is_pinfu());
    // 2-3 waits for 1 and 4, 7-8 for 6 and 9
    assert!(build_pattern(tileset.clone(), "1p").is_pinfu());
    assert!(build_pattern(tileset.clone(), "9s").is_pinfu());
    assert!(build_pattern(tileset.clone(), "5m").is_pinfu());
    assert!(build_pattern(tileset.clone(), "7m").is_pinfu());
    // the middle of a run, and the pair
    assert!(!build_pattern(tileset.clone(), "6m").is_pinfu());
    assert!(!build_pattern(tileset.clone(), "2m").is_pinfu());
    // a wind pair does not stand in the way, a tile of another suit does
    let winds = vec![
        vec!["2p", "3p", "4p"],
        vec!["5m", "6m", "7m"],
        vec!["3s", "4s", "5s"],
        vec!["6s", "7s", "8s"],
        vec!["ton", "ton"],
    ];
    assert!(build_pattern(winds.clone(), "2p").is_pinfu());
    assert!(!build_pattern(winds, "2m").is_pinfu());
}

#[test]
fn a_dragon_is_named_once() {
    let tileset = vec![
        vec!["haku", "haku", "haku"],
        vec!["haku", "haku", "haku"],
        vec!["1p", "2p", "3p"],
        vec!["7p", "8p", "9p"],
        vec!["hatsu", "hatsu"],
    ];
    assert_eq!(build_pattern(tileset, "1p").have_yakuhai_sangenpai(), vec![tile("haku")]);
}
