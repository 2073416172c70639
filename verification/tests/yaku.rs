use yaku_checker::tile::Tile;
use yaku_checker::yaku::{Han, Yaku};

#[test]
fn han_ord() {
    assert!(Han::double_yakuman() > Han::yakuman());
    assert!(Han::double_yakuman() > Han::new(100));
    assert!(Han::yakuman() == Han::yakuman());
    assert!(Han::new(5) < Han::new(10));
    assert!(Han::new(100) < Han::yakuman())
}

#[test]
fn han_add() {
    assert!(Han::double_yakuman() + Han::yakuman() == Han::yakuman() + Han::double_yakuman());
    assert!(Han::yakuman() + Han::yakuman() == Han::double_yakuman());
    assert!(Han::yakuman() + Han::new(13) == Han::yakuman());
    assert!(Han::new(10) + Han::new(10) == Han::new(13));
    assert!(Han::new(1) + Han::new(5) == Han::new(6));
}

#[test]
fn han_add_saturates() {
    assert_eq!(Han::new(13) + Han::new(13), Han::new(13));
    assert_eq!(Han::new(200) + Han::new(200), Han::new(13));
    assert_eq!(Han::new(0) + Han::new(0), Han::new(0));
    assert_eq!(Han::new(6) + Han::new(7), Han::new(13));
    assert_eq!(Han::new(6) + Han::new(6), Han::new(12));
    assert_eq!(Han::double_yakuman() + Han::double_yakuman(), Han::double_yakuman());
    assert_eq!(Han::double_yakuman() + Han::yakuman(), Han::double_yakuman());
    assert_eq!(Han::new(5) + Han::yakuman(), Han::yakuman());
    assert_eq!(Han::new(5) + Han::double_yakuman(), Han::double_yakuman());
}

#[test]
fn han_less_than_agrees_with_the_operators() {
    let values = [
        Han::new(0),
        Han::new(1),
        Han::new(13),
        Han::new(100),
        Han::yakuman(),
        Han::double_yakuman(),
    ];
    for (i, a) in values.iter().enumerate() {
        for (j, b) in values.iter().enumerate() {
            assert_eq!(a.less_than(b), i < j);
            assert_eq!(a < b, i < j);
            assert_eq!(a > b, i > j);
            assert_eq!(a == b, i == j);
        }
    }
}

#[test]
fn han_of_each_yaku() {
    let haku = Tile::from_str("haku").unwrap();
    let ones = [Yaku::Tanyao, Yaku::YakuhaiSangenpai(haku), Yaku::Pinfu, Yaku::Iipeikou];
    for y in ones {
        assert_eq!(Han::from(y), Han::new(1));
    }
    let twos = [
        Yaku::Sanshokudoukou,
        Yaku::Toitoihou,
        Yaku::Sanankou,
        Yaku::Shousangen,
        Yaku::Honroutou,
        Yaku::Chiitoitsu,
        Yaku::Honchantaiyaochuu,
        Yaku::Ikkitsuukan,
        Yaku::Sanshokudoujun,
    ];
    for y in twos {
        assert_eq!(Han::from(y), Han::new(2));
    }
    for y in [Yaku::Ryanpeikou, Yaku::Junchantaiyaochuu, Yaku::Honiisou] {
        assert_eq!(Han::from(y), Han::new(3));
    }
    assert_eq!(Han::from(Yaku::Chiniisou), Han::new(6));
    let yakuman = [
        Yaku::Daisangen,
        Yaku::Suuankou,
        Yaku::Tsuuiisou,
        Yaku::Ryuuiisou,
        Yaku::Chinroutou,
        Yaku::Kokushimusou,
        Yaku::Shousuushii,
        Yaku::Chuurenpoutou,
    ];
    for y in yakuman {
        assert_eq!(Han::from(y), Han::yakuman());
    }
    let double = [
        Yaku::Suuankoutanki,
        Yaku::Kokushimusou13,
        Yaku::Junseichuurenpoutou,
        Yaku::Daisuushii,
    ];
    for y in double {
        assert_eq!(Han::from(y), Han::double_yakuman());
    }
}

#[test]
fn han_total_of_a_list() {
    assert_eq!(Han::total(&vec![]), Han::new(0));
    assert_eq!(Han::total(&vec![Yaku::Tanyao, Yaku::Pinfu, Yaku::Chiniisou]), Han::new(8));
    assert_eq!(
        Han::total(&vec![Yaku::Chiniisou, Yaku::Chiniisou, Yaku::Chiniisou]),
        Han::new(13)
    );
    assert_eq!(Han::total(&vec![Yaku::Tanyao, Yaku::Daisangen]), Han::yakuman());
    assert_eq!(
        Han::total(&vec![Yaku::Daisangen, Yaku::Tsuuiisou, Yaku::Suuankou]),
        Han::double_yakuman()
    );
    assert!(Han::total(&vec![Yaku::Chiniisou, Yaku::Chiniisou, Yaku::Chiniisou]) < Han::total(&vec![Yaku::Daisangen]));
}

#[test]
fn yaku_codes_follow_the_order() {
    let haku = Tile::from_str("haku").unwrap();
    let chun = Tile::from_str("chun").unwrap();
    let list = [
        Yaku::Tanyao,
        Yaku::YakuhaiSangenpai(haku),
        Yaku::YakuhaiSangenpai(chun),
        Yaku::Pinfu,
        Yaku::Iipeikou,
        Yaku::Chiitoitsu,
        Yaku::Chiniisou,
        Yaku::Daisangen,
        Yaku::Kokushimusou,
        Yaku::Kokushimusou13,
        Yaku::Daisuushii,
    ];
    for (i, a) in list.iter().enumerate() {
        for (j, b) in list.iter().enumerate() {
            assert_eq!(a.code() < b.code(), i < j);
            assert_eq!(a < b, i < j);
        }
    }
    assert_eq!(Yaku::Tanyao.code(), 0);
    assert_eq!(Yaku::YakuhaiSangenpai(haku).code(), 256 + 31);
    assert_eq!(Yaku::Daisuushii.code(), 28 * 256);
    assert_eq!(Yaku::Pinfu.name(), "Pinfu");
}
