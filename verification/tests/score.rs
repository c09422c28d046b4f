use minefield_core::hand::Group::{Chi, Pon};
use minefield_core::hand::Hand;
use minefield_core::score::Score;
use minefield_core::tiles::Tile::{M1, M2, M3, M4, M5, M6, M7, M8, M9, P1, P2, P5, S1, S9, X1, X5};
use minefield_core::yaku::Yaku;
use minefield_core::yaku::{score, score_hand};

fn score_of(yaku: Vec<Yaku>, fu: usize, dora_count: usize) -> Score {
    Score {
        yaku,
        tiles: vec![],
        fu,
        dora_count,
    }
}

#[test]
fn limit_tiers() {
    // fan 2, fu 40
    assert_eq!(score_of(vec![Yaku::Tanyao, Yaku::Pinfu], 40, 0).limit(), 0);
    // fan 3, fu 30
    assert_eq!(score_of(vec![Yaku::Honitsu], 30, 0).limit(), 0);
    // fan 3, fu 60
    assert_eq!(score_of(vec![Yaku::Honitsu], 60, 0).limit(), 1);
    // fan 4, fu 40
    assert_eq!(score_of(vec![Yaku::Pinfu, Yaku::Honitsu], 40, 0).limit(), 1);
    // fan 4, fu 25
    assert_eq!(score_of(vec![Yaku::Chitoitsu, Yaku::Honroto], 25, 0).limit(), 0);
    // fan 13
    assert_eq!(score_of(vec![Yaku::Kokushi], 30, 0).limit(), 5);
    // fan 14
    assert_eq!(score_of(vec![Yaku::Pinfu, Yaku::Kokushi], 30, 0).limit(), 6);
}

#[test]
fn limit_counts_dora_up_to_thirteen() {
    // 6 fan and 1 dora: haneman
    assert_eq!(score_of(vec![Yaku::Chinitsu], 30, 1).limit(), 2);
    // 6 fan and 2 dora: baiman
    assert_eq!(score_of(vec![Yaku::Chinitsu], 30, 2).limit(), 3);
    // 6 fan and 5 dora: sanbaiman
    assert_eq!(score_of(vec![Yaku::Chinitsu], 30, 5).limit(), 4);
    // dora alone reach 13 and no more
    assert_eq!(score_of(vec![Yaku::Chinitsu], 30, 7).limit(), 5);
    assert_eq!(score_of(vec![Yaku::Chinitsu], 30, 100).limit(), 5);
    // a yakuman takes no dora
    assert_eq!(score_of(vec![Yaku::Kokushi], 30, 3).limit(), 5);
    // two yakuman
    assert_eq!(score_of(vec![Yaku::Daisangen, Yaku::Tsuuiiso], 50, 0).limit(), 6);
    // nothing at all
    assert_eq!(score_of(vec![], 30, 0).limit(), 0);
    assert_eq!(score_of(vec![], 30, 2).limit(), 0);
    assert_eq!(score_of(vec![], 60, 3).limit(), 1);
}

#[test]
fn points_of_each_tier() {
    assert_eq!(score_of(vec![Yaku::Pinfu], 30, 0).points(), 0);
    assert_eq!(score_of(vec![Yaku::Honitsu], 60, 0).points(), 8000);
    assert_eq!(score_of(vec![Yaku::Chinitsu], 30, 0).points(), 12000);
    assert_eq!(score_of(vec![Yaku::Chinitsu, Yaku::Honitsu], 30, 0).points(), 16000);
    assert_eq!(score_of(vec![Yaku::Chinitsu, Yaku::Chinitsu], 30, 0).points(), 24000);
    assert_eq!(score_of(vec![Yaku::Suuanko], 30, 0).points(), 32000);
    assert_eq!(score_of(vec![Yaku::Suuanko, Yaku::Tsuuiiso], 30, 0).points(), 64000);
}

#[test]
fn fan_is_the_sum() {
    assert_eq!(score_of(vec![], 30, 0).fan(), 0);
    assert_eq!(score_of(vec![Yaku::Pinfu, Yaku::Itsuu, Yaku::Honitsu, Yaku::Chinitsu], 30, 0).fan(), 12);
    assert_eq!(score_of(vec![Yaku::Riichi, Yaku::Ippatsu, Yaku::Hotei], 30, 5).fan(), 3);
}

#[test]
fn score_from_hand_and_dora() {
    // a full flush of man with a straight, won on the pair
    let hand = Hand::Normal(M9, [Chi(M1), Chi(M1), Chi(M4), Chi(M7)], M9, None);
    let mut score = Score::from_hand(&hand, X1, &[Yaku::Riichi]);
    assert_eq!(
        score.tiles,
        vec![M1, M1, M2, M2, M3, M3, M4, M5, M6, M7, M8, M9, M9, M9]
    );
    assert_eq!(score.yaku, vec![Yaku::Iipeiko, Yaku::Itsuu, Yaku::Chinitsu, Yaku::Riichi]);
    assert_eq!(score.fu, 40);
    assert_eq!(score.dora_count, 0);
    assert_eq!(score.fan(), 10);
    assert_eq!(score.limit(), 3);
    assert_eq!(score.count_dora(M9), 3);
    assert_eq!(score.count_dora(P5), 0);
    score.add_dora(M2);
    assert_eq!(score.dora_count, 2);
    assert_eq!(score.limit(), 4);
    assert_eq!(score.with_dora(M4).with_dora(S9).dora_count, 3);
    assert_eq!(score.limit(), 5);
    assert_eq!(score.points(), 32000);
}

#[test]
fn special_yaku_are_dropped_beside_a_yakuman() {
    let hand = Hand::Kokushi(S9, M1);
    let score = Score::from_hand(&hand, X1, &[Yaku::Riichi, Yaku::Ippatsu]);
    assert_eq!(score.yaku, vec![Yaku::Kokushi]);
    assert_eq!(score.fu, 30);
    assert_eq!(score.limit(), 5);
    let pairs = Hand::Pairs([M1, M3, M5, M7, M9, S1, S9], M1);
    let score = Score::from_hand(&pairs, X1, &[Yaku::Hotei, Yaku::Riichi]);
    assert_eq!(score.yaku, vec![Yaku::Chitoitsu, Yaku::Riichi, Yaku::Hotei]);
    assert_eq!(score.fu, 25);
    assert_eq!(score.fan(), 4);
    assert_eq!(score.limit(), 0);
}

#[test]
fn score_adds_one_fan_below_thirteen() {
    assert_eq!(score(1, 30), 0);
    assert_eq!(score(2, 30), 0);
    assert_eq!(score(2, 60), 8000);
    assert_eq!(score(3, 20), 0);
    assert_eq!(score(3, 30), 8000);
    assert_eq!(score(5, 30), 12000);
    assert_eq!(score(7, 30), 16000);
    assert_eq!(score(10, 30), 24000);
    assert_eq!(score(12, 30), 32000);
    assert_eq!(score(13, 30), 32000);
    assert_eq!(score(14, 30), 64000);
}

#[test]
fn score_hand_counts_the_dora() {
    // no pattern: nothing, whatever the dora
    let plain = Hand::Normal(X1, [Chi(M1), Chi(M4), Chi(M6), Pon(P2)], M1, Some(0));
    assert_eq!(score_hand(&plain, X1, M1), 0);
    // a dragon's triplet and a half flush: 1 + 3 fan, and the one that is added
    let flush = Hand::Normal(M9, [Chi(M2), Chi(M5), Pon(M8), Pon(X5)], X5, Some(3));
    assert_eq!(score_hand(&flush, X1, P1), 8000);
    assert_eq!(score_hand(&flush, X1, X5), 16000);
    // thirteen orphans; dora tiles count on top of a yakuman
    assert_eq!(score_hand(&Hand::Kokushi(S9, M1), X1, M5), 32000);
    assert_eq!(score_hand(&Hand::Kokushi(S9, M1), X1, S9), 64000);
}
