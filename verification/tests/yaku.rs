use minefield_core::search::search;
use minefield_core::tiles::Tile;
use minefield_core::tiles::Tile::{
    M1, M2, M3, M4, M5, M6, M7, M8, M9, P1, P2, P3, P4, P5, P6, P7, P8, P9, S1, S2, S3, S4, S5, S6,
    S7, S8, S9, X1, X2, X3, X4, X5, X6, X7,
};
use minefield_core::yaku::yaku;
use minefield_core::yaku::Yaku;
use minefield_core::yaku::Yaku::{
    Chanta, Chinitsu, Chinroto, Chitoitsu, Chun, Chuuren, Daisangen, Haku, Hatsu, Honitsu, Honroto,
    Iipeiko, Itsuu, Junchan, Kokushi, Pinfu, Ryanpeiko, Ryuuiiso, Sananko, Sanshokudojun,
    Sanshokudoko, Shosangen, Suuanko, Suushi, Tanyao, Toitoi, Tsuuiiso, Wind,
};

fn assert_yaku(tiles: &[Tile; 14], wait: Tile, expected: Vec<Vec<Yaku>>) {
    let player_wind = X1;
    let mut result = vec![];

    println!("tiles: {:?}", tiles);
    for hand in search(tiles, wait) {
        println!("hand: {:?}", hand);
        result.push(yaku(&hand, player_wind, &[]));
    }
    assert_eq!(result, expected);
}

#[test]
fn test_yaku() {
    assert_yaku(
        &[M2, M2, M3, M3, M4, M4, P2, P3, P4, P7, P7, P7, S2, S2],
        M3,
        vec![vec![Iipeiko, Tanyao]],
    );
    assert_yaku(
        &[M1, M2, M3, M4, M5, M6, M6, M7, M8, P2, P2, P2, X1, X1],
        M1,
        vec![vec![]],
    );
    // fake pinfu
    assert_yaku(
        &[M1, M2, M3, M4, M5, M6, M6, M7, M8, P2, P3, P4, X2, X2],
        M3,
        vec![vec![]],
    );
    assert_yaku(
        &[M1, M1, M1, M1, M2, M2, M2, M2, M3, M3, M3, M3, M9, M9],
        M1,
        vec![
            vec![Chinitsu],
            vec![Sananko, Chinitsu],
            vec![Pinfu, Ryanpeiko, Junchan, Chinitsu],
        ],
    );
    assert_yaku(
        &[M1, M2, M2, M3, M3, M3, M3, M4, M4, M4, M5, M5, M6, M6],
        M1,
        vec![
            vec![Pinfu, Iipeiko, Chinitsu],
            vec![Pinfu, Iipeiko, Chinitsu],
        ],
    );
    assert_yaku(
        &[M1, M1, M2, M2, M3, M3, M7, M7, M8, M8, M9, M9, X5, X5],
        M3,
        vec![vec![Chanta, Ryanpeiko, Honitsu], vec![Chitoitsu, Honitsu]],
    );
}

#[test]
fn test_pinfu() {
    assert_yaku(
        &[M1, M1, M1, M2, M3, M4, M5, M6, M6, M7, M8, P2, P3, P4],
        M1,
        vec![vec![], vec![Pinfu]],
    );
    assert_yaku(
        &[M1, M2, M3, M4, M5, M6, M6, M7, M8, P2, P3, P4, X1, X1],
        M1,
        vec![vec![]],
    );
    assert_yaku(
        &[M1, M2, M3, M4, M5, M6, M6, M7, M8, P2, P3, P4, X2, X2],
        M3,
        vec![vec![]],
    );
}

#[test]
fn test_honitsu() {
    assert_yaku(
        &[M2, M3, M4, M5, M6, M7, M8, M8, M8, M9, M9, X5, X5, X5],
        X5,
        vec![vec![Haku, Honitsu]],
    );
    assert_yaku(
        &[X1, X1, M2, M3, M4, M5, M6, M7, M8, M8, M8, M9, M9, M9],
        X1,
        vec![vec![Honitsu]],
    );
}

#[test]
fn test_tanyao() {
    assert_yaku(
        &[M2, M3, M4, M5, M6, M7, P3, P3, P3, P5, P6, P7, S4, S4],
        M7,
        vec![vec![Tanyao]],
    );
    assert_yaku(
        &[M2, M3, M4, M5, M6, M7, P2, P3, P4, P5, P6, P7, P8, P8],
        P7,
        vec![vec![Pinfu, Tanyao]],
    );
}

#[test]
fn test_fanpai() {
    assert_yaku(
        &[M2, M3, M4, M5, M6, M7, P2, P3, P4, P8, P8, X5, X5, X5],
        X5,
        vec![vec![Haku]],
    );
    assert_yaku(
        &[M2, M3, M4, M5, M6, M7, P2, P3, P4, X6, X6, X6, X7, X7],
        M2,
        vec![vec![Hatsu]],
    );
    assert_yaku(
        &[M2, M3, M4, M5, M6, M7, P2, P3, P4, X1, X1, X1, X7, X7],
        M2,
        vec![vec![Wind]],
    );
}
#[test]
fn test_sanshoku() {
    assert_yaku(
        &[M4, M5, M6, P4, P4, P4, P5, P6, S4, S5, S6, S7, S8, S9],
        M5,
        vec![vec![Sanshokudojun]],
    );
    assert_yaku(
        &[M1, M1, M1, M2, M3, M4, P1, P1, P1, S1, S1, S1, S2, S2],
        S1,
        vec![vec![Sanshokudoko]],
    );
}

#[test]
fn test_itsuu() {
    assert_yaku(
        &[M1, M2, M3, S1, S2, S3, S4, S5, S6, S7, S8, S9, P5, P5],
        S5,
        vec![vec![Itsuu]],
    );
}

#[test]
fn test_toitoi() {
    assert_yaku(
        &[M1, M1, M1, P2, P2, P2, S3, S3, S3, S5, S5, S9, S9, S9],
        S3,
        vec![vec![Toitoi, Sananko]],
    );
    assert_yaku(
        &[M1, M1, M1, P2, P2, P2, S3, S3, S3, S5, S5, S7, S8, S9],
        S3,
        vec![vec![]],
    );
}

#[test]
fn test_honroto() {
    assert_yaku(
        &[M1, M1, M1, M9, M9, M9, P9, P9, P9, S1, S1, X3, X3, X3],
        X3,
        vec![vec![Honroto, Toitoi, Sananko]],
    );
    assert_yaku(
        &[M1, M1, M9, M9, P1, P1, P9, P9, S1, S1, X3, X3, X5, X5],
        X3,
        vec![vec![Chitoitsu, Honroto]],
    );
}

#[test]
fn test_shousangen() {
    assert_yaku(
        &[P1, P2, P3, S5, S5, S5, X5, X5, X5, X6, X6, X6, X7, X7],
        S5,
        vec![vec![Haku, Hatsu, Shosangen]],
    );
    assert_yaku(
        &[P1, P2, P3, S9, S9, S9, X5, X5, X5, X6, X6, X7, X7, X7],
        P1,
        vec![vec![Haku, Chun, Chanta, Sananko, Shosangen]],
    );
}

#[test]
fn test_daisangen() {
    assert_yaku(
        &[P1, P2, P3, S5, S5, X5, X5, X5, X6, X6, X6, X7, X7, X7],
        S5,
        vec![vec![Daisangen]],
    );
}

#[test]
fn yaku_test_kokushi() {
    assert_yaku(
        &[M1, M9, P1, P9, S1, S9, S9, X1, X2, X3, X4, X5, X6, X7],
        S1,
        vec![vec![Kokushi]],
    );
    assert_yaku(
        &[M1, M9, P1, P9, S1, S9, X1, X2, X3, X4, X5, X5, X6, X7],
        X5,
        vec![vec![Kokushi]],
    );
}

#[test]
fn test_suuanko() {
    assert_yaku(
        &[M2, M2, M2, P3, P3, P3, P7, P7, P7, S5, S5, X7, X7, X7],
        S5,
        vec![vec![Suuanko]],
    );
}

#[test]
fn test_suushi() {
    assert_yaku(
        &[M3, M4, M5, X1, X1, X1, X2, X2, X3, X3, X3, X4, X4, X4],
        X2,
        vec![vec![Suushi]],
    );
    assert_yaku(
        &[M3, M3, X1, X1, X1, X2, X2, X2, X3, X3, X3, X4, X4, X4],
        X2,
        vec![vec![Suushi]],
    );
}

#[test]
fn test_chinroto() {
    assert_yaku(
        &[M1, M1, M1, P1, P1, P1, P9, P9, P9, S1, S1, S1, S9, S9],
        P1,
        vec![vec![Chinroto]],
    );
}

#[test]
fn test_tsuuiiso() {
    assert_yaku(
        &[X1, X1, X1, X3, X3, X4, X4, X4, X5, X5, X5, X7, X7, X7],
        X1,
        vec![vec![Tsuuiiso]],
    );
    assert_yaku(
        &[X1, X1, X2, X2, X3, X3, X4, X4, X5, X5, X6, X6, X7, X7],
        X1,
        vec![vec![Tsuuiiso]],
    );
}

#[test]
fn test_ryuuiiso() {
    assert_yaku(
        &[S2, S2, S3, S3, S4, S4, S6, S6, S6, S8, S8, X6, X6, X6],
        X6,
        vec![vec![Ryuuiiso]],
    );
    assert_yaku(
        &[S2, S2, S2, S3, S3, S3, S4, S4, S4, S6, S6, S6, S8, S8],
        S6,
        vec![vec![Ryuuiiso], vec![Ryuuiiso]],
    );
}

#[test]
fn test_chuuren() {
    assert_yaku(
        &[S1, S1, S1, S2, S3, S3, S4, S5, S6, S7, S8, S9, S9, S9],
        S5,
        vec![vec![Chuuren]],
    );
    assert_yaku(
        &[M1, M1, M1, M2, M3, M4, M4, M5, M6, M7, M8, M9, M9, M9],
        M4,
        vec![vec![Chuuren], vec![Chuuren]],
    );
}
