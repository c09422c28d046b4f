use minefield_core::bot::{chance_none, find_all_tenpai, pick_discard, Bot, CHANCE_ONE};
use minefield_core::search::find_all_waits;
use minefield_core::tiles::Tile::{
    M1, M2, M3, M4, M5, M6, M7, M8, M9, P1, P2, P3, P4, P5, P6, P7, P8, P9, S1, S2, S3, S4, S5, S6,
    S7, S8, S9, X1, X2, X3, X4, X5, X6, X7,
};
use minefield_core::tiles::{Tile, TileSet};

fn assert_bot(tiles: &[Tile], dora_ind: Tile, player_wind: Tile) {
    let bot = Bot::new(tiles, dora_ind, player_wind);
    let best_tenpai = bot.find_best_tenpai();
    assert!(best_tenpai.is_some());
}

fn assert_bot_fails(tiles: &[Tile], dora_ind: Tile, player_wind: Tile) {
    let bot = Bot::new(tiles, dora_ind, player_wind);
    let best_tenpai = bot.find_best_tenpai();
    assert!(best_tenpai.is_none());
}

#[test]
fn test_choose_tenpai() {
    assert_bot(
        &[
            M2, M3, M5, M6, M7, M7, M8, M9, M9, P1, P3, P5, P6, P6, P7, P8, S1, S2, S2, S3, S4,
            S6, S7, S7, S8, X1, X2, X2, X4, X4, X4, X5, X6, X7,
        ],
        X4,
        X3,
    );
    assert_bot(
        &[
            M2, M3, M4, M4, M5, M8, P1, P2, P2, P3, P5, P6, P7, P7, P7, P8, P8, P9, P9, S1, S2,
            S3, S4, S5, S6, S8, S9, S9, X1, X2, X2, X5, X5, X5,
        ],
        X4,
        X1,
    );
    assert_bot(
        &[
            M2, M3, M3, M4, M5, M6, M6, M7, M8, M9, M9, P1, P2, P2, P5, P6, P9, S3, S5, S7, S7,
            S8, S8, S9, X3, X3, X4, X5, X5, X6, X7, X7, X7,
        ],
        M3,
        X3,
    );
}

#[test]
fn bot_test_kokushi() {
    assert_bot(
        &[
            M1, M2, M4, M5, M7, M8, M9, P1, P2, P4, P5, P7, P8, P9, S1, S2, S4, S5, S7, S8, S9,
            X1, X1, X1, X1, X2, X2, X3, X3, X4, X4, X5, X5, X7,
        ],
        M3,
        X3,
    );
}

#[test]
fn test_nothing() {
    assert_bot_fails(
        // no tenpai possible
        &[
            M1, M2, M4, M5, M7, M8, P1, P2, P4, P5, P7, P8, S1, S2, S4, S5, S7, S8, X1, X1, X1,
            X1, X2, X2, X2, X2, X3, X3, X4, X4, X5, X5, X6, X7,
        ],
        M3,
        X3,
    );
}

#[test]
fn choose_hand_without_tenpai_keeps_the_first_thirteen() {
    let deal = [
        M1, M2, M4, M5, M7, M8, P1, P2, P4, P5, P7, P8, S1, S2, S4, S5, S7, S8, X1, X1, X1, X1,
        X2, X2, X2, X2, X3, X3, X4, X4, X5, X5, X6, X7,
    ];
    let mut bot = Bot::new(&deal, M3, X3);
    let hand = bot.choose_hand();
    assert_eq!(hand, deal[..13].to_vec());
}

#[test]
fn choose_hand_keeps_a_waiting_hand_of_the_deal() {
    let deal = [
        M2, M3, M5, M6, M7, M7, M8, M9, M9, P1, P3, P5, P6, P6, P7, P8, S1, S2, S2, S3, S4, S6,
        S7, S7, S8, X1, X2, X2, X4, X4, X4, X5, X6, X7,
    ];
    let mut bot = Bot::new(&deal, X4, X3);
    let hand = bot.choose_hand();
    assert_eq!(hand.len(), 13);
    let mut sorted = hand.clone();
    sorted.sort();
    assert_eq!(hand, sorted);
    assert!(TileSet::make(&deal).contains(&TileSet::make(&hand)));
    assert!(!find_all_waits(&hand).is_empty());
    // the tiles that were kept are no longer discarded
    let kept = TileSet::make(&hand);
    let mut left = TileSet::make(&deal);
    for tile in hand.iter() {
        left.add(*tile, -1);
    }
    for _ in 0..17 {
        let tile = bot.choose_discard();
        assert!(left.get(tile) > 0);
        left.add(tile, -1);
    }
    assert!(kept.get(M1) == 0);
}

#[test]
fn only_kept_tiles_matter_to_the_value() {
    // the only waiting hand of these tiles is thirteen orphans
    let deal = [M1, M9, P1, P9, S1, S9, X1, X2, X3, X4, X5, X6, X7, M5];
    let bot = Bot::new(&deal, P5, X1);
    assert_eq!(
        bot.find_best_tenpai(),
        Some(vec![M1, M9, P1, P9, S1, S9, X1, X2, X3, X4, X5, X6, X7])
    );
    // thirteen faces complete it, three tiles of each are unseen: 39
    // tiles, each worth a yakuman
    let none = chance_none(39);
    let expected = (CHANCE_ONE - none) * (39 * 5) * 39 / (39 * 39);
    assert_eq!(
        bot.eval_tenpai(&[M1, M9, P1, P9, S1, S9, X1, X2, X3, X4, X5, X6, X7]),
        Some(expected)
    );
    // four tiles that complete nothing have no value
    assert_eq!(
        bot.eval_tenpai(&[M1, M4, M7, P1, P4, P7, S1, S4, S7, X1, X2, X3, X4]),
        None
    );
}

#[test]
fn chance_that_no_tile_comes() {
    assert_eq!(chance_none(0), CHANCE_ONE);
    assert_eq!(chance_none(1), CHANCE_ONE * 84 / 101);
    assert_eq!(chance_none(2), CHANCE_ONE * 84 / 101 * 83 / 101);
    assert_eq!(chance_none(84), {
        let mut chance = CHANCE_ONE;
        for i in 0..84u128 {
            chance = chance * (84 - i) / 101;
        }
        chance
    });
    assert_eq!(chance_none(85), 0);
    assert_eq!(chance_none(136), 0);
}

#[test]
fn tenpai_parts_of_thirteen_tiles() {
    // thirteen tiles that wait in one way as four groups and a tile
    let found = find_all_tenpai(&[M1, M2, M3, M4, M5, M6, M7, M8, M9, P1, P1, P1, X1]);
    assert!(found.contains(&vec![M1, M2, M3, M4, M5, M6, M7, M8, M9, P1, P1, P1, X1]));
    for part in found.iter() {
        assert_eq!(part.len(), 13);
    }
    // six pairs and a tile
    let pairs = find_all_tenpai(&[M1, M1, M3, M3, M5, M5, M7, M7, M9, M9, S1, S1, S2]);
    assert_eq!(
        pairs,
        vec![vec![M1, M1, M3, M3, M5, M5, M7, M7, M9, M9, S1, S1, S2]]
    );
    // twelve orphans and a second tile of one of them, for each face held twice
    let orphans = find_all_tenpai(&[
        M1, M1, M9, P1, P9, S1, S9, X1, X2, X3, X4, X5, X6, M2, X6,
    ]);
    assert_eq!(
        orphans,
        vec![
            vec![M1, M9, P1, P9, S1, S9, X1, X2, X3, X4, X5, X6, M1],
            vec![M1, M9, P1, P9, S1, S9, X1, X2, X3, X4, X5, X6, X6],
        ]
    );
    // nothing in too few tiles
    assert!(find_all_tenpai(&[M1, M2, M3]).is_empty());
}

#[test]
fn safe_tile_is_discarded_first() {
    let deal = [M1, M1, M1, M5, P2, P2, S3];
    let mut bot = Bot::new(&deal, X1, X1);
    bot.opponent_discard(S9);
    bot.opponent_discard(P2);
    bot.opponent_discard(S3);
    // the lowest safe face that is held
    assert_eq!(bot.choose_discard(), P2);
    assert_eq!(bot.choose_discard(), P2);
    assert_eq!(bot.choose_discard(), S3);
    // then the face held most often
    assert_eq!(bot.choose_discard(), M1);
    assert_eq!(bot.choose_discard(), M1);
}

#[test]
fn awaited_faces_are_kept_as_long_as_others_are_held() {
    // with M1 M2 M3 kept, both M4 and M7 complete three runs of one rank
    // in three suits; with M5 M6 M7 kept, only M1 would
    let deal = [M2, M3, M5, M6, M7, P1, P2, P3, S1, S2, S3, X1, X1, M1, P9];
    let mut bot = Bot::new(&deal, X5, X2);
    let hand = bot.choose_hand();
    assert_eq!(hand, vec![M1, M2, M3, M5, M6, P1, P2, P3, S1, S2, S3, X1, X1]);
    assert_eq!(find_all_waits(&hand), vec![M4, M7]);
    assert_eq!(bot.choose_discard(), P9);
    // all that is left is awaited: it goes all the same
    assert_eq!(bot.choose_discard(), M7);
}

#[test]
fn ties_are_broken_by_the_random_numbers() {
    let deal = [M1, M2, M3, M4, M5, M6, M7, M8, M9, P1, P2, P3, P4, P5, P6, P7];
    let mut seen = vec![];
    for seed in 0..32 {
        let mut bot = Bot::new(&deal, X1, X1);
        bot.reseed(seed);
        let tile = bot.choose_discard();
        assert!(deal.contains(&tile));
        if !seen.contains(&tile) {
            seen.push(tile);
        }
    }
    assert!(seen.len() > 1);
    // the same seed gives the same discards
    let mut first = Bot::new(&deal, X1, X1);
    let mut second = Bot::new(&deal, X1, X1);
    first.reseed(7);
    second.reseed(7);
    for _ in 0..16 {
        assert_eq!(first.choose_discard(), second.choose_discard());
    }
}

#[test]
fn pick_discard_takes_the_first_of_the_most_held() {
    let held = TileSet::make(&[M1, M1, M2, M2, M3, P5, P5, P5]);
    let waits = TileSet::make(&[P5]);
    // P5 is awaited; M2 comes before M1 in the order
    assert_eq!(pick_discard(&vec![M3, P5, M2, M1], &held, &waits), M2);
    assert_eq!(pick_discard(&vec![M1, P5, M2, M3], &held, &waits), M1);
    // every face is awaited
    let all = TileSet::make(&[M1, M2, M3, P5]);
    assert_eq!(pick_discard(&vec![M3, M1, P5, M2], &held, &all), P5);
    assert_eq!(pick_discard(&vec![M3], &held, &all), M3);
}
