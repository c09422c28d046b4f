use minefield_core::client::{greet, react, Greeting, Reply};
use minefield_core::protocol::{MoveType, Msg, PGame};
use minefield_core::tiles::Tile;
use minefield_core::tiles::Tile::{M1, M2, M3, M9, P1, P2, P3, P9, S1, S2, S3, S9, X1, X2, X5, X7};

fn deal() -> Vec<Tile> {
    vec![M1, M2, M3, P1, P2, P3, S1, S2, S3, X1, X1, X1, X5, M9, P9, S9, X7]
}

fn dealt(you: usize, east: usize) -> minefield_core::bot::Bot {
    match greet(&Msg::PhaseOne { tiles: deal(), dora_ind: X2, you, east }) {
        Greeting::Deal(bot, seat) => {
            assert_eq!(seat, you);
            bot
        }
        _ => unreachable!(),
    }
}

#[test]
fn a_player_waits_for_the_deal() {
    assert!(matches!(greet(&Msg::Games { games: vec![PGame::Game { nicks: ["a".to_owned(), "b".to_owned()] }] }), Greeting::Wait));
    assert!(matches!(
        greet(&Msg::Room { you: 0, nicks: ["a".to_owned(), "b".to_owned()], key: "k".to_owned() }),
        Greeting::Wait
    ));
    assert!(matches!(greet(&Msg::PhaseTwo), Greeting::Unexpected));
    assert!(matches!(greet(&Msg::GetGames), Greeting::Unexpected));
    let bot = dealt(1, 0);
    assert_eq!(bot.deal_len(), 17);
    assert!(bot.has_tiles());
}

#[test]
fn a_player_keeps_a_hand_and_then_discards_the_rest() {
    let mut bot = dealt(0, 0);
    let hand = match react(&mut bot, 0, &Msg::StartMove { move_type: MoveType::Hand, time_limit: 180 }) {
        Reply::Hand(hand) => hand,
        _ => unreachable!(),
    };
    // of the five single waits of equal value, the first
    assert_eq!(hand, vec![M1, M2, M3, M9, P1, P2, P3, S1, S2, S3, X1, X1, X1]);
    assert!(matches!(react(&mut bot, 0, &Msg::EndMove), Reply::Nothing));
    assert!(matches!(react(&mut bot, 0, &Msg::WaitForPhaseTwo), Reply::Nothing));
    assert!(matches!(react(&mut bot, 0, &Msg::PhaseTwo), Reply::Nothing));
    // the opponent makes the seven of honors safe
    assert!(matches!(react(&mut bot, 0, &Msg::Discarded { player: 1, tile: X7 }), Reply::Nothing));
    match react(&mut bot, 0, &Msg::StartMove { move_type: MoveType::Discard, time_limit: 15 }) {
        Reply::Discard(tile) => assert_eq!(tile, X7),
        _ => unreachable!(),
    }
    let mut rest = vec![];
    for _ in 0..3 {
        match react(&mut bot, 0, &Msg::StartMove { move_type: MoveType::Discard, time_limit: 15 }) {
            Reply::Discard(tile) => rest.push(tile),
            _ => unreachable!(),
        }
    }
    rest.sort();
    assert_eq!(rest, vec![P9, S9, X5]);
    assert!(!bot.has_tiles());
}

#[test]
fn a_player_passes_over_its_own_discards() {
    let mut bot = dealt(1, 0);
    react(&mut bot, 1, &Msg::StartMove { move_type: MoveType::Hand, time_limit: 180 });
    // its own discard makes nothing safe: the next discard is not led by it
    assert!(matches!(react(&mut bot, 1, &Msg::Discarded { player: 1, tile: S9 }), Reply::Nothing));
    assert!(matches!(react(&mut bot, 1, &Msg::Discarded { player: 0, tile: P9 }), Reply::Nothing));
    match react(&mut bot, 1, &Msg::StartMove { move_type: MoveType::Discard, time_limit: 15 }) {
        Reply::Discard(tile) => assert_eq!(tile, P9),
        _ => unreachable!(),
    }
}

#[test]
fn a_player_knows_when_the_game_has_ended() {
    let mut bot = dealt(0, 1);
    assert!(matches!(react(&mut bot, 0, &Msg::Draw), Reply::Done));
    assert!(matches!(react(&mut bot, 0, &Msg::Abort { culprit: 1, description: "time limit exceeded".to_owned() }), Reply::Done));
    assert!(matches!(
        react(
            &mut bot,
            0,
            &Msg::Ron { player: 1, hand: vec![], tile: M1, limit: 1, yaku: vec![], dora: 0, uradora_ind: M1, points: 8000 }
        ),
        Reply::Done
    ));
    assert!(matches!(react(&mut bot, 0, &Msg::Hand { hand: vec![] }), Reply::Nothing));
    assert!(matches!(react(&mut bot, 0, &Msg::GetGames), Reply::Unexpected));
    assert!(matches!(react(&mut bot, 0, &Msg::PhaseOne { tiles: vec![], dora_ind: M1, you: 0, east: 0 }), Reply::Unexpected));
}
