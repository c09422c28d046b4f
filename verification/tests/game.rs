use minefield_core::game::{
    all_tiles, Game, DISCARDS, DISCARD_TIME_LIMIT, EXTRA_TIME, HAND_TIME_LIMIT, PLAYER_TILES,
};
use minefield_core::protocol::{MoveType, Msg};
use minefield_core::tiles::Tile;
use minefield_core::tiles::Tile::{
    M1, M2, M3, M4, M5, M6, M7, M8, M9, P1, P2, P3, P4, P6, P7, P8, P9, S1, S2, S3, S4, S5, S6, S7,
    S8, S9, X1, X2, X3, X4, X5, X6, X7,
};
use minefield_core::yaku::Yaku;

fn game() -> Game {
    Game::fixed(&all_tiles(), 0)
}

fn assert_aborted(game: &mut Game, culprit: usize, description: &str) {
    let abort = Msg::Abort {
        culprit,
        description: description.to_owned(),
    };
    assert_eq!(game.messages(), vec![(0, abort.clone()), (1, abort)]);
}

#[test]
fn test_init() {
    let mut game = game();
    let all_tiles = all_tiles();
    game.on_start();
    assert_eq!(
        game.messages(),
        vec![
            (
                0,
                Msg::PhaseOne {
                    tiles: all_tiles[0..PLAYER_TILES].to_vec(),
                    dora_ind: M1,
                    you: 0,
                    east: 0
                }
            ),
            (
                0,
                Msg::StartMove {
                    move_type: MoveType::Hand,
                    time_limit: HAND_TIME_LIMIT
                }
            ),
            (
                1,
                Msg::PhaseOne {
                    tiles: all_tiles[PLAYER_TILES..2 * PLAYER_TILES].to_vec(),
                    dora_ind: M1,
                    you: 1,
                    east: 0
                }
            ),
            (
                1,
                Msg::StartMove {
                    move_type: MoveType::Hand,
                    time_limit: HAND_TIME_LIMIT
                }
            )
        ]
    );
}

fn start_game(hand_0: &[Tile], hand_1: &[Tile]) -> Game {
    let mut game = game();
    game.on_start();
    game.messages();
    game.on_message(
        0,
        Msg::Hand {
            hand: hand_0.to_vec(),
        },
    );
    assert_eq!(
        game.messages(),
        vec![
            (0, Msg::EndMove),
            (
                0,
                Msg::Hand {
                    hand: hand_0.to_vec()
                }
            ),
            (0, Msg::WaitForPhaseTwo)
        ]
    );
    game.on_message(
        1,
        Msg::Hand {
            hand: hand_1.to_vec(),
        },
    );
    assert_eq!(
        game.messages_at_most(4),
        vec![
            (1, Msg::EndMove),
            (
                1,
                Msg::Hand {
                    hand: hand_1.to_vec()
                }
            ),
            (0, Msg::PhaseTwo),
            (1, Msg::PhaseTwo),
        ]
    );
    game
}

fn discard(game: &mut Game, player: usize, tile: Tile) {
    assert_eq!(
        game.messages(),
        vec![(
            player,
            Msg::StartMove {
                move_type: MoveType::Discard,
                time_limit: DISCARD_TIME_LIMIT
            }
        )]
    );
    game.on_message(player, Msg::Discard { tile });
    assert_eq!(
        game.messages_at_most(3),
        vec![
            (player, Msg::EndMove),
            (0, Msg::Discarded { player, tile }),
            (1, Msg::Discarded { player, tile }),
        ]
    );
}

#[test]
fn test_draw() {
    let mut game = start_game(
        &[M1, M2, M3, M4, M5, M6, M7, M8, M9, P1, P2, P3, P4],
        &[M1, M2, M3, M4, M5, M6, M7, M8, M9, P1, P2, P3, P4],
    );
    for _ in 0..DISCARDS {
        for player in 0..2 {
            let tile = game.choices(player)[0];
            discard(&mut game, player, tile);
        }
    }
    assert_eq!(game.messages(), vec![(0, Msg::Draw), (1, Msg::Draw)]);
    assert_eq!(game.is_finished(), true);
}

#[test]
fn test_win() {
    // P0: 13-sided kokushi
    // P1: riichi ippatsu dora - 3 fan, not enough for mangan
    let mut game = start_game(
        &[M1, M9, P1, P9, S1, S9, X1, X2, X3, X4, X5, X6, X7],
        &[M1, M2, M3, M4, M5, M6, P7, P8, P9, S1, S2, S3, S4],
    );

    // P1's winning tile - no ron, furiten
    discard(&mut game, 0, S4);
    assert_eq!(game.is_finished(), false);
    assert_eq!(game.is_furiten(1), true);

    // Rising Sun!
    discard(&mut game, 1, P1);
    let ron = Msg::Ron {
        player: 0,
        yaku: vec![Yaku::Kokushi],
        hand: vec![M1, M9, P1, P9, S1, S9, X1, X2, X3, X4, X5, X6, X7],
        points: 32000,
        limit: 5,
        dora: 0,
        uradora_ind: M2,
        tile: P1,
    };
    assert_eq!(game.messages(), vec![(0, ron.clone()), (1, ron)]);
    assert_eq!(game.is_finished(), true);
}

#[test]
fn test_furiten() {
    // P0: junk
    // P1: riichi tanyao sanshoku on S5, but only riichi tanyao on S8
    let mut game = start_game(
        &[M2, M9, P1, P9, S1, S9, X1, X2, X3, X4, X5, X6, X7],
        &[M6, M7, M8, P6, P7, P8, S2, S3, S4, S5, S6, S7, S8],
    );

    // P1's winning tile - no ron, furiten
    discard(&mut game, 0, S8);
    assert_eq!(game.is_finished(), false);
    assert_eq!(game.is_furiten(1), true);

    discard(&mut game, 1, P1);

    // P1 would win now, but she's in furiten
    discard(&mut game, 0, S5);
    assert_eq!(game.is_finished(), false);
}

#[test]
fn test_short_hand() {
    let mut game = game();
    game.on_start();
    game.messages();
    game.on_message(
        1,
        Msg::Hand {
            hand: vec![M1, M2, M3],
        },
    );
    assert_aborted(&mut game, 1, "len != 13");
}

#[test]
fn test_tiles_outside_initial() {
    let mut game = game();
    game.on_start();
    game.messages();
    game.on_message(
        1,
        Msg::Hand {
            hand: vec![M1, M1, M1, M1, M1, M1, M1, M1, M1, M1, M1, M1, M1],
        },
    );
    assert_aborted(&mut game, 1, "tile not found in choices");
}

#[test]
fn test_hand_time_limit() {
    let mut game = game();
    game.on_start();
    game.messages();
    game.on_message(
        0,
        Msg::Hand {
            hand: vec![M2, M9, P1, P9, S1, S9, X1, X2, X3, X4, X5, X6, X7],
        },
    );
    game.messages();
    for _ in 0..HAND_TIME_LIMIT + EXTRA_TIME {
        game.beat();
    }
    assert_aborted(&mut game, 1, "time limit exceeded");
}

#[test]
fn test_discard_time_limit() {
    let mut game = start_game(
        &[M1, M2, M3, M4, M5, M6, M7, M8, M9, P1, P2, P3, P4],
        &[M1, M2, M3, M4, M5, M6, M7, M8, M9, P1, P2, P3, P4],
    );
    game.messages();
    for _ in 0..DISCARD_TIME_LIMIT + EXTRA_TIME {
        game.beat();
    }
    assert_aborted(&mut game, 0, "time limit exceeded");
}

#[test]
fn all_tiles_are_four_of_each_face() {
    let tiles = all_tiles();
    assert_eq!(tiles.len(), 136);
    assert_eq!(tiles[0], M1);
    assert_eq!(tiles[33], X7);
    assert_eq!(tiles[34], M1);
    assert_eq!(tiles[135], X7);
    for face in tiles[..34].iter() {
        assert_eq!(tiles.iter().filter(|tile| *tile == face).count(), 4);
    }
}

#[test]
fn messages_at_most_leaves_the_rest() {
    let mut game = game();
    game.on_start();
    let first = game.messages_at_most(1);
    assert_eq!(first.len(), 1);
    assert!(matches!(first[0], (0, Msg::PhaseOne { .. })));
    let rest = game.messages_at_most(10);
    assert_eq!(rest.len(), 3);
    assert!(game.messages().is_empty());
    assert!(game.messages_at_most(0).is_empty());
}

#[test]
fn discard_before_both_hands_breaks_the_game_off() {
    let mut game = game();
    game.on_start();
    game.messages();
    game.on_message(0, Msg::Discard { tile: M1 });
    assert_aborted(&mut game, 0, "discard too soon");
    assert!(game.is_finished());
}

#[test]
fn discard_out_of_turn_breaks_the_game_off() {
    let mut game = start_game(
        &[M1, M2, M3, M4, M5, M6, M7, M8, M9, P1, P2, P3, P4],
        &[M1, M2, M3, M4, M5, M6, M7, M8, M9, P1, P2, P3, P4],
    );
    game.messages();
    game.on_message(1, Msg::Discard { tile: X1 });
    assert_aborted(&mut game, 1, "not expecting a discard");
}

#[test]
fn second_hand_and_strange_messages_break_the_game_off() {
    let mut game = start_game(
        &[M1, M2, M3, M4, M5, M6, M7, M8, M9, P1, P2, P3, P4],
        &[M1, M2, M3, M4, M5, M6, M7, M8, M9, P1, P2, P3, P4],
    );
    game.messages();
    game.on_message(
        0,
        Msg::Hand {
            hand: vec![M1, M2, M3, M4, M5, M6, M7, M8, M9, P1, P2, P3, P4],
        },
    );
    assert_aborted(&mut game, 0, "not expecting a hand");
    let mut game = game_of_two();
    game.on_message(1, Msg::GetGames);
    assert_aborted(&mut game, 1, "unexpected message");
}

fn game_of_two() -> Game {
    let mut game = game();
    game.on_start();
    game.messages();
    game
}

#[test]
fn discard_of_a_tile_not_held_breaks_the_game_off() {
    let mut game = start_game(
        &[M1, M2, M3, M4, M5, M6, M7, M8, M9, P1, P2, P3, P4],
        &[M1, M2, M3, M4, M5, M6, M7, M8, M9, P1, P2, P3, P4],
    );
    game.messages();
    // the first player was dealt the first 34 tiles: one of each face
    game.on_message(0, Msg::Discard { tile: M1 });
    assert_aborted(&mut game, 0, "tile not found in choices");
}

#[test]
fn west_wins_on_the_first_discard() {
    // west waits for S5 with three runs of one rank in three suits
    let mut game = start_game(
        &[M2, M9, P1, P9, S1, S9, X1, X2, X3, X4, X5, X6, X7],
        &[M6, M7, M8, P6, P7, P8, S2, S3, S4, S5, S6, S7, S8],
    );
    discard(&mut game, 0, S5);
    let ron = Msg::Ron {
        player: 1,
        hand: vec![M6, M7, M8, P6, P7, P8, S2, S3, S4, S5, S6, S7, S8],
        tile: S5,
        limit: 1,
        yaku: vec![Yaku::Tanyao, Yaku::Sanshokudojun, Yaku::Riichi, Yaku::Ippatsu],
        dora: 0,
        uradora_ind: M2,
        points: 8000,
    };
    assert_eq!(game.messages(), vec![(0, ron.clone()), (1, ron)]);
    assert!(game.is_finished());
    assert!(!game.is_furiten(1));
}
