use minefield_core::game::{Game, GameParts};
use minefield_core::protocol::{Msg, PGame};
use minefield_core::room::{Room, RoomError};
use minefield_core::tiles::Tile;
use rand::rngs::StdRng;
use rand::SeedableRng;

fn rng() -> StdRng {
    StdRng::seed_from_u64(1)
}

#[test]
fn room_test_new_game() {
    let room = Room::new(33, "Akagi".to_owned(), &mut rng());
    assert_eq!(room.finished(), false);
    assert_eq!(
        room.describe(),
        Some(PGame::Player {
            nick: "Akagi".to_owned(),
            key: room.room_key.clone(),
        })
    );
}

#[test]
fn test_join() {
    let mut rng = rng();
    let mut room = Room::new(33, "Akagi".to_owned(), &mut rng);
    let messages = room.connect(55, "Washizu".to_owned(), &mut rng).unwrap();

    assert_eq!(
        room.describe(),
        Some(PGame::Game {
            nicks: ["Akagi".to_owned(), "Washizu".to_owned()],
        })
    );

    assert_eq!(messages.len(), 6);
    assert!(matches!(messages[0], (33, Msg::Room { .. })));
    assert!(matches!(messages[1], (55, Msg::Room { .. })));
    assert!(matches!(messages[2], (33, Msg::PhaseOne { .. })));
    assert!(matches!(messages[3], (33, Msg::StartMove { .. })));
    assert!(matches!(messages[4], (55, Msg::PhaseOne { .. })));
    assert!(matches!(messages[5], (55, Msg::StartMove { .. })));
}

#[test]
fn test_on_message() {
    let mut rng = rng();
    let mut room = Room::new(33, "Akagi".to_owned(), &mut rng);
    let messages = room.connect(55, "Washizu".to_owned(), &mut rng).unwrap();

    let hand = match messages[2].1 {
        Msg::PhaseOne { ref tiles, .. } => tiles[0..13].to_vec(),
        _ => unreachable!("wrong message"),
    };

    let messages = room
        .on_message(33, Msg::Hand { hand: hand.clone() })
        .unwrap();

    assert_eq!(
        messages,
        vec![
            (33, Msg::EndMove),
            (33, Msg::Hand { hand: hand.clone() }),
            (33, Msg::WaitForPhaseTwo),
        ]
    );
}

#[test]
fn room_test_on_message_abort() {
    let mut rng = rng();
    let mut room = Room::new(33, "Akagi".to_owned(), &mut rng);
    room.connect(55, "Washizu".to_owned(), &mut rng).unwrap();
    let messages = room
        .on_message(33, Msg::Discard { tile: Tile::M1 })
        .unwrap();
    println!("{:?}", messages);
    assert_eq!(
        messages,
        vec![
            (
                33,
                Msg::Abort {
                    culprit: 0,
                    description: "discard too soon".to_owned(),
                }
            ),
            (
                55,
                Msg::Abort {
                    culprit: 0,
                    description: "discard too soon".to_owned(),
                }
            )
        ]
    );
    assert_eq!(room.finished(), false);
    assert_eq!(room.describe(), None);

    room.disconnect(33);
    room.disconnect(55);
    assert_eq!(room.finished(), true);
    assert_eq!(room.describe(), None);
}

#[test]
fn keys_are_ten_letters_of_chance() {
    let mut rng = rng();
    let room = Room::new(1, "a".to_owned(), &mut rng);
    let other = Room::new(2, "b".to_owned(), &mut rng);
    for key in [&room.room_key, &room.player_keys[0], &room.player_keys[1]] {
        assert_eq!(key.chars().count(), 10);
        assert!(key.chars().all(|c| c.is_ascii_alphabetic()));
    }
    assert_ne!(room.room_key, other.room_key);
    assert_ne!(room.player_keys[0], room.player_keys[1]);
}

#[test]
fn room_refuses_what_cannot_be() {
    let mut rng = rng();
    let mut room = Room::new(33, "Akagi".to_owned(), &mut rng);
    assert!(!room.started());
    assert_eq!(room.find_player(33), Some(0));
    assert_eq!(room.find_player(55), None);
    assert_eq!(
        room.on_message(33, Msg::GetGames),
        Err(RoomError::GameNotStarted)
    );
    assert!(room.beat().is_empty());
    room.connect(55, "Washizu".to_owned(), &mut rng).unwrap();
    assert!(room.started());
    assert_eq!(room.find_player(55), Some(1));
    assert_eq!(
        room.connect(77, "Ohgi".to_owned(), &mut rng),
        Err(RoomError::AlreadyJoined)
    );
    assert_eq!(room.rejoin(77, 1), Err(RoomError::AlreadyJoined));
    room.disconnect(55);
    // messages for an empty seat are left out
    let sent = room.on_message(33, Msg::GetGames).unwrap();
    assert_eq!(
        sent,
        vec![(
            33,
            Msg::Abort {
                culprit: 0,
                description: "unexpected message".to_owned()
            }
        )]
    );
    assert_eq!(
        room.on_message(33, Msg::GetGames),
        Err(RoomError::GameFinished)
    );
    let back = room.rejoin(77, 1).unwrap();
    assert_eq!(back.len(), 1);
    assert!(matches!(back[0], (77, Msg::Room { you: 1, .. })));
    assert_eq!(RoomError::AlreadyJoined.text(), "already joined");
    assert_eq!(RoomError::GameNotStarted.text(), "game not started");
    assert_eq!(RoomError::GameFinished.text(), "game finished");
}

#[test]
fn room_beats_until_the_time_is_up() {
    let mut rng = rng();
    let mut room = Room::new(33, "Akagi".to_owned(), &mut rng);
    room.connect(55, "Washizu".to_owned(), &mut rng).unwrap();
    for _ in 0..189 {
        assert!(room.beat().is_empty());
    }
    let sent = room.beat();
    assert_eq!(sent.len(), 2);
    assert!(matches!(sent[0], (33, Msg::Abort { culprit: 0, .. })));
    assert!(matches!(sent[1], (55, Msg::Abort { culprit: 0, .. })));
    assert!(room.beat().is_empty());
}

#[test]
fn rooms_and_games_are_kept_and_brought_back() {
    let mut rng = rng();
    let mut room = Room::new(33, "Akagi".to_owned(), &mut rng);
    room.connect(55, "Washizu".to_owned(), &mut rng).unwrap();
    room.beat();
    let parts = room.snapshot();
    assert_eq!(parts.user_ids, [Some(33), Some(55)]);
    assert_eq!(parts.nicks, ["Akagi".to_owned(), "Washizu".to_owned()]);
    assert_eq!(parts.room_key, room.room_key);
    let game = parts.game.as_ref().unwrap();
    assert_eq!(game.time, 1);
    assert_eq!(game.players[0].tiles.len(), 34);
    assert_eq!(game.players[0].deadline, Some(190));
    assert!(game.holds());
    let mut back = Room::restore(parts).unwrap();
    assert_eq!(back.describe(), room.describe());
    assert_eq!(
        back.on_message(33, Msg::Discard { tile: Tile::M1 }),
        room.on_message(33, Msg::Discard { tile: Tile::M1 })
    );
    // a game that cannot be is not brought back
    let mut broken: GameParts = Game::fixed(&minefield_core::game::all_tiles(), 0).snapshot();
    assert!(broken.holds());
    broken.east = 2;
    assert!(!broken.holds());
    assert!(Game::restore(broken).is_none());
    let mut broken = Game::fixed(&minefield_core::game::all_tiles(), 1).snapshot();
    broken.players[0].hand = vec![Tile::M1];
    assert!(Game::restore(broken).is_none());
}

#[test]
fn new_games_deal_from_all_tiles() {
    let mut rng = rng();
    let game = Game::new(&mut rng);
    let other = Game::new(&mut rng);
    let parts = game.snapshot();
    assert!(parts.east < 2);
    assert_eq!(parts.players[0].tiles.len(), 34);
    assert_eq!(parts.players[1].tiles.len(), 34);
    assert_ne!(parts.players[0].tiles, minefield_core::game::all_tiles()[..34].to_vec());
    assert_ne!(parts.players[0].tiles, other.snapshot().players[0].tiles);
    let mut dealt = parts.players[0].tiles.clone();
    dealt.extend(parts.players[1].tiles.iter());
    dealt.push(parts.dora_ind);
    dealt.push(parts.uradora_ind);
    for tile in dealt.iter() {
        assert!(dealt.iter().filter(|other| *other == tile).count() <= 4);
    }
    let mut seats = vec![];
    for _ in 0..32 {
        let east = Game::new(&mut rng).snapshot().east;
        if !seats.contains(&east) {
            seats.push(east);
        }
    }
    assert_eq!(seats.len(), 2);
}
