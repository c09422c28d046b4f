use minefield_core::lobby::{Filing, Lobby, LobbyError, Refusal, Step};
use minefield_core::protocol::{Msg, PGame};
use minefield_core::room::{Room, RoomError};
use minefield_core::tiles::Tile;
use rand::rngs::StdRng;
use rand::SeedableRng;

/// Answers a message as a program around the lobby does: a new room is
/// taken in under the next of the numbers counted by `filed`.
fn answer(lobby: &mut Lobby, filed: &mut usize, rng: &mut StdRng, user_id: usize, msg: Msg) -> Result<Vec<(usize, Msg)>, Refusal> {
    assert!(lobby.can_take(user_id, &msg));
    match lobby.on_message(user_id, msg, rng)? {
        Step::Send(messages, _) => Ok(messages),
        Step::Open(room) => {
            *filed += 1;
            Ok(lobby.open_room(user_id, *filed, room))
        }
    }
}

fn lobby_from(next_user_id: usize) -> Lobby {
    let mut lobby = Lobby::new();
    for _ in 0..next_user_id {
        lobby.connect();
    }
    lobby
}

#[test]
fn new_game_and_join() {
    let mut rng = StdRng::seed_from_u64(11);
    let mut filed = 0;
    let mut lobby = lobby_from(55);

    assert_eq!(lobby.connect(), 55);
    let messages = answer(&mut lobby, &mut filed, &mut rng, 55, Msg::NewGame { nick: "Akagi".to_owned() }).unwrap();
    assert_eq!(messages.len(), 1);
    assert!(matches!(messages[0], (55, Msg::Games { .. })));

    assert_eq!(lobby.connect(), 56);
    let messages = answer(&mut lobby, &mut filed, &mut rng, 56, Msg::GetGames).unwrap();
    assert_eq!(messages.len(), 1);
    let key = match &messages[0] {
        (user_id, Msg::Games { games }) => {
            assert_eq!(*user_id, 56);
            assert_eq!(games.len(), 1);
            match &games[0] {
                PGame::Player { nick, key } => {
                    assert_eq!(nick, "Akagi");
                    key.clone()
                }
                _ => unreachable!(),
            }
        }
        _ => unreachable!(),
    };

    let messages = answer(&mut lobby, &mut filed, &mut rng, 56, Msg::Join { nick: "Washizu".to_owned(), key }).unwrap();
    assert_eq!(messages.len(), 6);
    assert!(matches!(messages[0], (55, Msg::Room { .. })));
    assert!(matches!(messages[1], (56, Msg::Room { .. })));
    assert!(matches!(messages[2], (55, Msg::PhaseOne { .. })));
    assert!(matches!(messages[3], (55, Msg::StartMove { .. })));
    assert!(matches!(messages[4], (56, Msg::PhaseOne { .. })));
    assert!(matches!(messages[5], (56, Msg::StartMove { .. })));

    let key = match &messages[1].1 {
        Msg::Room { key, .. } => key.clone(),
        _ => unreachable!(),
    };

    lobby.disconnect(56);
    assert_eq!(lobby.connect(), 57);
    let messages = answer(&mut lobby, &mut filed, &mut rng, 57, Msg::Rejoin { key }).unwrap();
    assert_eq!(messages.len(), 1);
    assert!(matches!(messages[0], (57, Msg::Room { you: 1, .. })));
    assert_eq!(lobby.user_count(), 2);
}

#[test]
fn each_refusal_of_the_lobby() {
    let mut rng = StdRng::seed_from_u64(12);
    let mut filed = 100;
    let mut lobby = Lobby::new();
    let user = lobby.connect();
    assert_eq!(user, 0);

    let refused = answer(&mut lobby, &mut filed, &mut rng, user, Msg::Draw).unwrap_err();
    assert_eq!(refused, Refusal::Lobby(LobbyError::UnrecognizedMessage));
    assert_eq!(refused.text(), "unrecognized message");

    let refused = answer(&mut lobby, &mut filed, &mut rng, user, Msg::CancelNewGame).unwrap_err();
    assert_eq!(refused, Refusal::Lobby(LobbyError::NotJoined));
    let refused = answer(&mut lobby, &mut filed, &mut rng, user, Msg::Discard { tile: Tile::M1 }).unwrap_err();
    assert_eq!(refused, Refusal::Lobby(LobbyError::NotJoined));
    assert_eq!(refused.text(), "not joined");

    let refused = answer(&mut lobby, &mut filed, &mut rng, user, Msg::Join { nick: "a".to_owned(), key: "nothing".to_owned() }).unwrap_err();
    assert_eq!(refused, Refusal::Lobby(LobbyError::WrongKey));
    let refused = answer(&mut lobby, &mut filed, &mut rng, user, Msg::Rejoin { key: "nothing".to_owned() }).unwrap_err();
    assert_eq!(refused, Refusal::Lobby(LobbyError::WrongKey));
    assert_eq!(refused.text(), "wrong key");

    // a room under the number of the user
    lobby.load(user, Room::new(77, "Kaiji".to_owned(), &mut rng));
    let refused = answer(&mut lobby, &mut filed, &mut rng, user, Msg::NewGame { nick: "a".to_owned() }).unwrap_err();
    assert_eq!(refused, Refusal::Lobby(LobbyError::AlreadyJoined));
    assert_eq!(refused.text(), "already joined");
    assert_eq!(LobbyError::AlreadyJoined.text(), "already joined");
}

#[test]
fn refusals_of_the_room_come_through() {
    let mut rng = StdRng::seed_from_u64(13);
    let mut filed = 0;
    let mut lobby = Lobby::new();
    let first = lobby.connect();
    let second = lobby.connect();
    let third = lobby.connect();
    answer(&mut lobby, &mut filed, &mut rng, first, Msg::NewGame { nick: "Akagi".to_owned() }).unwrap();
    let refused = answer(&mut lobby, &mut filed, &mut rng, first, Msg::Discard { tile: Tile::M1 }).unwrap_err();
    assert_eq!(refused, Refusal::Room(RoomError::GameNotStarted));
    assert_eq!(refused.text(), "game not started");

    let key = lobby.room(1).unwrap().room_key.clone();
    answer(&mut lobby, &mut filed, &mut rng, second, Msg::Join { nick: "Washizu".to_owned(), key: key.clone() }).unwrap();
    let refused = answer(&mut lobby, &mut filed, &mut rng, third, Msg::Join { nick: "Kaiji".to_owned(), key }).unwrap_err();
    assert_eq!(refused, Refusal::Room(RoomError::AlreadyJoined));
    assert_eq!(lobby.user_count(), 2);
}

#[test]
fn a_user_cannot_join_the_room_that_the_user_waits_in() {
    let mut rng = StdRng::seed_from_u64(14);
    let mut filed = 0;
    let mut lobby = Lobby::new();
    let first = lobby.connect();
    answer(&mut lobby, &mut filed, &mut rng, first, Msg::NewGame { nick: "Akagi".to_owned() }).unwrap();
    let key = lobby.room(1).unwrap().room_key.clone();
    assert!(!lobby.can_take(first, &Msg::Join { nick: "Akagi".to_owned(), key: key.clone() }));
    assert!(lobby.can_take(first + 1, &Msg::Join { nick: "Washizu".to_owned(), key }));
    assert!(lobby.can_take(first, &Msg::GetGames));
}

#[test]
fn a_room_that_nobody_waits_in_is_taken_away() {
    let mut rng = StdRng::seed_from_u64(15);
    let mut lobby = Lobby::new();
    let first = lobby.connect();
    let room = match lobby.on_message(first, Msg::NewGame { nick: "Akagi".to_owned() }, &mut rng) {
        Ok(Step::Open(room)) => room,
        _ => unreachable!(),
    };
    lobby.open_room(first, 7, room);
    assert_eq!(lobby.room_count(), 1);
    assert_eq!(lobby.room_id(0), 7);
    match lobby.on_message(first, Msg::CancelNewGame, &mut rng) {
        Ok(Step::Send(messages, Filing::Delete(7))) => {
            assert_eq!(messages.len(), 1);
            match &messages[0] {
                (user_id, Msg::Games { games }) => {
                    assert_eq!(*user_id, first);
                    assert!(games.is_empty());
                }
                _ => unreachable!(),
            }
        }
        _ => unreachable!(),
    }
    assert_eq!(lobby.room_count(), 0);
    assert_eq!(lobby.user_count(), 0);
    assert!(matches!(lobby.disconnect(first), Filing::Nothing));
}

#[test]
fn a_game_that_was_left_ends_with_its_time_and_its_room_goes() {
    let mut rng = StdRng::seed_from_u64(16);
    let mut filed = 0;
    let mut lobby = Lobby::new();
    let first = lobby.connect();
    let second = lobby.connect();
    answer(&mut lobby, &mut filed, &mut rng, first, Msg::NewGame { nick: "Akagi".to_owned() }).unwrap();
    let key = lobby.room(1).unwrap().room_key.clone();
    answer(&mut lobby, &mut filed, &mut rng, second, Msg::Join { nick: "Washizu".to_owned(), key }).unwrap();
    assert!(matches!(lobby.disconnect(first), Filing::Save(1)));
    assert!(matches!(lobby.disconnect(second), Filing::Save(1)));
    assert_eq!(lobby.user_count(), 0);
    for _ in 0..189 {
        assert!(lobby.can_beat());
        let (messages, filings) = lobby.beat();
        assert!(messages.is_empty());
        assert_eq!(filings.len(), 1);
        assert!(matches!(filings[0], Filing::Save(1)));
    }
    let (messages, filings) = lobby.beat();
    // nobody is there to be told
    assert!(messages.is_empty());
    assert_eq!(filings.len(), 1);
    match &filings[0] {
        Filing::Last(1, room) => assert!(room.finished()),
        _ => unreachable!(),
    }
    assert_eq!(lobby.room_count(), 0);
    let (messages, filings) = lobby.beat();
    assert!(messages.is_empty() && filings.is_empty());
}
