//! The lobby: the rooms by number, and the room that each user is in.
//!
//! The lobby keeps no rooms on disk itself. Each of its operations says
//! what is to be filed, and whoever files the rooms does so.

use crate::protocol::{queue_view, Msg, MsgView, PGame, PGameView};
use crate::room::{
    reply_view, spec_connect, spec_describe, spec_find_player, spec_key_seat, spec_rejoin,
    spec_room_beat, spec_room_wf, spec_told, Room, RoomError, RoomView,
};
use crate::table::{spec_position, Table};
use rand::rngs::StdRng;
use vstd::prelude::*;

verus! {

/// Why the lobby refuses what a user asks.
#[derive(Debug, Copy, Clone, PartialEq, Eq, Structural)]
pub enum LobbyError {
    UnrecognizedMessage,
    AlreadyJoined,
    NotJoined,
    WrongKey,
}

impl LobbyError {
    /// The refusal in words.
    pub fn text(self) -> (text: &'static str)
        ensures
            text@ == (match self {
                LobbyError::UnrecognizedMessage => "unrecognized message"@,
                LobbyError::AlreadyJoined => "already joined"@,
                LobbyError::NotJoined => "not joined"@,
                LobbyError::WrongKey => "wrong key"@,
            }),
    {
        match self {
            LobbyError::UnrecognizedMessage => "unrecognized message",
            LobbyError::AlreadyJoined => "already joined",
            LobbyError::NotJoined => "not joined",
            LobbyError::WrongKey => "wrong key",
        }
    }
}

/// A refusal, of the lobby or of the room that the user is in.
#[derive(Debug, Copy, Clone, PartialEq, Eq, Structural)]
pub enum Refusal {
    Lobby(LobbyError),
    Room(RoomError),
}

impl Refusal {
    /// The refusal in words.
    pub fn text(self) -> (text: &'static str)
        ensures
            text@ == (match self {
                Refusal::Lobby(LobbyError::UnrecognizedMessage) => "unrecognized message"@,
                Refusal::Lobby(LobbyError::AlreadyJoined) => "already joined"@,
                Refusal::Lobby(LobbyError::NotJoined) => "not joined"@,
                Refusal::Lobby(LobbyError::WrongKey) => "wrong key"@,
                Refusal::Room(RoomError::AlreadyJoined) => "already joined"@,
                Refusal::Room(RoomError::GameNotStarted) => "game not started"@,
                Refusal::Room(RoomError::GameFinished) => "game finished"@,
            }),
    {
        match self {
            Refusal::Lobby(error) => error.text(),
            Refusal::Room(error) => error.text(),
        }
    }
}

/// What is to be done with the filed copy of a room.
pub enum Filing {
    /// Nothing.
    Nothing,
    /// The room of this number has changed: file it anew.
    Save(usize),
    /// The room of this number is done with and has left the lobby: file
    /// it for the last time.
    Last(usize, Room),
    /// The room of this number never had a game and is done with: take
    /// its filed copy away.
    Delete(usize),
}

/// What a `Filing` holds.
pub enum FilingView {
    Nothing,
    Save(usize),
    Last(usize, RoomView),
    Delete(usize),
}

impl View for Filing {
    type V = FilingView;

    open spec fn view(&self) -> FilingView {
        match self {
            Filing::Nothing => FilingView::Nothing,
            Filing::Save(room_id) => FilingView::Save(*room_id),
            Filing::Last(room_id, room) => FilingView::Last(*room_id, room@),
            Filing::Delete(room_id) => FilingView::Delete(*room_id),
        }
    }
}

/// The rooms by number, and the room that each user is in.
pub struct Lobby {
    next_user_id: usize,
    rooms: Table<Room>,
    user_to_room: Table<usize>,
}

/// What a `Lobby` holds: the number of the next user; the numbers of the
/// rooms in the order in which they came, and each room; the users that
/// are in a room, and the number of the room of each.
pub struct LobbyView {
    pub next_user_id: usize,
    pub room_ids: Seq<usize>,
    pub rooms: Seq<RoomView>,
    pub users: Seq<usize>,
    pub user_rooms: Seq<usize>,
}

impl View for Lobby {
    type V = LobbyView;

    closed spec fn view(&self) -> LobbyView {
        LobbyView {
            next_user_id: self.next_user_id,
            room_ids: self.rooms.spec_keys(),
            rooms: Seq::new(self.rooms.spec_values().len(), |k: int| self.rooms.spec_values()[k]@),
            users: self.user_to_room.spec_keys(),
            user_rooms: self.user_to_room.spec_values(),
        }
    }
}

/// What holds of a user in a room at all times: the room is a room of
/// the lobby, and the user has a seat in it.
pub open spec fn spec_user_ok(lobby: LobbyView, j: int) -> bool {
    exists|k: int| 0 <= k < lobby.room_ids.len() && #[trigger] lobby.room_ids[k] == lobby.user_rooms[j] && spec_find_player(lobby.rooms[k], lobby.users[j]) is Some
}

/// What holds of a lobby at all times.
pub open spec fn spec_lobby_wf(lobby: LobbyView) -> bool {
    &&& lobby.room_ids.len() == lobby.rooms.len()
    &&& lobby.room_ids.no_duplicates()
    &&& lobby.users.len() == lobby.user_rooms.len()
    &&& lobby.users.no_duplicates()
    &&& forall|k: int| 0 <= k < lobby.rooms.len() ==> spec_room_wf(#[trigger] lobby.rooms[k])
    &&& forall|j: int| 0 <= j < lobby.users.len() ==> #[trigger] spec_user_ok(lobby, j)
}

/// Whether a room is done with: no game at play, and no user left.
pub open spec fn spec_room_finished(room: RoomView) -> bool {
    (room.game matches Some(game) ==> game.finished) && room.user_ids[0] is None && room.user_ids[1] is None
}

/// What is to be done with the filed copy of a room that has changed.
pub open spec fn spec_filing(room_id: usize, room: RoomView) -> FilingView {
    if room.game is Some {
        if spec_room_finished(room) {
            FilingView::Last(room_id, room)
        } else {
            FilingView::Save(room_id)
        }
    } else if spec_room_finished(room) {
        FilingView::Delete(room_id)
    } else {
        FilingView::Nothing
    }
}

/// The lobby with another state of the room at a position.
pub open spec fn spec_with_room(lobby: LobbyView, k: int, room: RoomView) -> LobbyView {
    LobbyView { rooms: lobby.rooms.update(k, room), ..lobby }
}

/// The lobby without the room at a position, where that room is done
/// with.
pub open spec fn spec_updated(lobby: LobbyView, k: int) -> LobbyView {
    if spec_room_finished(lobby.rooms[k]) {
        LobbyView { room_ids: lobby.room_ids.remove(k), rooms: lobby.rooms.remove(k), ..lobby }
    } else {
        lobby
    }
}

/// The lobby with a user in the room of a number, in the place of the
/// room that the user was in.
pub open spec fn spec_map(lobby: LobbyView, user: usize, room_id: usize) -> LobbyView {
    match spec_position(lobby.users, user) {
        Some(j) => LobbyView { user_rooms: lobby.user_rooms.update(j, room_id), ..lobby },
        None => LobbyView { users: lobby.users.push(user), user_rooms: lobby.user_rooms.push(room_id), ..lobby },
    }
}

/// The lobby with a user in no room.
pub open spec fn spec_unmap(lobby: LobbyView, user: usize) -> LobbyView {
    match spec_position(lobby.users, user) {
        Some(j) => LobbyView { users: lobby.users.remove(j), user_rooms: lobby.user_rooms.remove(j), ..lobby },
        None => lobby,
    }
}

/// The position of the room that a user is in.
pub open spec fn spec_room_of(lobby: LobbyView, user: usize) -> Option<int> {
    match spec_position(lobby.users, user) {
        Some(j) => Some(lobby.room_ids.index_of(lobby.user_rooms[j])),
        None => None,
    }
}

/// A room without the user at the seat of a user.
pub open spec fn spec_left(room: RoomView, user: usize) -> RoomView {
    RoomView { user_ids: room.user_ids.update(spec_find_player(room, user)->0 as int, None), ..room }
}

/// The lobby after a user has left, and what is to be filed: the seat
/// of the user is empty, the user is in no room, and the room leaves the
/// lobby where it is done with.
pub open spec fn spec_disconnect(lobby: LobbyView, user: usize) -> (LobbyView, FilingView) {
    match spec_room_of(lobby, user) {
        Some(k) => {
            let room = spec_left(lobby.rooms[k], user);
            (spec_updated(spec_unmap(spec_with_room(lobby, k, room), user), k), spec_filing(lobby.room_ids[k], room))
        },
        None => (lobby, FilingView::Nothing),
    }
}

/// The rooms as the list of games shows them, in their order.
pub open spec fn spec_games(rooms: Seq<RoomView>) -> Seq<PGameView>
    decreases rooms.len(),
{
    if rooms.len() == 0 {
        Seq::empty()
    } else {
        let before = spec_games(rooms.drop_last());
        match spec_describe(rooms.last()) {
            Some(shown) => before.push(shown),
            None => before,
        }
    }
}

/// The list of games, for a user.
pub open spec fn spec_games_for(lobby: LobbyView, user: usize) -> Seq<(usize, MsgView)> {
    seq![(user, MsgView::Games { games: spec_games(lobby.rooms) })]
}

/// The room of a user is a room of the lobby in which the user has a
/// seat.
pub proof fn lemma_room_of(lobby: LobbyView, user: usize)
    requires
        spec_lobby_wf(lobby),
    ensures
        spec_position(lobby.users, user) matches Some(j) ==> 0 <= j < lobby.users.len() && lobby.users[j] == user && spec_position(lobby.room_ids, lobby.user_rooms[j]) is Some,
        spec_room_of(lobby, user) matches Some(k) ==> 0 <= k < lobby.rooms.len() && spec_find_player(lobby.rooms[k], user) is Some,
{
    if spec_position(lobby.users, user) is Some {
        let at = lobby.users.index_of(user);
        assert(0 <= at < lobby.users.len() && lobby.users[at] == user);
        assert(spec_user_ok(lobby, at));
        let k = lobby.room_ids.index_of(lobby.user_rooms[at]);
        assert(0 <= k < lobby.room_ids.len() && lobby.room_ids[k] == lobby.user_rooms[at]);
    }
}

/// No user is in a room that is done with.
pub proof fn lemma_finished_empty(lobby: LobbyView, k: int)
    requires
        spec_lobby_wf(lobby),
        0 <= k < lobby.rooms.len(),
        spec_room_finished(lobby.rooms[k]),
    ensures
        forall|j: int| 0 <= j < lobby.users.len() ==> #[trigger] lobby.user_rooms[j] != lobby.room_ids[k],
{
    assert forall|j: int| 0 <= j < lobby.users.len() implies #[trigger] lobby.user_rooms[j] != lobby.room_ids[k] by {
        assert(spec_user_ok(lobby, j));
    }
}

/// A lobby with another state of a room, in which the users of the room
/// have their seats still, is as a lobby has to be.
pub proof fn lemma_with_room_wf(lobby: LobbyView, k: int, room: RoomView)
    requires
        spec_lobby_wf(lobby),
        0 <= k < lobby.rooms.len(),
        spec_room_wf(room),
        forall|j: int| 0 <= j < lobby.users.len() && #[trigger] lobby.user_rooms[j] == lobby.room_ids[k] ==> spec_find_player(room, lobby.users[j]) is Some,
    ensures
        spec_lobby_wf(spec_with_room(lobby, k, room)),
{
    let after = spec_with_room(lobby, k, room);
    assert forall|j: int| 0 <= j < after.users.len() implies #[trigger] spec_user_ok(after, j) by {
        assert(spec_user_ok(lobby, j));
        let m = choose|m: int| 0 <= m < lobby.room_ids.len() && #[trigger] lobby.room_ids[m] == lobby.user_rooms[j] && spec_find_player(lobby.rooms[m], lobby.users[j]) is Some;
        assert(after.room_ids[m] == after.user_rooms[j]);
    }
}

/// A lobby without a room that is done with is as a lobby has to be.
pub proof fn lemma_updated_wf(lobby: LobbyView, k: int)
    requires
        spec_lobby_wf(lobby),
        0 <= k < lobby.rooms.len(),
    ensures
        spec_lobby_wf(spec_updated(lobby, k)),
{
    let after = spec_updated(lobby, k);
    if spec_room_finished(lobby.rooms[k]) {
        lemma_finished_empty(lobby, k);
        assert forall|m: int| 0 <= m < after.rooms.len() implies spec_room_wf(#[trigger] after.rooms[m]) by {
            let n = if m < k {
                m
            } else {
                m + 1
            };
            assert(spec_room_wf(lobby.rooms[n]));
        }
        assert forall|j: int| 0 <= j < after.users.len() implies #[trigger] spec_user_ok(after, j) by {
            assert(spec_user_ok(lobby, j));
            let m = choose|m: int| 0 <= m < lobby.room_ids.len() && #[trigger] lobby.room_ids[m] == lobby.user_rooms[j] && spec_find_player(lobby.rooms[m], lobby.users[j]) is Some;
            let n = if m < k {
                m
            } else {
                m - 1
            };
            assert(after.room_ids[n] == lobby.room_ids[m]);
            assert(after.rooms[n] == lobby.rooms[m]);
        }
    }
}

/// A lobby with a user in a room in which the user has a seat is as a
/// lobby has to be.
pub proof fn lemma_map_wf(lobby: LobbyView, user: usize, k: int)
    requires
        spec_lobby_wf(lobby),
        0 <= k < lobby.rooms.len(),
        spec_find_player(lobby.rooms[k], user) is Some,
    ensures
        spec_lobby_wf(spec_map(lobby, user, lobby.room_ids[k])),
{
    let after = spec_map(lobby, user, lobby.room_ids[k]);
    assert forall|j: int| 0 <= j < after.users.len() implies #[trigger] spec_user_ok(after, j) by {
        if j < lobby.users.len() && after.users[j] != user {
            assert(spec_user_ok(lobby, j));
            let m = choose|m: int| 0 <= m < lobby.room_ids.len() && #[trigger] lobby.room_ids[m] == lobby.user_rooms[j] && spec_find_player(lobby.rooms[m], lobby.users[j]) is Some;
            assert(after.room_ids[m] == after.user_rooms[j]);
        } else {
            assert(after.room_ids[k] == after.user_rooms[j]);
        }
    }
    if spec_position(lobby.users, user) is None {
        assert forall|a: int, b: int| 0 <= a < b < after.users.len() implies after.users[a] != after.users[b] by {
            if b == lobby.users.len() && after.users[a] == user {
                assert(lobby.users[a] == user);
            }
        }
    }
}

/// A lobby with a user in no room is as a lobby has to be.
pub proof fn lemma_unmap_wf(lobby: LobbyView, user: usize)
    requires
        lobby.room_ids.len() == lobby.rooms.len(),
        lobby.room_ids.no_duplicates(),
        lobby.users.len() == lobby.user_rooms.len(),
        lobby.users.no_duplicates(),
        forall|k: int| 0 <= k < lobby.rooms.len() ==> spec_room_wf(#[trigger] lobby.rooms[k]),
        forall|j: int| 0 <= j < lobby.users.len() && lobby.users[j] != user ==> #[trigger] spec_user_ok(lobby, j),
    ensures
        spec_lobby_wf(spec_unmap(lobby, user)),
{
    let after = spec_unmap(lobby, user);
    if spec_position(lobby.users, user) is Some {
        let at = lobby.users.index_of(user);
        assert(0 <= at < lobby.users.len() && lobby.users[at] == user);
        assert forall|j: int| 0 <= j < after.users.len() implies #[trigger] spec_user_ok(after, j) by {
            let n = if j < at {
                j
            } else {
                j + 1
            };
            assert(lobby.users[n] != user);
            assert(spec_user_ok(lobby, n));
            let m = choose|m: int| 0 <= m < lobby.room_ids.len() && #[trigger] lobby.room_ids[m] == lobby.user_rooms[n] && spec_find_player(lobby.rooms[m], lobby.users[n]) is Some;
            assert(after.room_ids[m] == after.user_rooms[j]);
        }
    } else {
        assert forall|j: int| 0 <= j < after.users.len() implies #[trigger] spec_user_ok(after, j) by {
            assert(lobby.users.contains(lobby.users[j]));
            assert(spec_user_ok(lobby, j));
        }
    }
}

/// A lobby with one more room is as a lobby has to be.
pub proof fn lemma_load_wf(lobby: LobbyView, room_id: usize, room: RoomView)
    requires
        spec_lobby_wf(lobby),
        spec_room_wf(room),
        !lobby.room_ids.contains(room_id),
    ensures
        spec_lobby_wf(LobbyView { room_ids: lobby.room_ids.push(room_id), rooms: lobby.rooms.push(room), ..lobby }),
{
    let after = LobbyView { room_ids: lobby.room_ids.push(room_id), rooms: lobby.rooms.push(room), ..lobby };
    assert forall|m: int| 0 <= m < after.rooms.len() implies spec_room_wf(#[trigger] after.rooms[m]) by {
        if m < lobby.rooms.len() {
            assert(spec_room_wf(lobby.rooms[m]));
        }
    }
    assert forall|a: int, b: int| 0 <= a < b < after.room_ids.len() implies after.room_ids[a] != after.room_ids[b] by {
        if b == lobby.room_ids.len() && after.room_ids[a] == room_id {
            assert(lobby.room_ids[a] == room_id);
        }
    }
    assert forall|j: int| 0 <= j < after.users.len() implies #[trigger] spec_user_ok(after, j) by {
        assert(spec_user_ok(lobby, j));
        let m = choose|m: int| 0 <= m < lobby.room_ids.len() && #[trigger] lobby.room_ids[m] == lobby.user_rooms[j] && spec_find_player(lobby.rooms[m], lobby.users[j]) is Some;
        assert(after.room_ids[m] == after.user_rooms[j]);
        assert(after.rooms[m] == lobby.rooms[m]);
    }
}

/// A lobby that a user has left is as a lobby has to be.
pub proof fn lemma_disconnect_wf(lobby: LobbyView, user: usize)
    requires
        spec_lobby_wf(lobby),
    ensures
        spec_lobby_wf(spec_disconnect(lobby, user).0),
{
    lemma_room_of(lobby, user);
    if spec_room_of(lobby, user) is Some {
        let k = spec_room_of(lobby, user)->0;
        let room = spec_left(lobby.rooms[k], user);
        let changed = spec_with_room(lobby, k, room);
        assert forall|m: int| 0 <= m < changed.rooms.len() implies spec_room_wf(#[trigger] changed.rooms[m]) by {
            assert(spec_room_wf(lobby.rooms[m]));
        }
        assert forall|j: int| 0 <= j < changed.users.len() && changed.users[j] != user implies #[trigger] spec_user_ok(changed, j) by {
            assert(spec_user_ok(lobby, j));
            let m = choose|m: int| 0 <= m < lobby.room_ids.len() && #[trigger] lobby.room_ids[m] == lobby.user_rooms[j] && spec_find_player(lobby.rooms[m], lobby.users[j]) is Some;
            assert(changed.room_ids[m] == changed.user_rooms[j]);
        }
        lemma_unmap_wf(changed, user);
        lemma_updated_wf(spec_unmap(changed, user), k);
    }
}

/// What the lobby does on a message: it hands out messages and says
/// what is to be filed, or it asks for a new room to be filed under a
/// number of its own.
pub enum Step {
    Send(Vec<(usize, Msg)>, Filing),
    Open(Room),
}

/// What a `Step` holds.
pub enum StepView {
    Send(Seq<(usize, MsgView)>, FilingView),
    Open(RoomView),
}

impl View for Step {
    type V = StepView;

    open spec fn view(&self) -> StepView {
        match self {
            Step::Send(sent, filing) => StepView::Send(queue_view(sent@), filing@),
            Step::Open(room) => StepView::Open(room@),
        }
    }
}

/// What the lobby does on a message, or its refusal, by what they hold.
pub open spec fn answer_view(out: Result<Step, Refusal>) -> Result<StepView, Refusal> {
    match out {
        Ok(step) => Ok(step@),
        Err(refusal) => Err(refusal),
    }
}

/// The position of the first room from a position on that a key lets a
/// second player join.
pub open spec fn spec_join_room(rooms: Seq<RoomView>, key: Seq<char>, from: int) -> Option<int>
    decreases rooms.len() - from,
{
    if 0 <= from < rooms.len() {
        if rooms[from].room_key == key {
            Some(from)
        } else {
            spec_join_room(rooms, key, from + 1)
        }
    } else {
        None
    }
}

/// The position of the first room from a position on that a key brings
/// a user back to, and the seat.
pub open spec fn spec_rejoin_room(rooms: Seq<RoomView>, key: Seq<char>, from: int) -> Option<(int, usize)>
    decreases rooms.len() - from,
{
    if 0 <= from < rooms.len() {
        match spec_key_seat(rooms[from], key) {
            Some(i) => Some((from, i)),
            None => spec_rejoin_room(rooms, key, from + 1),
        }
    } else {
        None
    }
}

/// Whether a room is new: one user, who waits for a second.
pub open spec fn spec_new_room(room: RoomView, user: usize, nick: Seq<char>) -> bool {
    &&& spec_room_wf(room)
    &&& room.game is None
    &&& room.user_ids == seq![Some(user), None]
    &&& room.nicks == seq![nick, Seq::<char>::empty()]
    &&& room.room_key.len() == 10
    &&& room.player_keys[0].len() == 10
    &&& room.player_keys[1].len() == 10
}

/// How the lobby answers a user who asks for a new room: a user whose
/// number is the number of a room is refused; else a new room is to be
/// filed.
pub open spec fn spec_new_game(before: LobbyView, user: usize, nick: Seq<char>, after: LobbyView, out: Result<StepView, Refusal>) -> bool {
    &&& after == before
    &&& if before.room_ids.contains(user) {
        out == Err::<StepView, Refusal>(Refusal::Lobby(LobbyError::AlreadyJoined))
    } else {
        out matches Ok(StepView::Open(room)) && spec_new_room(room, user, nick)
    }
}

/// The lobby with a new room under a number, and its user in it.
pub open spec fn spec_opened(lobby: LobbyView, user: usize, room_id: usize, room: RoomView) -> LobbyView {
    spec_map(LobbyView { room_ids: lobby.room_ids.push(room_id), rooms: lobby.rooms.push(room), ..lobby }, user, room_id)
}

/// How the lobby answers a user who gives up waiting: a user in no room
/// is refused; else the user leaves the room, and is shown the list of
/// games.
pub open spec fn spec_cancel(before: LobbyView, user: usize, after: LobbyView, out: Result<StepView, Refusal>) -> bool {
    match spec_room_of(before, user) {
        None => after == before && out == Err::<StepView, Refusal>(Refusal::Lobby(LobbyError::NotJoined)),
        Some(_) => after == spec_disconnect(before, user).0 && out == Ok::<StepView, Refusal>(StepView::Send(spec_games_for(after, user), spec_disconnect(before, user).1)),
    }
}

/// How the lobby answers a user who joins by a key: without a room of
/// that key it refuses; else the first such room answers, and where it
/// takes the user, the user is in that room.
pub open spec fn spec_join(before: LobbyView, user: usize, nick: Seq<char>, key: Seq<char>, after: LobbyView, out: Result<StepView, Refusal>) -> bool {
    match spec_join_room(before.rooms, key, 0) {
        None => after == before && out == Err::<StepView, Refusal>(Refusal::Lobby(LobbyError::WrongKey)),
        Some(k) => exists|room: RoomView, sent: Result<Seq<(usize, MsgView)>, RoomError>|
            {
                &&& #[trigger] spec_connect(before.rooms[k], user, nick, room, sent)
                &&& match sent {
                    Err(error) => after == before && out == Err::<StepView, Refusal>(Refusal::Room(error)),
                    Ok(told) => after == spec_map(spec_with_room(before, k, room), user, before.room_ids[k]) && out == Ok::<StepView, Refusal>(
                        StepView::Send(told, FilingView::Nothing),
                    ),
                }
            },
    }
}

/// How the lobby answers a user who comes back by a key: without a
/// seat of that key it refuses; else the first room with such a seat
/// answers, and where it takes the user, the user is in that room.
pub open spec fn spec_come_back(before: LobbyView, user: usize, key: Seq<char>, after: LobbyView, out: Result<StepView, Refusal>) -> bool {
    match spec_rejoin_room(before.rooms, key, 0) {
        None => after == before && out == Err::<StepView, Refusal>(Refusal::Lobby(LobbyError::WrongKey)),
        Some(at) => exists|room: RoomView, sent: Result<Seq<(usize, MsgView)>, RoomError>|
            {
                &&& #[trigger] spec_rejoin(before.rooms[at.0], user, at.1, room, sent)
                &&& match sent {
                    Err(error) => after == before && out == Err::<StepView, Refusal>(Refusal::Room(error)),
                    Ok(told) => after == spec_map(spec_with_room(before, at.0, room), user, before.room_ids[at.0]) && out == Ok::<StepView, Refusal>(
                        StepView::Send(told, FilingView::Nothing),
                    ),
                }
            },
    }
}

/// How the lobby answers a move of a user: a user in no room is
/// refused; else the room of the user answers, and where it takes the
/// move, it is filed anew, and leaves the lobby where it is done with.
pub open spec fn spec_play(before: LobbyView, user: usize, msg: MsgView, after: LobbyView, out: Result<StepView, Refusal>) -> bool {
    match spec_room_of(before, user) {
        None => after == before && out == Err::<StepView, Refusal>(Refusal::Lobby(LobbyError::NotJoined)),
        Some(k) => exists|room: RoomView, sent: Result<Seq<(usize, MsgView)>, RoomError>|
            {
                &&& #[trigger] spec_told(before.rooms[k], user, msg, room, sent)
                &&& match sent {
                    Err(error) => after == before && out == Err::<StepView, Refusal>(Refusal::Room(error)),
                    Ok(told) => after == spec_updated(spec_with_room(before, k, room), k) && out == Ok::<StepView, Refusal>(
                        StepView::Send(told, spec_filing(before.room_ids[k], room)),
                    ),
                }
            },
    }
}

/// How the lobby answers a message of a user.
pub open spec fn spec_answer(before: LobbyView, user: usize, msg: MsgView, after: LobbyView, out: Result<StepView, Refusal>) -> bool {
    match msg {
        MsgView::GetGames => after == before && out == Ok::<StepView, Refusal>(StepView::Send(spec_games_for(before, user), FilingView::Nothing)),
        MsgView::NewGame { nick } => spec_new_game(before, user, nick, after, out),
        MsgView::CancelNewGame => spec_cancel(before, user, after, out),
        MsgView::Join { nick, key } => spec_join(before, user, nick, key, after, out),
        MsgView::Rejoin { key } => spec_come_back(before, user, key, after, out),
        MsgView::Hand { .. } => spec_play(before, user, msg, after, out),
        MsgView::Discard { .. } => spec_play(before, user, msg, after, out),
        _ => after == before && out == Err::<StepView, Refusal>(Refusal::Lobby(LobbyError::UnrecognizedMessage)),
    }
}

/// Whether a message asks the lobby to seat a user a second time in a
/// room that the user waits in.
pub open spec fn spec_joins_own(lobby: LobbyView, user: usize, msg: MsgView) -> bool {
    msg matches MsgView::Join { key, .. } && spec_join_room(lobby.rooms, key, 0) matches Some(k) && lobby.rooms[k].user_ids[1] is None && lobby.rooms[k].game is None
        && lobby.rooms[k].user_ids[0] == Some(user)
}

/// A room that a key was looked for in is a room of the lobby.
pub proof fn lemma_join_room(rooms: Seq<RoomView>, key: Seq<char>, from: int)
    requires
        0 <= from,
    ensures
        spec_join_room(rooms, key, from) matches Some(k) ==> from <= k < rooms.len() && rooms[k].room_key == key,
    decreases rooms.len() - from,
{
    if from < rooms.len() && rooms[from].room_key != key {
        lemma_join_room(rooms, key, from + 1);
    }
}

/// A room that a seat of a key was looked for in is a room of the lobby.
pub proof fn lemma_rejoin_room(rooms: Seq<RoomView>, key: Seq<char>, from: int)
    requires
        0 <= from,
    ensures
        spec_rejoin_room(rooms, key, from) matches Some((k, i)) ==> from <= k < rooms.len() && spec_key_seat(rooms[k], key) == Some(i) && i < 2,
    decreases rooms.len() - from,
{
    if from < rooms.len() && spec_key_seat(rooms[from], key) is None {
        lemma_rejoin_room(rooms, key, from + 1);
    }
}

/// A lobby in which a room has seated a user at an empty seat, with the
/// user in that room, is as a lobby has to be.
pub proof fn lemma_seated_wf(lobby: LobbyView, k: int, room: RoomView, user: usize, i: int)
    requires
        spec_lobby_wf(lobby),
        0 <= k < lobby.rooms.len(),
        spec_room_wf(room),
        0 <= i < 2,
        lobby.rooms[k].user_ids[i] is None,
        room.user_ids == lobby.rooms[k].user_ids.update(i, Some(user)),
    ensures
        spec_lobby_wf(spec_map(spec_with_room(lobby, k, room), user, lobby.room_ids[k])),
{
    assert(spec_room_wf(lobby.rooms[k]));
    assert forall|j: int| 0 <= j < lobby.users.len() && #[trigger] lobby.user_rooms[j] == lobby.room_ids[k] implies spec_find_player(room, lobby.users[j]) is Some by {
        assert(spec_user_ok(lobby, j));
    }
    lemma_with_room_wf(lobby, k, room);
    lemma_map_wf(spec_with_room(lobby, k, room), user, k);
}

/// A lobby with a new room and its user in it is as a lobby has to be.
pub proof fn lemma_opened_wf(lobby: LobbyView, user: usize, room_id: usize, room: RoomView)
    requires
        spec_lobby_wf(lobby),
        spec_room_wf(room),
        !lobby.room_ids.contains(room_id),
        spec_find_player(room, user) is Some,
    ensures
        spec_lobby_wf(spec_opened(lobby, user, room_id, room)),
{
    lemma_load_wf(lobby, room_id, room);
    let more = LobbyView { room_ids: lobby.room_ids.push(room_id), rooms: lobby.rooms.push(room), ..lobby };
    lemma_map_wf(more, user, lobby.rooms.len() as int);
}

/// What is to be filed, by what it holds.
pub open spec fn filings_view(filings: Seq<Filing>) -> Seq<FilingView> {
    Seq::new(filings.len(), |i: int| filings[i]@)
}

/// Whether the clock of each game at play can take another tick.
pub open spec fn spec_can_beat(lobby: LobbyView, from: int) -> bool {
    forall|k: int| from <= k < lobby.rooms.len() ==> ((#[trigger] lobby.rooms[k]).game matches Some(game) ==> game.finished || game.time + 201 <= usize::MAX)
}

/// The lobby after each room from a position on has had a tick of the
/// clock, what the rooms had to say, and what is to be filed of each, in
/// their order. A room that is done with leaves the lobby.
pub open spec fn spec_beat_from(lobby: LobbyView, k: int) -> (LobbyView, Seq<(usize, MsgView)>, Seq<FilingView>)
    decreases lobby.rooms.len() - k,
{
    if 0 <= k < lobby.rooms.len() {
        let (room, sent) = spec_room_beat(lobby.rooms[k]);
        let rest = spec_beat_from(
            spec_updated(spec_with_room(lobby, k, room), k),
            if spec_room_finished(room) {
                k
            } else {
                k + 1
            },
        );
        (rest.0, sent + rest.1, seq![spec_filing(lobby.room_ids[k], room)] + rest.2)
    } else {
        (lobby, Seq::empty(), Seq::empty())
    }
}

/// A list of games as the list of games shows them, by what they hold.
pub open spec fn games_view(games: Seq<PGame>) -> Seq<PGameView> {
    Seq::new(games.len(), |i: int| games[i]@)
}

impl Lobby {
    /// Whether the lobby is as a lobby has to be at all times.
    pub open spec fn wf(&self) -> bool {
        spec_lobby_wf(self@)
    }

    /// Whether the tables are as tables have to be.
    spec fn tables(&self) -> bool {
        self.rooms.wf() && self.user_to_room.wf()
    }

    /// The tables of a lobby that is as it has to be are as tables have
    /// to be.
    proof fn lemma_tables(&self)
        requires
            self.wf(),
        ensures
            self.tables(),
    {
    }

    /// A lobby without rooms and users.
    pub fn new() -> (lobby: Lobby)
        ensures
            lobby.wf(),
            lobby@.next_user_id == 0,
            lobby@.room_ids.len() == 0,
            lobby@.users.len() == 0,
    {
        Lobby { next_user_id: 0, rooms: Table::new(), user_to_room: Table::new() }
    }

    /// The number of rooms.
    pub fn room_count(&self) -> (n: usize)
        ensures
            n == self@.room_ids.len(),
    {
        self.rooms.len()
    }

    /// The number of users that are in a room.
    pub fn user_count(&self) -> (n: usize)
        ensures
            n == self@.users.len(),
    {
        self.user_to_room.len()
    }

    /// The number that the next user gets.
    pub fn next_user_id(&self) -> (user_id: usize)
        ensures
            user_id == self@.next_user_id,
    {
        self.next_user_id
    }

    /// The number of the room at a position.
    pub fn room_id(&self, k: usize) -> (room_id: usize)
        requires
            k < self@.room_ids.len(),
        ensures
            room_id == self@.room_ids[k as int],
    {
        self.rooms.key(k)
    }

    /// The room of a number.
    pub fn room(&self, room_id: usize) -> (room: Option<&Room>)
        requires
            self.wf(),
        ensures
            match spec_position(self@.room_ids, room_id) {
                Some(k) => room matches Some(found) && found@ == self@.rooms[k],
                None => room is None,
            },
    {
        proof {
            self.lemma_tables();
        }
        match self.rooms.find(room_id) {
            Some(k) => Some(self.rooms.value(k)),
            None => None,
        }
    }

    /// Takes in a room that was filed under a number. No room of the
    /// lobby may have the number.
    pub fn load(&mut self, room_id: usize, room: Room)
        requires
            old(self).wf(),
            room.wf(),
            !old(self)@.room_ids.contains(room_id),
        ensures
            final(self)@ == (LobbyView { room_ids: old(self)@.room_ids.push(room_id), rooms: old(self)@.rooms.push(room@), ..old(self)@ }),
            final(self).wf(),
    {
        proof {
            self.lemma_tables();
        }
        self.rooms.push(room_id, room);
        proof {
            assert(self@.rooms =~= old(self)@.rooms.push(room@));
            lemma_load_wf(old(self)@, room_id, room@);
        }
    }

    /// Gives a user who comes a number.
    pub fn connect(&mut self) -> (user_id: usize)
        requires
            old(self)@.next_user_id < usize::MAX,
        ensures
            user_id == old(self)@.next_user_id,
            final(self)@ == (LobbyView { next_user_id: (old(self)@.next_user_id + 1) as usize, ..old(self)@ }),
    {
        let user_id = self.next_user_id;
        self.next_user_id = self.next_user_id + 1;
        user_id
    }

    /// Says what is to be filed of the room at a position, and lets go
    /// of the room where it is done with.
    fn update(&mut self, k: usize) -> (filing: Filing)
        requires
            old(self).tables(),
            k < old(self)@.rooms.len(),
        ensures
            final(self)@ == spec_updated(old(self)@, k as int),
            filing@ == spec_filing(old(self)@.room_ids[k as int], old(self)@.rooms[k as int]),
            final(self).tables(),
    {
        let room_id = self.rooms.key(k);
        let room = self.rooms.value(k);
        let started = room.started();
        let finished = room.finished();
        if finished {
            let (_, room) = self.rooms.remove(k);
            proof {
                assert(self@.rooms =~= old(self)@.rooms.remove(k as int));
            }
            if started {
                Filing::Last(room_id, room)
            } else {
                Filing::Delete(room_id)
            }
        } else if started {
            Filing::Save(room_id)
        } else {
            Filing::Nothing
        }
    }

    /// Lets a user go: the seat of the user is empty from now on, and
    /// the user is in no room.
    pub fn disconnect(&mut self, user_id: usize) -> (filing: Filing)
        requires
            old(self).wf(),
        ensures
            (final(self)@, filing@) == spec_disconnect(old(self)@, user_id),
            final(self).wf(),
    {
        proof {
            self.lemma_tables();
            lemma_room_of(self@, user_id);
            lemma_disconnect_wf(self@, user_id);
        }
        match self.user_to_room.find(user_id) {
            Some(j) => {
                let room_id = *self.user_to_room.value(j);
                match self.rooms.find(room_id) {
                    Some(k) => {
                        let room = self.rooms.value_mut(k);
                        room.disconnect(user_id);
                        self.user_to_room.remove(j);
                        proof {
                            let changed = spec_with_room(old(self)@, k as int, spec_left(old(self)@.rooms[k as int], user_id));
                            assert(self@.rooms =~= changed.rooms);
                            assert(self@ == spec_unmap(changed, user_id));
                        }
                        self.update(k)
                    },
                    None => Filing::Nothing,
                }
            },
            None => Filing::Nothing,
        }
    }

    /// The list of games, for a user.
    pub fn describe_games(&self, user_id: usize) -> (sent: Vec<(usize, Msg)>)
        requires
            self.wf(),
        ensures
            queue_view(sent@) == spec_games_for(self@, user_id),
    {
        let mut games: Vec<PGame> = Vec::new();
        let mut k: usize = 0;
        proof {
            self.lemma_tables();
            assert(self@.rooms.subrange(0, 0) =~= Seq::empty());
            assert(games_view(games@) =~= Seq::empty());
        }
        while k < self.rooms.len()
            invariant
                self.tables(),
                k <= self@.rooms.len(),
                games_view(games@) == spec_games(self@.rooms.subrange(0, k as int)),
            decreases self@.rooms.len() - k,
        {
            let ghost before = games_view(games@);
            proof {
                assert(self@.rooms.subrange(0, k + 1).drop_last() =~= self@.rooms.subrange(0, k as int));
                assert(self@.rooms.subrange(0, k + 1).last() == self@.rooms[k as int]);
            }
            match self.rooms.value(k).describe() {
                Some(shown) => {
                    games.push(shown);
                    proof {
                        assert(games_view(games@) =~= before.push(shown@));
                    }
                },
                None => {},
            }
            k = k + 1;
        }
        proof {
            assert(self@.rooms.subrange(0, k as int) =~= self@.rooms);
        }
        let msg = Msg::Games { games };
        proof {
            assert(msg@->Games_games =~= games_view(games@));
        }
        let mut sent: Vec<(usize, Msg)> = Vec::new();
        sent.push((user_id, msg));
        proof {
            assert(queue_view(sent@) =~= spec_games_for(self@, user_id));
        }
        sent
    }
    /// Whether a message can be taken: it does not ask the lobby to seat
    /// a user a second time in a room that the user waits in.
    pub fn can_take(&self, user_id: usize, msg: &Msg) -> (good: bool)
        requires
            self.wf(),
        ensures
            good == !spec_joins_own(self@, user_id, msg@),
    {
        match msg {
            Msg::Join { nick: _, key } => match self.join_room(key) {
                Some(k) => {
                    let room = self.rooms.value(k);
                    let waits = match room.seat(0) {
                        Some(first) => first == user_id,
                        None => false,
                    };
                    !(waits && room.seat(1).is_none() && !room.started())
                },
                None => true,
            },
            _ => true,
        }
    }

    /// The position of the first room that a key lets a second player
    /// join.
    fn join_room(&self, key: &String) -> (at: Option<usize>)
        requires
            self.wf(),
        ensures
            (match at {
                Some(k) => Some(k as int),
                None => None,
            }) == spec_join_room(self@.rooms, key@, 0),
            at matches Some(k) ==> k < self@.rooms.len(),
    {
        proof {
            self.lemma_tables();
            lemma_join_room(self@.rooms, key@, 0);
        }
        let mut k: usize = 0;
        while k < self.rooms.len()
            invariant
                self.tables(),
                k <= self@.rooms.len(),
                spec_join_room(self@.rooms, key@, 0) == spec_join_room(self@.rooms, key@, k as int),
            decreases self@.rooms.len() - k,
        {
            if self.rooms.value(k).has_room_key(key) {
                return Some(k);
            }
            k = k + 1;
        }
        None
    }

    /// The position of the first room that a key brings a user back to,
    /// and the seat.
    fn rejoin_room(&self, key: &String) -> (at: Option<(usize, usize)>)
        requires
            self.wf(),
        ensures
            (match at {
                Some((k, i)) => Some((k as int, i)),
                None => None,
            }) == spec_rejoin_room(self@.rooms, key@, 0),
            at matches Some((k, i)) ==> k < self@.rooms.len() && i < 2,
    {
        proof {
            self.lemma_tables();
            lemma_rejoin_room(self@.rooms, key@, 0);
        }
        let mut k: usize = 0;
        while k < self.rooms.len()
            invariant
                self.tables(),
                k <= self@.rooms.len(),
                spec_rejoin_room(self@.rooms, key@, 0) == spec_rejoin_room(self@.rooms, key@, k as int),
            decreases self@.rooms.len() - k,
        {
            match self.rooms.value(k).key_seat(key) {
                Some(i) => {
                    return Some((k, i));
                },
                None => {},
            }
            k = k + 1;
        }
        None
    }

    /// Puts a user in the room of a number, in the place of the room
    /// that the user was in.
    fn map(&mut self, user_id: usize, room_id: usize)
        requires
            old(self).tables(),
        ensures
            final(self)@ == spec_map(old(self)@, user_id, room_id),
            final(self).tables(),
    {
        match self.user_to_room.find(user_id) {
            Some(j) => {
                self.user_to_room.replace(j, room_id);
            },
            None => {
                self.user_to_room.push(user_id, room_id);
            },
        }
        proof {
            assert(self@.rooms =~= old(self)@.rooms);
        }
    }

    /// Takes in a new room that was filed under a number, with its user
    /// in it, and shows the user the list of games. No room of the
    /// lobby may have the number.
    pub fn open_room(&mut self, user_id: usize, room_id: usize, room: Room) -> (sent: Vec<(usize, Msg)>)
        requires
            old(self).wf(),
            room.wf(),
            !old(self)@.room_ids.contains(room_id),
            spec_find_player(room@, user_id) is Some,
        ensures
            final(self)@ == spec_opened(old(self)@, user_id, room_id, room@),
            queue_view(sent@) == spec_games_for(final(self)@, user_id),
            final(self).wf(),
    {
        proof {
            lemma_opened_wf(self@, user_id, room_id, room@);
        }
        self.load(room_id, room);
        proof {
            self.lemma_tables();
        }
        self.map(user_id, room_id);
        self.describe_games(user_id)
    }

    /// Answers a user who asks for a new room.
    fn new_game(&self, user_id: usize, nick: String, rng: &mut StdRng) -> (out: Result<Step, Refusal>)
        requires
            self.wf(),
        ensures
            spec_new_game(self@, user_id, nick@, self@, answer_view(out)),
    {
        proof {
            self.lemma_tables();
        }
        if self.rooms.find(user_id).is_some() {
            return Err(Refusal::Lobby(LobbyError::AlreadyJoined));
        }
        Ok(Step::Open(Room::new(user_id, nick, rng)))
    }

    /// Answers a user who gives up waiting.
    fn cancel_new_game(&mut self, user_id: usize) -> (out: Result<Step, Refusal>)
        requires
            old(self).wf(),
        ensures
            spec_cancel(old(self)@, user_id, final(self)@, answer_view(out)),
            final(self).wf(),
    {
        proof {
            self.lemma_tables();
            lemma_room_of(self@, user_id);
        }
        if self.user_to_room.find(user_id).is_none() {
            return Err(Refusal::Lobby(LobbyError::NotJoined));
        }
        let filing = self.disconnect(user_id);
        let sent = self.describe_games(user_id);
        Ok(Step::Send(sent, filing))
    }

    /// Answers a user who joins by a key.
    fn join(&mut self, user_id: usize, nick: String, key: String, rng: &mut StdRng) -> (out: Result<Step, Refusal>)
        requires
            old(self).wf(),
            !spec_joins_own(old(self)@, user_id, MsgView::Join { nick: nick@, key: key@ }),
        ensures
            spec_join(old(self)@, user_id, nick@, key@, final(self)@, answer_view(out)),
            final(self).wf(),
    {
        proof {
            self.lemma_tables();
        }
        match self.join_room(&key) {
            Some(k) => {
                let ghost before = self@.rooms[k as int];
                proof {
                    assert(spec_room_wf(before));
                }
                let room_id = self.rooms.key(k);
                let room = self.rooms.value_mut(k);
                let result = room.connect(user_id, nick, rng);
                let ghost after = self@.rooms[k as int];
                proof {
                    assert(spec_connect(before, user_id, nick@, after, reply_view(result)));
                    assert(self@.rooms =~= spec_with_room(old(self)@, k as int, after).rooms);
                }
                match result {
                    Ok(sent) => {
                        proof {
                            lemma_seated_wf(old(self)@, k as int, after, user_id, 1);
                        }
                        self.map(user_id, room_id);
                        Ok(Step::Send(sent, Filing::Nothing))
                    },
                    Err(error) => {
                        proof {
                            assert(self@.rooms =~= old(self)@.rooms);
                        }
                        Err(Refusal::Room(error))
                    },
                }
            },
            None => Err(Refusal::Lobby(LobbyError::WrongKey)),
        }
    }

    /// Answers a user who comes back by a key.
    fn rejoin(&mut self, user_id: usize, key: String) -> (out: Result<Step, Refusal>)
        requires
            old(self).wf(),
        ensures
            spec_come_back(old(self)@, user_id, key@, final(self)@, answer_view(out)),
            final(self).wf(),
    {
        proof {
            self.lemma_tables();
        }
        match self.rejoin_room(&key) {
            Some((k, i)) => {
                let ghost before = self@.rooms[k as int];
                let ghost at = spec_rejoin_room(old(self)@.rooms, key@, 0)->0;
                proof {
                    assert(spec_room_wf(before));
                    assert(at == (k as int, i));
                }
                let room_id = self.rooms.key(k);
                let room = self.rooms.value_mut(k);
                let result = room.rejoin(user_id, i);
                let ghost after = self@.rooms[k as int];
                proof {
                    assert(spec_rejoin(old(self)@.rooms[at.0], user_id, at.1, after, reply_view(result)));
                    assert(self@.rooms =~= spec_with_room(old(self)@, k as int, after).rooms);
                }
                match result {
                    Ok(sent) => {
                        proof {
                            lemma_seated_wf(old(self)@, k as int, after, user_id, i as int);
                        }
                        self.map(user_id, room_id);
                        Ok(Step::Send(sent, Filing::Nothing))
                    },
                    Err(error) => {
                        proof {
                            assert(self@.rooms =~= old(self)@.rooms);
                        }
                        Err(Refusal::Room(error))
                    },
                }
            },
            None => Err(Refusal::Lobby(LobbyError::WrongKey)),
        }
    }

    /// Answers a move of a user.
    fn on_room_message(&mut self, user_id: usize, msg: Msg) -> (out: Result<Step, Refusal>)
        requires
            old(self).wf(),
        ensures
            spec_play(old(self)@, user_id, msg@, final(self)@, answer_view(out)),
            final(self).wf(),
    {
        proof {
            self.lemma_tables();
            lemma_room_of(self@, user_id);
        }
        let j = match self.user_to_room.find(user_id) {
            Some(j) => j,
            None => {
                return Err(Refusal::Lobby(LobbyError::NotJoined));
            },
        };
        let room_id = *self.user_to_room.value(j);
        match self.rooms.find(room_id) {
            Some(k) => {
                let ghost before = self@.rooms[k as int];
                proof {
                    assert(spec_room_wf(before));
                }
                let room = self.rooms.value_mut(k);
                let result = room.on_message(user_id, msg);
                let ghost after = self@.rooms[k as int];
                proof {
                    assert(spec_told(before, user_id, msg@, after, reply_view(result)));
                    assert(self@.rooms =~= spec_with_room(old(self)@, k as int, after).rooms);
                }
                match result {
                    Ok(sent) => {
                        proof {
                            assert forall|n: int| 0 <= n < old(self)@.users.len() && #[trigger] old(self)@.user_rooms[n] == old(self)@.room_ids[k as int] implies spec_find_player(
                                after,
                                old(self)@.users[n],
                            ) is Some by {
                                assert(spec_user_ok(old(self)@, n));
                            }
                            lemma_with_room_wf(old(self)@, k as int, after);
                            lemma_updated_wf(spec_with_room(old(self)@, k as int, after), k as int);
                        }
                        let filing = self.update(k);
                        Ok(Step::Send(sent, filing))
                    },
                    Err(error) => {
                        proof {
                            assert(self@.rooms =~= old(self)@.rooms);
                        }
                        Err(Refusal::Room(error))
                    },
                }
            },
            None => Err(Refusal::Lobby(LobbyError::NotJoined)),
        }
    }

    /// Answers a message of a user.
    pub fn on_message(&mut self, user_id: usize, msg: Msg, rng: &mut StdRng) -> (out: Result<Step, Refusal>)
        requires
            old(self).wf(),
            !spec_joins_own(old(self)@, user_id, msg@),
        ensures
            spec_answer(old(self)@, user_id, msg@, final(self)@, answer_view(out)),
            final(self).wf(),
    {
        match msg {
            Msg::GetGames => Ok(Step::Send(self.describe_games(user_id), Filing::Nothing)),
            Msg::NewGame { nick } => self.new_game(user_id, nick, rng),
            Msg::CancelNewGame => self.cancel_new_game(user_id),
            Msg::Join { nick, key } => self.join(user_id, nick, key, rng),
            Msg::Rejoin { key } => self.rejoin(user_id, key),
            Msg::Hand { hand } => self.on_room_message(user_id, Msg::Hand { hand }),
            Msg::Discard { tile } => self.on_room_message(user_id, Msg::Discard { tile }),
            _ => Err(Refusal::Lobby(LobbyError::UnrecognizedMessage)),
        }
    }
    /// Whether the clock of each game at play can take another tick.
    pub fn can_beat(&self) -> (good: bool)
        requires
            self.wf(),
        ensures
            good == spec_can_beat(self@, 0),
    {
        proof {
            self.lemma_tables();
        }
        let mut k: usize = 0;
        while k < self.rooms.len()
            invariant
                self.tables(),
                k <= self@.rooms.len(),
                spec_can_beat(self@, 0) == spec_can_beat(self@, k as int),
            decreases self@.rooms.len() - k,
        {
            let room = self.rooms.value(k);
            let good = room.finished_game() || match room.time() {
                Some(time) => time <= usize::MAX - 201,
                None => true,
            };
            if !good {
                proof {
                    assert(self@.rooms[k as int].game is Some);
                }
                return false;
            }
            proof {
                assert(spec_can_beat(self@, k + 1) ==> spec_can_beat(self@, k as int)) by {
                    if spec_can_beat(self@, k + 1) {
                        assert forall|m: int| k <= m < self@.rooms.len() implies ((#[trigger] self@.rooms[m]).game matches Some(game) ==> game.finished || game.time + 201 <= usize::MAX) by {
                        }
                    }
                }
            }
            k = k + 1;
        }
        true
    }

    /// Gives each room a tick of the clock, in the order in which the
    /// rooms came; hands out what the rooms have to say, and says what
    /// is to be filed of each room. A room that is done with leaves the
    /// lobby.
    pub fn beat(&mut self) -> (out: (Vec<(usize, Msg)>, Vec<Filing>))
        requires
            old(self).wf(),
            spec_can_beat(old(self)@, 0),
        ensures
            final(self)@ == spec_beat_from(old(self)@, 0).0,
            queue_view(out.0@) == spec_beat_from(old(self)@, 0).1,
            filings_view(out.1@) == spec_beat_from(old(self)@, 0).2,
            final(self).wf(),
    {
        let mut sent: Vec<(usize, Msg)> = Vec::new();
        let mut filings: Vec<Filing> = Vec::new();
        let mut k: usize = 0;
        proof {
            assert(queue_view(sent@) + spec_beat_from(self@, 0).1 =~= spec_beat_from(self@, 0).1);
            assert(filings_view(filings@) + spec_beat_from(self@, 0).2 =~= spec_beat_from(self@, 0).2);
        }
        while k < self.rooms.len()
            invariant
                self.wf(),
                k <= self@.rooms.len(),
                spec_can_beat(self@, k as int),
                spec_beat_from(old(self)@, 0).0 == spec_beat_from(self@, k as int).0,
                spec_beat_from(old(self)@, 0).1 == queue_view(sent@) + spec_beat_from(self@, k as int).1,
                spec_beat_from(old(self)@, 0).2 == filings_view(filings@) + spec_beat_from(self@, k as int).2,
            decreases self@.rooms.len() - k,
        {
            let ghost lobby = self@;
            let ghost before = queue_view(sent@);
            let ghost filed = filings_view(filings@);
            proof {
                self.lemma_tables();
                assert(spec_room_wf(lobby.rooms[k as int]));
            }
            let room = self.rooms.value_mut(k);
            let mut said = room.beat();
            let finished = room.finished();
            let ghost told = queue_view(said@);
            let ghost after = self@.rooms[k as int];
            proof {
                assert(self@.rooms =~= spec_with_room(lobby, k as int, after).rooms);
                assert forall|n: int| 0 <= n < lobby.users.len() && #[trigger] lobby.user_rooms[n] == lobby.room_ids[k as int] implies spec_find_player(after, lobby.users[n]) is Some by {
                    assert(spec_user_ok(lobby, n));
                }
                lemma_with_room_wf(lobby, k as int, after);
                lemma_updated_wf(spec_with_room(lobby, k as int, after), k as int);
            }
            let filing = self.update(k);
            let ghost note = filing@;
            sent.append(&mut said);
            filings.push(filing);
            proof {
                assert(queue_view(sent@) =~= before + told);
                assert(filings_view(filings@) =~= filed + seq![note]);
                let next = if finished {
                    k as int
                } else {
                    k + 1
                };
                let rest = spec_beat_from(self@, next);
                assert(spec_beat_from(lobby, k as int) == (rest.0, told + rest.1, seq![note] + rest.2));
                assert(before + (told + rest.1) =~= (before + told) + rest.1);
                assert(filed + (seq![note] + rest.2) =~= (filed + seq![note]) + rest.2);
                if finished {
                    assert forall|m: int| k <= m < self@.rooms.len() implies ((#[trigger] self@.rooms[m]).game matches Some(game) ==> game.finished || game.time + 201 <= usize::MAX) by {
                        assert(self@.rooms[m] == lobby.rooms[m + 1]);
                    }
                } else {
                    assert forall|m: int| k + 1 <= m < self@.rooms.len() implies ((#[trigger] self@.rooms[m]).game matches Some(game) ==> game.finished || game.time + 201 <= usize::MAX) by {
                        assert(self@.rooms[m] == lobby.rooms[m]);
                    }
                }
            }
            if !finished {
                k = k + 1;
            }
        }
        proof {
            assert(queue_view(sent@) + Seq::<(usize, MsgView)>::empty() =~= queue_view(sent@));
            assert(filings_view(filings@) + Seq::<FilingView>::empty() =~= filings_view(filings@));
        }
        (sent, filings)
    }
}

} // verus!
