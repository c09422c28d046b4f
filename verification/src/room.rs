//! A room: two users, their names and keys, and the game between them.

use crate::game::{
    spec_beat, spec_message_ron, spec_on_message, spec_on_start, spec_wf, Game, GameParts,
    GameView,
};
use crate::protocol::{queue_view, Msg, MsgView, PGame, PGameView};
use crate::random::choose_letters;
use rand::rngs::StdRng;
use vstd::prelude::*;

verus! {

/// Why a room refuses what a user asks.
#[derive(Debug, Copy, Clone, PartialEq, Eq, Structural)]
pub enum RoomError {
    AlreadyJoined,
    GameNotStarted,
    GameFinished,
}

impl RoomError {
    /// The refusal in words.
    pub fn text(self) -> (text: &'static str)
        ensures
            text@ == (match self {
                RoomError::AlreadyJoined => "already joined"@,
                RoomError::GameNotStarted => "game not started"@,
                RoomError::GameFinished => "game finished"@,
            }),
    {
        match self {
            RoomError::AlreadyJoined => "already joined",
            RoomError::GameNotStarted => "game not started",
            RoomError::GameFinished => "game finished",
        }
    }
}

/// A room for two players.
pub struct Room {
    game: Option<Game>,
    user_ids: [Option<usize>; 2],
    nicks: [String; 2],
    pub room_key: String,
    pub player_keys: [String; 2],
}

/// What a `Room` holds: the game, if it has begun; the users at the two
/// seats, as far as they are there; their names; the key by which a
/// second player joins, and the keys by which the players come back.
pub struct RoomView {
    pub game: Option<GameView>,
    pub user_ids: Seq<Option<usize>>,
    pub nicks: Seq<Seq<char>>,
    pub room_key: Seq<char>,
    pub player_keys: Seq<Seq<char>>,
}

impl View for Room {
    type V = RoomView;

    closed spec fn view(&self) -> RoomView {
        RoomView {
            game: match self.game {
                Some(game) => Some(game@),
                None => None,
            },
            user_ids: self.user_ids@,
            nicks: Seq::new(2, |i: int| self.nicks[i]@),
            room_key: self.room_key@,
            player_keys: Seq::new(2, |i: int| self.player_keys[i]@),
        }
    }
}

/// What holds of a room at all times: it has two seats, and its game is
/// as a game has to be.
pub open spec fn spec_room_wf(room: RoomView) -> bool {
    &&& room.user_ids.len() == 2
    &&& room.nicks.len() == 2
    &&& room.player_keys.len() == 2
    &&& room.game matches Some(game) ==> spec_wf(game)
}

/// The seat of a user in a room.
pub open spec fn spec_find_player(room: RoomView, user_id: usize) -> Option<usize> {
    if room.user_ids[0] == Some(user_id) {
        Some(0usize)
    } else if room.user_ids[1] == Some(user_id) {
        Some(1usize)
    } else {
        None
    }
}

/// The messages of a game, each for the user at the seat that it is
/// for; those for a seat without user are left out.
pub open spec fn spec_translate(queue: Seq<(usize, MsgView)>, user_ids: Seq<Option<usize>>) -> Seq<(usize, MsgView)>
    decreases queue.len(),
{
    if queue.len() == 0 {
        Seq::empty()
    } else {
        let before = spec_translate(queue.drop_last(), user_ids);
        let last = queue.last();
        if last.0 < 2 && user_ids[last.0 as int] is Some {
            before.push((user_ids[last.0 as int]->0, last.1))
        } else {
            before
        }
    }
}

/// The game without the messages that wait to be sent.
pub open spec fn spec_sent(game: GameView) -> GameView {
    GameView { messages: Seq::empty(), ..game }
}

/// How the list of games shows a room: not at all once its game has
/// ended or its first player has left before a second came; else as a
/// game at play or as a player who waits.
pub open spec fn spec_describe(room: RoomView) -> Option<PGameView> {
    match room.game {
        Some(game) => if game.finished {
            None
        } else {
            Some(PGameView::Game { nicks: room.nicks })
        },
        None => if room.user_ids[0] is Some {
            Some(PGameView::Player { nick: room.nicks[0], key: room.room_key })
        } else {
            None
        },
    }
}

/// The messages that tell the users of a room of their seats.
pub open spec fn spec_seats(room: RoomView, n: int) -> Seq<(usize, MsgView)>
    decreases n,
{
    if n <= 0 {
        Seq::empty()
    } else {
        let before = spec_seats(room, n - 1);
        match room.user_ids[n - 1] {
            Some(user_id) => before.push((user_id, MsgView::Room { you: (n - 1) as usize, nicks: room.nicks, key: room.player_keys[n - 1] })),
            None => before,
        }
    }
}

/// A room with a second user at the second seat.
pub open spec fn spec_seated(room: RoomView, user_id: usize, nick: Seq<char>) -> RoomView {
    RoomView { user_ids: room.user_ids.update(1, Some(user_id)), nicks: room.nicks.update(1, nick), ..room }
}

/// What is handed out, or the refusal, by what the messages hold.
pub open spec fn reply_view<E>(sent: Result<Vec<(usize, Msg)>, E>) -> Result<Seq<(usize, MsgView)>, E> {
    match sent {
        Ok(list) => Ok(queue_view(list@)),
        Err(error) => Err(error),
    }
}

/// How a room answers a user who comes back to a seat: taken seats are
/// refused; else the user has the seat and is told of it.
pub open spec fn spec_rejoin(before: RoomView, user_id: usize, i: usize, after: RoomView, sent: Result<Seq<(usize, MsgView)>, RoomError>) -> bool {
    if before.user_ids[i as int] is Some {
        sent == Err::<Seq<(usize, MsgView)>, RoomError>(RoomError::AlreadyJoined) && after == before
    } else {
        &&& after == (RoomView { user_ids: before.user_ids.update(i as int, Some(user_id)), ..before })
        &&& sent == Ok::<Seq<(usize, MsgView)>, RoomError>(seq![(user_id, MsgView::Room { you: i, nicks: before.nicks, key: before.player_keys[i as int] })])
    }
}

/// How a room answers a second user: a room with a second user or a
/// game refuses; else the user has the second seat, both users are told
/// of their seats, and a new game begins, of which both are told.
pub open spec fn spec_connect(before: RoomView, user_id: usize, nick: Seq<char>, after: RoomView, sent: Result<Seq<(usize, MsgView)>, RoomError>) -> bool {
    if before.user_ids[1] is Some || before.game is Some {
        sent == Err::<Seq<(usize, MsgView)>, RoomError>(RoomError::AlreadyJoined) && after == before
    } else {
        exists|game: GameView|
            {
                &&& spec_wf(game)
                &&& game.messages.len() == 0
                &&& game.time == 0
                &&& !game.finished
                &&& after == (RoomView { game: Some(spec_sent(#[trigger] spec_on_start(game))), ..spec_seated(before, user_id, nick) })
                &&& sent == Ok::<Seq<(usize, MsgView)>, RoomError>(
                    spec_seats(spec_seated(before, user_id, nick), 2) + spec_translate(spec_on_start(game).messages, spec_seated(before, user_id, nick).user_ids),
                )
            }
    }
}

/// How a room answers a message of one of its users: without a game at
/// play it refuses; else the game takes the message, and what the game
/// has to say is handed out.
pub open spec fn spec_told(before: RoomView, user_id: usize, msg: MsgView, after: RoomView, sent: Result<Seq<(usize, MsgView)>, RoomError>) -> bool {
    match before.game {
        None => sent == Err::<Seq<(usize, MsgView)>, RoomError>(RoomError::GameNotStarted) && after == before,
        Some(game) => if game.finished {
            sent == Err::<Seq<(usize, MsgView)>, RoomError>(RoomError::GameFinished) && after == before
        } else {
            exists|ron: Option<MsgView>|
                {
                    &&& #[trigger] spec_message_ron(game, spec_find_player(before, user_id)->0, msg, ron)
                    &&& after == (RoomView { game: Some(spec_sent(spec_on_message(game, spec_find_player(before, user_id)->0, msg, ron))), ..before })
                    &&& sent == Ok::<Seq<(usize, MsgView)>, RoomError>(spec_translate(spec_on_message(game, spec_find_player(before, user_id)->0, msg, ron).messages, before.user_ids))
                }
        },
    }
}

/// How a room answers a tick of the clock: a game at play moves on, and
/// what it has to say is handed out.
pub open spec fn spec_room_beat(before: RoomView) -> (RoomView, Seq<(usize, MsgView)>) {
    match before.game {
        Some(game) => if game.finished {
            (before, Seq::empty())
        } else {
            (RoomView { game: Some(spec_sent(spec_beat(game))), ..before }, spec_translate(spec_beat(game).messages, before.user_ids))
        },
        None => (before, Seq::empty()),
    }
}

/// The seat that a key brings a user back to.
pub open spec fn spec_key_seat(room: RoomView, key: Seq<char>) -> Option<usize> {
    if room.player_keys[0] == key {
        Some(0usize)
    } else if room.player_keys[1] == key {
        Some(1usize)
    } else {
        None
    }
}

/// The messages of a game, each for the user at the seat that it is
/// for.
pub fn translate(messages: &Vec<(usize, Msg)>, user_ids: &[Option<usize>; 2]) -> (sent: Vec<(usize, Msg)>)
    ensures
        queue_view(sent@) == spec_translate(queue_view(messages@), user_ids@),
{
    let ghost queue = queue_view(messages@);
    let mut sent: Vec<(usize, Msg)> = Vec::new();
    let mut k: usize = 0;
    proof {
        assert(queue.subrange(0, 0) =~= Seq::empty());
    }
    while k < messages.len()
        invariant
            k <= messages@.len(),
            queue == queue_view(messages@),
            queue_view(sent@) == spec_translate(queue.subrange(0, k as int), user_ids@),
        decreases messages@.len() - k,
    {
        let i = messages[k].0;
        let ghost before = queue_view(sent@);
        proof {
            assert(queue.subrange(0, k + 1).drop_last() =~= queue.subrange(0, k as int));
            assert(queue.subrange(0, k + 1).last() == queue[k as int]);
        }
        if i < 2 {
            match user_ids[i] {
                Some(user_id) => {
                    sent.push((user_id, messages[k].1.copy()));
                    proof {
                        assert(queue_view(sent@) =~= before.push((user_id, queue[k as int].1)));
                    }
                },
                None => {},
            }
        }
        k = k + 1;
    }
    proof {
        assert(queue.subrange(0, k as int) =~= queue);
    }
    sent
}

impl Room {
    /// Whether the room is as a room has to be at all times.
    pub open spec fn wf(&self) -> bool {
        spec_room_wf(self@)
    }

    /// A room with one user, who waits for a second. Its keys come from
    /// the random numbers.
    pub fn new(user_id: usize, nick: String, rng: &mut StdRng) -> (room: Room)
        ensures
            room.wf(),
            room@.game is None,
            room@.user_ids == seq![Some(user_id), None],
            room@.nicks == seq![nick@, Seq::<char>::empty()],
            room@.room_key.len() == 10,
            room@.player_keys[0].len() == 10,
            room@.player_keys[1].len() == 10,
    {
        let room = Room {
            game: None,
            user_ids: [Some(user_id), None],
            nicks: [nick, String::new()],
            room_key: Room::gen_key(rng),
            player_keys: [Room::gen_key(rng), Room::gen_key(rng)],
        };
        proof {
            assert(room@.user_ids =~= seq![Some(user_id), None]);
            assert(room@.nicks =~= seq![nick@, Seq::<char>::empty()]);
        }
        room
    }

    /// A key: ten of the 52 letters, as chance has them.
    fn gen_key(rng: &mut StdRng) -> (key: String)
        ensures
            key@.len() == 10,
    {
        let chars = "abcdefghijklmnopqrstuvwxyzABCDEFGHIJKLMNOPQRSTUVWXYZ";
        proof {
            reveal_strlit("abcdefghijklmnopqrstuvwxyzABCDEFGHIJKLMNOPQRSTUVWXYZ");
        }
        choose_letters(chars, 10, rng)
    }

    /// How the list of games shows the room.
    pub fn describe(&self) -> (shown: Option<PGame>)
        ensures
            (match shown {
                Some(game) => Some(game@),
                None => None,
            }) == spec_describe(self@),
    {
        match &self.game {
            Some(game) => {
                if game.is_finished() {
                    None
                } else {
                    let shown = PGame::Game { nicks: [self.nicks[0].clone(), self.nicks[1].clone()] };
                    proof {
                        assert(shown@->Game_nicks =~= self@.nicks);
                    }
                    Some(shown)
                }
            },
            None => {
                if self.user_ids[0].is_some() {
                    Some(PGame::Player { nick: self.nicks[0].clone(), key: self.room_key.clone() })
                } else {
                    None
                }
            },
        }
    }

    /// Whether the game has begun.
    pub fn started(&self) -> (begun: bool)
        ensures
            begun == self@.game is Some,
    {
        self.game.is_some()
    }

    /// The time of the clock of the game, if the game has begun.
    pub fn time(&self) -> (time: Option<usize>)
        ensures
            time == (match self@.game {
                Some(game) => Some(game.time),
                None => None,
            }),
    {
        match &self.game {
            Some(game) => Some(game.time()),
            None => None,
        }
    }

    /// Whether the game has begun and has ended.
    pub fn finished_game(&self) -> (done: bool)
        ensures
            done == (self@.game matches Some(game) && game.finished),
    {
        match &self.game {
            Some(game) => game.is_finished(),
            None => false,
        }
    }

    /// Whether the room is done with: no game at play, and no user left.
    pub fn finished(&self) -> (done: bool)
        ensures
            done == ((self@.game matches Some(game) ==> game.finished) && self@.user_ids[0] is None && self@.user_ids[1] is None),
    {
        let game_finished = match &self.game {
            Some(game) => game.is_finished(),
            None => true,
        };
        game_finished && self.user_ids[0].is_none() && self.user_ids[1].is_none()
    }

    /// Whether a key is the key by which a second player joins.
    pub fn has_room_key(&self, key: &String) -> (same: bool)
        ensures
            same == (self@.room_key == key@),
    {
        self.room_key == *key
    }

    /// The seat that a key brings a user back to.
    pub fn key_seat(&self, key: &String) -> (seat: Option<usize>)
        ensures
            seat == spec_key_seat(self@, key@),
    {
        if self.player_keys[0] == *key {
            Some(0)
        } else if self.player_keys[1] == *key {
            Some(1)
        } else {
            None
        }
    }

    /// The user at a seat.
    pub fn seat(&self, i: usize) -> (user: Option<usize>)
        requires
            i < 2,
        ensures
            user == self@.user_ids[i as int],
    {
        self.user_ids[i]
    }

    /// The seat of a user.
    pub fn find_player(&self, user_id: usize) -> (seat: Option<usize>)
        ensures
            seat == spec_find_player(self@, user_id),
    {
        match self.user_ids[0] {
            Some(first) => {
                if first == user_id {
                    return Some(0);
                }
            },
            None => {},
        }
        match self.user_ids[1] {
            Some(second) => {
                if second == user_id {
                    return Some(1);
                }
            },
            None => {},
        }
        None
    }

    /// Takes the seat of a user away.
    pub fn disconnect(&mut self, user_id: usize)
        requires
            spec_find_player(old(self)@, user_id) is Some,
        ensures
            final(self)@ == (RoomView { user_ids: old(self)@.user_ids.update(spec_find_player(old(self)@, user_id)->0 as int, None), ..old(self)@ }),
    {
        let i = self.find_player(user_id).unwrap();
        self.user_ids[i] = None;
    }

    /// Gives a user back the seat that it had, if nobody is at the seat.
    pub fn rejoin(&mut self, user_id: usize, i: usize) -> (sent: Result<Vec<(usize, Msg)>, RoomError>)
        requires
            i < 2,
        ensures
            spec_rejoin(old(self)@, user_id, i, final(self)@, reply_view(sent)),
    {
        if self.user_ids[i].is_some() {
            return Err(RoomError::AlreadyJoined);
        }
        self.user_ids[i] = Some(user_id);
        let msg = self.seat_msg(i);
        let mut sent: Vec<(usize, Msg)> = Vec::new();
        sent.push((user_id, msg));
        proof {
            assert(queue_view(sent@) =~= seq![(user_id, MsgView::Room { you: i, nicks: old(self)@.nicks, key: old(self)@.player_keys[i as int] })]);
        }
        Ok(sent)
    }

    /// The message that tells the user at a seat of the seat.
    fn seat_msg(&self, i: usize) -> (msg: Msg)
        requires
            i < 2,
        ensures
            msg@ == (MsgView::Room { you: i, nicks: self@.nicks, key: self@.player_keys[i as int] }),
    {
        let msg = Msg::Room { you: i, nicks: [self.nicks[0].clone(), self.nicks[1].clone()], key: self.player_keys[i].clone() };
        proof {
            assert(msg@->Room_nicks =~= self@.nicks);
        }
        msg
    }

    /// Hands out the messages of the game, each for the user at the seat
    /// that it is for.
    fn messages(&mut self) -> (sent: Vec<(usize, Msg)>)
        requires
            old(self)@.game is Some,
        ensures
            queue_view(sent@) == spec_translate(old(self)@.game->0.messages, old(self)@.user_ids),
            final(self)@ == (RoomView { game: Some(spec_sent(old(self)@.game->0)), ..old(self)@ }),
            final(self).game->0.wf() == old(self).game->0.wf(),
    {
        let messages = match &mut self.game {
            Some(game) => game.messages(),
            None => Vec::new(),
        };
        let sent = translate(&messages, &self.user_ids);
        sent
    }

    /// Moves the clock of a game at play on by one tick, and hands out
    /// what the game has to say.
    pub fn beat(&mut self) -> (sent: Vec<(usize, Msg)>)
        requires
            old(self).wf(),
            old(self)@.game matches Some(game) ==> game.finished || game.time + 201 <= usize::MAX,
        ensures
            final(self).wf(),
            (final(self)@, queue_view(sent@)) == spec_room_beat(old(self)@),
    {
        let at_play = match &mut self.game {
            Some(game) => {
                if !game.is_finished() {
                    game.beat();
                    true
                } else {
                    false
                }
            },
            None => false,
        };
        if at_play {
            self.messages()
        } else {
            Vec::new()
        }
    }

    /// Seats a second user and begins the game.
    pub fn connect(&mut self, user_id: usize, nick: String, rng: &mut StdRng) -> (sent: Result<Vec<(usize, Msg)>, RoomError>)
        requires
            old(self).wf(),
            old(self)@.user_ids[1] is None && old(self)@.game is None ==> old(self)@.user_ids[0] != Some(user_id),
        ensures
            final(self).wf(),
            spec_connect(old(self)@, user_id, nick@, final(self)@, reply_view(sent)),
    {
        if self.user_ids[1].is_some() || self.game.is_some() {
            return Err(RoomError::AlreadyJoined);
        }
        self.user_ids[1] = Some(user_id);
        self.nicks[1] = nick;
        let ghost seated = self@;
        proof {
            assert(seated.nicks =~= old(self)@.nicks.update(1, nick@));
            assert(seated == spec_seated(old(self)@, user_id, nick@));
        }
        let mut messages: Vec<(usize, Msg)> = Vec::new();
        let mut i: usize = 0;
        proof {
            assert(queue_view(messages@) =~= spec_seats(seated, 0));
        }
        while i < 2
            invariant
                i <= 2,
                self@ == seated,
                queue_view(messages@) == spec_seats(seated, i as int),
            decreases 2 - i,
        {
            let ghost before = queue_view(messages@);
            match self.user_ids[i] {
                Some(user_id) => {
                    let msg = self.seat_msg(i);
                    messages.push((user_id, msg));
                    proof {
                        assert(queue_view(messages@) =~= before.push((user_id, MsgView::Room { you: i, nicks: seated.nicks, key: seated.player_keys[i as int] })));
                    }
                },
                None => {},
            }
            i = i + 1;
        }
        let mut game = Game::new(rng);
        let ghost fresh = game@;
        game.on_start();
        self.game = Some(game);
        let ghost seats = queue_view(messages@);
        let mut more = self.messages();
        let ghost told = queue_view(more@);
        messages.append(&mut more);
        proof {
            assert(queue_view(messages@) =~= seats + told);
            assert(self@ == (RoomView { game: Some(spec_sent(spec_on_start(fresh))), ..seated }));
        }
        Ok(messages)
    }

    /// Takes a message of a user to the game and hands out what the game
    /// has to say.
    pub fn on_message(&mut self, user_id: usize, msg: Msg) -> (sent: Result<Vec<(usize, Msg)>, RoomError>)
        requires
            old(self).wf(),
            spec_find_player(old(self)@, user_id) is Some,
        ensures
            final(self).wf(),
            spec_told(old(self)@, user_id, msg@, final(self)@, reply_view(sent)),
    {
        let i = self.find_player(user_id).unwrap();
        match &mut self.game {
            None => {
                return Err(RoomError::GameNotStarted);
            },
            Some(game) => {
                if game.is_finished() {
                    return Err(RoomError::GameFinished);
                }
                game.on_message(i, msg);
            },
        }
        let ghost before = old(self)@.game->0;
        let ghost after = self@.game->0;
        let sent = self.messages();
        proof {
            let ron = choose|ron: Option<MsgView>| #[trigger] spec_message_ron(before, i, msg@, ron) && after == spec_on_message(before, i, msg@, ron);
            assert(spec_message_ron(before, i, msg@, ron));
        }
        Ok(sent)
    }
}

/// A room, field by field, for keeping outside the library.
pub struct RoomParts {
    pub game: Option<GameParts>,
    pub user_ids: [Option<usize>; 2],
    pub nicks: [String; 2],
    pub room_key: String,
    pub player_keys: [String; 2],
}

impl View for RoomParts {
    type V = RoomView;

    open spec fn view(&self) -> RoomView {
        RoomView {
            game: match self.game {
                Some(game) => Some(game@),
                None => None,
            },
            user_ids: self.user_ids@,
            nicks: Seq::new(2, |i: int| self.nicks[i]@),
            room_key: self.room_key@,
            player_keys: Seq::new(2, |i: int| self.player_keys[i]@),
        }
    }
}

impl Room {
    /// The room, field by field.
    pub fn snapshot(&self) -> (parts: RoomParts)
        ensures
            parts@ == self@,
    {
        let game = match &self.game {
            Some(game) => Some(game.snapshot()),
            None => None,
        };
        let parts = RoomParts {
            game,
            user_ids: [self.user_ids[0], self.user_ids[1]],
            nicks: [self.nicks[0].clone(), self.nicks[1].clone()],
            room_key: self.room_key.clone(),
            player_keys: [self.player_keys[0].clone(), self.player_keys[1].clone()],
        };
        proof {
            assert(parts@.user_ids =~= self@.user_ids);
            assert(parts@.nicks =~= self@.nicks);
            assert(parts@.player_keys =~= self@.player_keys);
        }
        parts
    }

    /// The room of the given fields, if its game is as a game has to be.
    pub fn restore(parts: RoomParts) -> (room: Option<Room>)
        ensures
            room matches Some(r) ==> r@ == parts@ && r.wf(),
            room is None <==> !spec_room_wf(parts@),
    {
        let ghost given = parts@;
        let RoomParts { game, user_ids, nicks, room_key, player_keys } = parts;
        let game = match game {
            Some(game_parts) => {
                match Game::restore(game_parts) {
                    Some(game) => Some(game),
                    None => {
                        return None;
                    },
                }
            },
            None => None,
        };
        let room = Room { game, user_ids, nicks, room_key, player_keys };
        proof {
            assert(room@.nicks =~= given.nicks);
            assert(room@.player_keys =~= given.player_keys);
        }
        Some(room)
    }
}

} // verus!
