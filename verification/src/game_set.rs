//! Games kept by number, each with the users at its two seats.

use crate::game::{
    spec_beat, spec_fresh, spec_message_ron, spec_on_message, spec_on_start, spec_wf, Game, GameView,
};
use crate::protocol::{queue_view, Msg, MsgView};
use crate::room::{spec_sent, spec_translate, translate};
use crate::table::{spec_position, Table};
use rand::rngs::StdRng;
use vstd::prelude::*;

verus! {

/// A game with the users at its seats and what its keeper knows of it.
struct Slot<T> {
    game: Game,
    users: [Option<usize>; 2],
    meta: T,
}

/// What a slot holds, but for what the keeper knows of the game.
pub struct SlotView {
    pub game: GameView,
    pub users: Seq<Option<usize>>,
}

impl<T> View for Slot<T> {
    type V = SlotView;

    closed spec fn view(&self) -> SlotView {
        SlotView { game: self.game@, users: self.users@ }
    }
}

/// Games at play, by number, and the game and seat of each user.
pub struct GameSet<T> {
    game_id_counter: usize,
    slots: Table<Slot<T>>,
    seats: Table<(usize, usize)>,
}

/// What a `GameSet` holds: the number of the next game; the numbers of
/// the games in the order in which they began, and the game and the
/// users of each; the users that have a seat, and the game and the seat
/// of each.
pub struct GameSetView {
    pub counter: usize,
    pub ids: Seq<usize>,
    pub slots: Seq<SlotView>,
    pub seat_users: Seq<usize>,
    pub seats: Seq<(usize, usize)>,
}

impl<T> View for GameSet<T> {
    type V = GameSetView;

    closed spec fn view(&self) -> GameSetView {
        GameSetView {
            counter: self.game_id_counter,
            ids: self.slots.spec_keys(),
            slots: Seq::new(self.slots.spec_values().len(), |k: int| self.slots.spec_values()[k]@),
            seat_users: self.seats.spec_keys(),
            seats: self.seats.spec_values(),
        }
    }
}

/// The set with a game and a seat for a user, in the place of those that
/// the user had, if any.
pub open spec fn spec_put(set: GameSetView, user: usize, seat: (usize, usize)) -> GameSetView {
    match spec_position(set.seat_users, user) {
        Some(j) => GameSetView { seats: set.seats.update(j, seat), ..set },
        None => GameSetView { seat_users: set.seat_users.push(user), seats: set.seats.push(seat), ..set },
    }
}

/// The set without the seat of a user.
pub open spec fn spec_unseat(set: GameSetView, user: Option<usize>) -> GameSetView {
    match user {
        Some(u) => match spec_position(set.seat_users, u) {
            Some(j) => GameSetView { seat_users: set.seat_users.remove(j), seats: set.seats.remove(j), ..set },
            None => set,
        },
        None => set,
    }
}

/// The set without the game at a position, and without the seats of the
/// users of that game.
pub open spec fn spec_dropped(set: GameSetView, k: int) -> GameSetView {
    let users = set.slots[k].users;
    spec_unseat(spec_unseat(GameSetView { ids: set.ids.remove(k), slots: set.slots.remove(k), ..set }, users[0]), users[1])
}

/// The set with another state of the game at a position.
pub open spec fn spec_with_game(set: GameSetView, k: int, game: GameView) -> GameSetView {
    GameSetView { slots: set.slots.update(k, SlotView { game: game, ..set.slots[k] }), ..set }
}

/// The set after the game at a position has moved on: without the game
/// where it has ended, else with the game, its messages sent.
pub open spec fn spec_moved(set: GameSetView, k: int, after: GameView) -> GameSetView {
    if after.finished {
        spec_dropped(set, k)
    } else {
        spec_with_game(set, k, spec_sent(after))
    }
}

/// What holds of a slot at all times: its game is at play and as a game
/// has to be, and it has two seats.
pub open spec fn spec_slot_ok(slot: SlotView) -> bool {
    spec_wf(slot.game) && !slot.game.finished && slot.users.len() == 2
}

/// Whether a user has a seat in the set.
pub open spec fn spec_has_seat(set: GameSetView, user: usize, seat: (usize, usize)) -> bool {
    exists|i: int| 0 <= i < set.seats.len() && #[trigger] set.seat_users[i] == user && set.seats[i] == seat
}

/// What holds of a seat at all times: it is a seat of a game of the set,
/// and the game has the user at that seat.
pub open spec fn spec_seat_ok(set: GameSetView, j: int) -> bool {
    set.seats[j].1 < 2 && exists|k: int| 0 <= k < set.ids.len() && #[trigger] set.ids[k] == set.seats[j].0 && set.slots[k].users[set.seats[j].1 as int] == Some(set.seat_users[j])
}

/// What holds of a set of games at all times.
pub open spec fn spec_set_wf(set: GameSetView) -> bool {
    &&& set.ids.len() == set.slots.len()
    &&& set.ids.no_duplicates()
    &&& set.seat_users.len() == set.seats.len()
    &&& set.seat_users.no_duplicates()
    &&& forall|k: int| 0 <= k < set.slots.len() ==> spec_slot_ok(#[trigger] set.slots[k]) && set.ids[k] < set.counter
    &&& forall|j: int| 0 <= j < set.seats.len() ==> #[trigger] spec_seat_ok(set, j)
}

/// A set with a seat put is as a set has to be, where the seat is a
/// seat of a game of the set that has the user at it.
pub proof fn lemma_put_wf(set: GameSetView, user: usize, seat: (usize, usize), k: int)
    requires
        spec_set_wf(set),
        seat.1 < 2,
        0 <= k < set.ids.len(),
        set.ids[k] == seat.0,
        set.slots[k].users[seat.1 as int] == Some(user),
    ensures
        spec_set_wf(spec_put(set, user, seat)),
{
    let after = spec_put(set, user, seat);
    assert forall|j: int| 0 <= j < after.seats.len() implies #[trigger] spec_seat_ok(after, j) by {
        if j < set.seats.len() && after.seat_users[j] != user {
            assert(spec_seat_ok(set, j));
            let m = choose|m: int| 0 <= m < set.ids.len() && #[trigger] set.ids[m] == set.seats[j].0 && set.slots[m].users[set.seats[j].1 as int] == Some(set.seat_users[j]);
            assert(after.ids[m] == after.seats[j].0);
        } else {
            assert(after.ids[k] == after.seats[j].0);
        }
    }
    if spec_position(set.seat_users, user) is None {
        assert forall|a: int, b: int| 0 <= a < b < after.seat_users.len() implies after.seat_users[a] != after.seat_users[b] by {
            if b == set.seat_users.len() && after.seat_users[a] == user {
                assert(set.seat_users[a] == user);
            }
        }
    }
}

/// A set without the seat of a user is as a set has to be.
pub proof fn lemma_unseat_wf(set: GameSetView, user: Option<usize>)
    requires
        set.ids.len() == set.slots.len(),
        set.seat_users.len() == set.seats.len(),
        set.seat_users.no_duplicates(),
    ensures
        spec_unseat(set, user).ids == set.ids,
        spec_unseat(set, user).slots == set.slots,
        spec_unseat(set, user).counter == set.counter,
        spec_unseat(set, user).seat_users.len() == spec_unseat(set, user).seats.len(),
        spec_unseat(set, user).seat_users.no_duplicates(),
        forall|u: usize| spec_unseat(set, user).seat_users.contains(u) <==> set.seat_users.contains(u) && Some(u) != user,
        forall|j: int| 0 <= j < spec_unseat(set, user).seats.len() ==> spec_has_seat(set, #[trigger] spec_unseat(set, user).seat_users[j], spec_unseat(set, user).seats[j]),
{
    let after = spec_unseat(set, user);
    if user is Some && spec_position(set.seat_users, user->0) is Some {
        let u = user->0;
        let at = set.seat_users.index_of(u);
        assert(0 <= at < set.seat_users.len() && set.seat_users[at] == u);
        assert forall|j: int| 0 <= j < after.seats.len() implies spec_has_seat(set, #[trigger] after.seat_users[j], after.seats[j]) by {
            let i = if j < at {
                j
            } else {
                j + 1
            };
            assert(set.seat_users[i] == after.seat_users[j] && set.seats[i] == after.seats[j]);
        }
        assert forall|v: usize| after.seat_users.contains(v) <==> set.seat_users.contains(v) && Some(v) != user by {
            if after.seat_users.contains(v) {
                let j = choose|j: int| 0 <= j < after.seat_users.len() && after.seat_users[j] == v;
                let i = if j < at {
                    j
                } else {
                    j + 1
                };
                assert(set.seat_users[i] == v);
            }
            if set.seat_users.contains(v) && v != u {
                let i = choose|i: int| 0 <= i < set.seat_users.len() && set.seat_users[i] == v;
                let j = if i < at {
                    i
                } else {
                    i - 1
                };
                assert(after.seat_users[j] == v);
            }
        }
    } else {
        assert forall|j: int| 0 <= j < after.seats.len() implies spec_has_seat(set, #[trigger] after.seat_users[j], after.seats[j]) by {
            assert(set.seat_users[j] == after.seat_users[j] && set.seats[j] == after.seats[j]);
        }
        if user is Some {
            assert(!set.seat_users.contains(user->0));
        }
    }
}

/// A set without a game and the seats of its users is as a set has to be.
pub proof fn lemma_dropped_wf(set: GameSetView, k: int)
    requires
        spec_set_wf(set),
        0 <= k < set.ids.len(),
    ensures
        spec_set_wf(spec_dropped(set, k)),
{
    let users = set.slots[k].users;
    let fewer = GameSetView { ids: set.ids.remove(k), slots: set.slots.remove(k), ..set };
    let once = spec_unseat(fewer, users[0]);
    let after = spec_unseat(once, users[1]);
    lemma_unseat_wf(fewer, users[0]);
    lemma_unseat_wf(once, users[1]);
    assert(spec_slot_ok(set.slots[k]));
    assert forall|m: int| 0 <= m < after.slots.len() implies spec_slot_ok(#[trigger] after.slots[m]) && after.ids[m] < after.counter by {
        let n = if m < k {
            m
        } else {
            m + 1
        };
        assert(spec_slot_ok(set.slots[n]) && set.ids[n] < set.counter);
        assert(after.slots[m] == set.slots[n]);
    }
    assert forall|j: int| 0 <= j < after.seats.len() implies #[trigger] spec_seat_ok(after, j) by {
        assert(spec_has_seat(once, after.seat_users[j], after.seats[j]));
        let i1 = choose|i: int| 0 <= i < once.seats.len() && #[trigger] once.seat_users[i] == after.seat_users[j] && once.seats[i] == after.seats[j];
        assert(spec_has_seat(fewer, once.seat_users[i1], once.seats[i1]));
        let i0 = choose|i: int| 0 <= i < fewer.seats.len() && #[trigger] fewer.seat_users[i] == once.seat_users[i1] && fewer.seats[i] == once.seats[i1];
        assert(spec_seat_ok(set, i0));
        let m = choose|m: int| 0 <= m < set.ids.len() && #[trigger] set.ids[m] == set.seats[i0].0 && set.slots[m].users[set.seats[i0].1 as int] == Some(set.seat_users[i0]);
        let user = after.seat_users[j];
        assert(after.seat_users.contains(user));
        assert(once.seat_users.contains(user));
        assert(Some(user) != users[1]);
        assert(Some(user) != users[0]);
        if m == k {
            assert(set.seats[i0].1 == 0 || set.seats[i0].1 == 1);
        }
        let n = if m < k {
            m
        } else {
            m - 1
        };
        assert(after.ids[n] == set.ids[m]);
        assert(after.slots[n] == set.slots[m]);
    }
}

/// A set without a game has the other games in their order.
pub proof fn lemma_dropped_slots(set: GameSetView, k: int)
    requires
        spec_set_wf(set),
        0 <= k < set.ids.len(),
    ensures
        spec_dropped(set, k).slots == set.slots.remove(k),
        spec_dropped(set, k).ids == set.ids.remove(k),
{
    let users = set.slots[k].users;
    let fewer = GameSetView { ids: set.ids.remove(k), slots: set.slots.remove(k), ..set };
    lemma_unseat_wf(fewer, users[0]);
    lemma_unseat_wf(spec_unseat(fewer, users[0]), users[1]);
}

/// A set with another state of a game that is at play is as a set has
/// to be.
pub proof fn lemma_with_game_wf(set: GameSetView, k: int, game: GameView)
    requires
        spec_set_wf(set),
        0 <= k < set.ids.len(),
        spec_wf(game),
        !game.finished,
    ensures
        spec_set_wf(spec_with_game(set, k, game)),
{
    let after = spec_with_game(set, k, game);
    assert forall|m: int| 0 <= m < after.slots.len() implies spec_slot_ok(#[trigger] after.slots[m]) && after.ids[m] < after.counter by {
        assert(spec_slot_ok(set.slots[m]) && set.ids[m] < set.counter);
    }
    assert forall|j: int| 0 <= j < after.seats.len() implies #[trigger] spec_seat_ok(after, j) by {
        assert(spec_seat_ok(set, j));
        let m = choose|m: int| 0 <= m < set.ids.len() && #[trigger] set.ids[m] == set.seats[j].0 && set.slots[m].users[set.seats[j].1 as int] == Some(set.seat_users[j]);
        assert(after.ids[m] == after.seats[j].0);
    }
}

/// The set with a new game for two users: the game has the number that
/// the set has counted up to, and each user gets a seat of it in the
/// place of the seat that the user had.
pub open spec fn spec_new_game(set: GameSetView, user_ids: Seq<usize>, game: GameView) -> GameSetView {
    let begun = GameSetView {
        counter: (set.counter + 1) as usize,
        ids: set.ids.push(set.counter),
        slots: set.slots.push(SlotView { game: game, users: seq![Some(user_ids[0]), Some(user_ids[1])] }),
        ..set
    };
    spec_put(spec_put(begun, user_ids[0], (set.counter, 0)), user_ids[1], (set.counter, 1))
}

/// The set after a user has left: the seat of the user is empty, and the
/// user has no seat.
pub open spec fn spec_disconnect(set: GameSetView, user: usize) -> GameSetView {
    match spec_position(set.seat_users, user) {
        Some(j) => {
            let k = set.ids.index_of(set.seats[j].0);
            let slot = set.slots[k];
            GameSetView {
                slots: set.slots.update(k, SlotView { users: slot.users.update(set.seats[j].1 as int, None), ..slot }),
                seat_users: set.seat_users.remove(j),
                seats: set.seats.remove(j),
                ..set
            }
        },
        None => set,
    }
}

/// The set after each game from a position on has moved on by one tick
/// of its clock, with what the games had to say, in their order.
pub open spec fn spec_beat_from(set: GameSetView, k: int) -> (GameSetView, Seq<(usize, MsgView)>)
    decreases set.slots.len() - k,
{
    if 0 <= k < set.slots.len() {
        let after = spec_beat(set.slots[k].game);
        let sent = spec_translate(after.messages, set.slots[k].users);
        let rest = spec_beat_from(
            spec_moved(set, k, after),
            if after.finished {
                k
            } else {
                k + 1
            },
        );
        (rest.0, sent + rest.1)
    } else {
        (set, Seq::empty())
    }
}

/// The position of the game and the seat of a user that has one.
pub open spec fn spec_seat_of(set: GameSetView, user: usize) -> Option<(int, usize)> {
    match spec_position(set.seat_users, user) {
        Some(j) => Some((set.ids.index_of(set.seats[j].0), set.seats[j].1)),
        None => None,
    }
}

/// The seat of a user is a seat of a game of the set.
pub proof fn lemma_seat_of(set: GameSetView, user: usize)
    requires
        spec_set_wf(set),
    ensures
        spec_position(set.seat_users, user) matches Some(j) ==> 0 <= j < set.seats.len() && spec_position(set.ids, set.seats[j].0) is Some,
        spec_seat_of(set, user) matches Some((k, i)) ==> 0 <= k < set.slots.len() && i < 2 && set.slots[k].users[i as int] == Some(user),
{
    if spec_position(set.seat_users, user) is Some {
        let at = set.seat_users.index_of(user);
        assert(0 <= at < set.seat_users.len() && set.seat_users[at] == user);
        assert(spec_seat_ok(set, at));
        let k = set.ids.index_of(set.seats[at].0);
        assert(0 <= k < set.ids.len() && set.ids[k] == set.seats[at].0);
    }
}

/// A new game is no game of the set yet, and it is as a game has to be
/// in it.
pub proof fn lemma_new_game_wf(set: GameSetView, user_ids: Seq<usize>, game: GameView)
    requires
        spec_set_wf(set),
        set.counter < usize::MAX,
        user_ids.len() == 2,
        spec_wf(game),
        !game.finished,
    ensures
        !set.ids.contains(set.counter),
        spec_set_wf(spec_new_game(set, user_ids, game)),
{
    if set.ids.contains(set.counter) {
        let k = choose|k: int| 0 <= k < set.ids.len() && set.ids[k] == set.counter;
        assert(spec_slot_ok(set.slots[k]));
    }
    let begun = GameSetView {
        counter: (set.counter + 1) as usize,
        ids: set.ids.push(set.counter),
        slots: set.slots.push(SlotView { game: game, users: seq![Some(user_ids[0]), Some(user_ids[1])] }),
        ..set
    };
    let last = set.ids.len() as int;
    assert forall|m: int| 0 <= m < begun.slots.len() implies spec_slot_ok(#[trigger] begun.slots[m]) && begun.ids[m] < begun.counter by {
        if m < last {
            assert(spec_slot_ok(set.slots[m]));
        }
    }
    assert forall|j: int| 0 <= j < begun.seats.len() implies #[trigger] spec_seat_ok(begun, j) by {
        assert(spec_seat_ok(set, j));
        let m = choose|m: int| 0 <= m < set.ids.len() && #[trigger] set.ids[m] == set.seats[j].0 && set.slots[m].users[set.seats[j].1 as int] == Some(set.seat_users[j]);
        assert(begun.ids[m] == begun.seats[j].0);
    }
    assert forall|a: int, b: int| 0 <= a < b < begun.ids.len() implies begun.ids[a] != begun.ids[b] by {
        if b == last && begun.ids[a] == set.counter {
            assert(set.ids[a] == set.counter);
        }
    }
    assert(begun.ids[last] == set.counter);
    lemma_put_wf(begun, user_ids[0], (set.counter, 0), last);
    let first = spec_put(begun, user_ids[0], (set.counter, 0));
    lemma_put_wf(first, user_ids[1], (set.counter, 1), last);
}

/// A set that a user has left is as a set has to be.
pub proof fn lemma_disconnect_wf(set: GameSetView, user: usize)
    requires
        spec_set_wf(set),
    ensures
        spec_set_wf(spec_disconnect(set, user)),
        spec_position(set.seat_users, user) matches Some(j) ==> set.seats[j].1 < 2 && spec_position(set.ids, set.seats[j].0) is Some,
{
    let after = spec_disconnect(set, user);
    if spec_position(set.seat_users, user) is Some {
        let at = set.seat_users.index_of(user);
        assert(0 <= at < set.seat_users.len() && set.seat_users[at] == user);
        assert(spec_seat_ok(set, at));
        let k = set.ids.index_of(set.seats[at].0);
        let i = set.seats[at].1 as int;
        assert(0 <= k < set.ids.len() && set.ids[k] == set.seats[at].0);
        assert(set.slots[k].users[i] == Some(user));
        assert forall|m: int| 0 <= m < after.slots.len() implies spec_slot_ok(#[trigger] after.slots[m]) && after.ids[m] < after.counter by {
            assert(spec_slot_ok(set.slots[m]));
        }
        assert forall|j: int| 0 <= j < after.seats.len() implies #[trigger] spec_seat_ok(after, j) by {
            let n = if j < at {
                j
            } else {
                j + 1
            };
            assert(spec_seat_ok(set, n));
            let m = choose|m: int| 0 <= m < set.ids.len() && #[trigger] set.ids[m] == set.seats[n].0 && set.slots[m].users[set.seats[n].1 as int] == Some(set.seat_users[n]);
            assert(set.seat_users[n] != user);
            assert(after.ids[m] == after.seats[j].0);
        }
    }
}

/// A set in which a game has moved on is as a set has to be.
pub proof fn lemma_moved_wf(set: GameSetView, k: int, after: GameView)
    requires
        spec_set_wf(set),
        0 <= k < set.ids.len(),
        spec_wf(after),
    ensures
        spec_set_wf(spec_moved(set, k, after)),
{
    if after.finished {
        lemma_dropped_wf(set, k);
    } else {
        lemma_with_game_wf(set, k, spec_sent(after));
    }
}

impl<T> GameSet<T> {
    /// Whether the set is as a set of games has to be at all times.
    pub open spec fn wf(&self) -> bool {
        spec_set_wf(self@)
    }

    /// Whether the tables are as tables have to be.
    spec fn tables(&self) -> bool {
        self.slots.wf() && self.seats.wf()
    }

    /// A set without games.
    pub fn new() -> (set: GameSet<T>)
        ensures
            set.wf(),
            set@.counter == 0,
            set@.ids.len() == 0,
            set@.seat_users.len() == 0,
    {
        GameSet { game_id_counter: 0, slots: Table::new(), seats: Table::new() }
    }

    /// The number of games at play.
    pub fn game_count(&self) -> (n: usize)
        ensures
            n == self@.ids.len(),
    {
        self.slots.len()
    }

    /// The number of users that have a seat.
    pub fn seat_count(&self) -> (n: usize)
        ensures
            n == self@.seat_users.len(),
    {
        self.seats.len()
    }

    /// Gives a user a seat, in the place of the seat that the user had.
    fn put(&mut self, user_id: usize, seat: (usize, usize))
        requires
            old(self).tables(),
        ensures
            final(self)@ == spec_put(old(self)@, user_id, seat),
            final(self).tables(),
    {
        match self.seats.find(user_id) {
            Some(j) => {
                self.seats.replace(j, seat);
            },
            None => {
                self.seats.push(user_id, seat);
            },
        }
        proof {
            assert(self@.slots =~= old(self)@.slots);
        }
    }

    /// Takes the seat of a user away.
    fn unseat(&mut self, user: Option<usize>)
        requires
            old(self).tables(),
        ensures
            final(self)@ == spec_unseat(old(self)@, user),
            final(self).tables(),
    {
        match user {
            Some(user_id) => match self.seats.find(user_id) {
                Some(j) => {
                    self.seats.remove(j);
                },
                None => {},
            },
            None => {},
        }
        proof {
            assert(self@.slots =~= old(self)@.slots);
        }
    }

    /// Begins to keep a new game for two users, and returns its number.
    /// The game is yet to be started.
    pub fn new_game(&mut self, user_ids: &[usize; 2], meta: T, rng: &mut StdRng) -> (game_id: usize)
        requires
            old(self).wf(),
            old(self)@.counter < usize::MAX,
        ensures
            game_id == old(self)@.counter,
            final(self)@ == spec_new_game(old(self)@, user_ids@, final(self)@.slots[old(self)@.slots.len() as int].game),
            final(self).wf(),
            final(self)@.ids.contains(game_id),
            ({
                let game = final(self)@.slots[old(self)@.slots.len() as int].game;
                game.time == 0 && game.messages.len() == 0 && spec_fresh(game.players[0]) && spec_fresh(game.players[1])
            }),
    {
        let game = Game::new(rng);
        let game_id = self.game_id_counter;
        proof {
            self.lemma_tables();
            lemma_new_game_wf(self@, user_ids@, game@);
        }
        self.game_id_counter = self.game_id_counter + 1;
        self.slots.push(game_id, Slot { game, users: [Some(user_ids[0]), Some(user_ids[1])], meta });
        proof {
            assert(self@.slots =~= old(self)@.slots.push(SlotView { game: game@, users: seq![Some(user_ids@[0]), Some(user_ids@[1])] }));
        }
        self.put(user_ids[0], (game_id, 0));
        self.put(user_ids[1], (game_id, 1));
        proof {
            assert(self@.ids[old(self)@.slots.len() as int] == game_id);
        }
        game_id
    }

    /// The tables of a set that is as it has to be are as tables have to be.
    proof fn lemma_tables(&self)
        requires
            self.wf(),
        ensures
            self.tables(),
    {
    }
    /// Hands out what the game at a position has to say, each message
    /// for the user at the seat that it is for, and lets go of the game
    /// where it has ended.
    fn step(&mut self, k: usize) -> (sent: Vec<(usize, Msg)>)
        requires
            old(self).tables(),
            k < old(self)@.slots.len(),
            old(self)@.slots[k as int].users.len() == 2,
        ensures
            final(self)@ == spec_moved(old(self)@, k as int, old(self)@.slots[k as int].game),
            queue_view(sent@) == spec_translate(old(self)@.slots[k as int].game.messages, old(self)@.slots[k as int].users),
            final(self).tables(),
    {
        let slot = self.slots.value_mut(k);
        let messages = slot.game.messages();
        let sent = translate(&messages, &slot.users);
        let finished = slot.game.is_finished();
        proof {
            assert(self@.slots =~= spec_with_game(old(self)@, k as int, spec_sent(old(self)@.slots[k as int].game)).slots);
        }
        if finished {
            let (_, slot) = self.slots.remove(k);
            let ghost fewer = self@;
            proof {
                assert(fewer.slots =~= old(self)@.slots.remove(k as int));
            }
            self.unseat(slot.users[0]);
            self.unseat(slot.users[1]);
        }
        sent
    }

    /// Starts a game that was begun and has not been started.
    pub fn on_game_start(&mut self, game_id: usize) -> (sent: Vec<(usize, Msg)>)
        requires
            old(self).wf(),
            old(self)@.ids.contains(game_id),
            ({
                let game = old(self)@.slots[old(self)@.ids.index_of(game_id)].game;
                &&& game.players[0].deadline is None
                &&& game.players[1].deadline is None
                &&& game.players[0].hand.len() == 0
                &&& game.players[1].hand.len() == 0
            }),
        ensures
            ({
                let k = old(self)@.ids.index_of(game_id);
                let after = spec_on_start(old(self)@.slots[k].game);
                final(self)@ == spec_with_game(old(self)@, k, spec_sent(after)) && queue_view(sent@) == spec_translate(after.messages, old(self)@.slots[k].users)
            }),
            final(self).wf(),
    {
        proof {
            self.lemma_tables();
        }
        match self.slots.find(game_id) {
            Some(k) => {
                let ghost before = self@.slots[k as int].game;
                proof {
                    assert(spec_slot_ok(self@.slots[k as int]));
                }
                let slot = self.slots.value_mut(k);
                slot.game.on_start();
                proof {
                    assert(self@.slots =~= spec_with_game(old(self)@, k as int, spec_on_start(before)).slots);
                    assert(!spec_on_start(before).finished);
                    lemma_moved_wf(old(self)@, k as int, spec_on_start(before));
                }
                let sent = self.step(k);
                proof {
                    assert(self@.slots =~= spec_with_game(old(self)@, k as int, spec_sent(spec_on_start(before))).slots);
                }
                sent
            },
            None => Vec::new(),
        }
    }

    /// Lets a user go: the seat of the user is empty from now on.
    pub fn disconnect(&mut self, user_id: usize)
        requires
            old(self).wf(),
        ensures
            final(self)@ == spec_disconnect(old(self)@, user_id),
            final(self).wf(),
    {
        proof {
            self.lemma_tables();
            lemma_seat_of(self@, user_id);
            lemma_disconnect_wf(self@, user_id);
        }
        match self.seats.find(user_id) {
            Some(j) => {
                let (game_id, i) = *self.seats.value(j);
                match self.slots.find(game_id) {
                    Some(k) => {
                        proof {
                            assert(spec_slot_ok(self@.slots[k as int]));
                        }
                        let slot = self.slots.value_mut(k);
                        slot.users[i] = None;
                        self.seats.remove(j);
                        proof {
                            assert(self@.slots =~= spec_disconnect(old(self)@, user_id).slots);
                        }
                    },
                    None => {},
                }
            },
            None => {},
        }
    }

    /// Takes a message of a user for the game that the user has a seat
    /// of, and hands out what the game has to say. A game that has ended
    /// is let go of. A message of a user without seat does nothing.
    pub fn on_message(&mut self, user_id: usize, msg: Msg) -> (sent: Vec<(usize, Msg)>)
        requires
            old(self).wf(),
        ensures
            match spec_seat_of(old(self)@, user_id) {
                Some((k, i)) => exists|ron: Option<MsgView>|
                    {
                        &&& #[trigger] spec_message_ron(old(self)@.slots[k].game, i, msg@, ron)
                        &&& final(self)@ == spec_moved(old(self)@, k, spec_on_message(old(self)@.slots[k].game, i, msg@, ron))
                        &&& queue_view(sent@) == spec_translate(spec_on_message(old(self)@.slots[k].game, i, msg@, ron).messages, old(self)@.slots[k].users)
                    },
                None => final(self)@ == old(self)@ && sent@.len() == 0,
            },
            final(self).wf(),
    {
        proof {
            self.lemma_tables();
            lemma_seat_of(self@, user_id);
        }
        match self.seats.find(user_id) {
            Some(j) => {
                let (game_id, i) = *self.seats.value(j);
                match self.slots.find(game_id) {
                    Some(k) => {
                        let ghost before = self@.slots[k as int].game;
                        proof {
                            assert(spec_slot_ok(self@.slots[k as int]));
                        }
                        let slot = self.slots.value_mut(k);
                        slot.game.on_message(i, msg);
                        let ghost after = self@.slots[k as int].game;
                        proof {
                            assert(self@.slots =~= spec_with_game(old(self)@, k as int, after).slots);
                            lemma_moved_wf(old(self)@, k as int, after);
                        }
                        let sent = self.step(k);
                        proof {
                            let ron = choose|ron: Option<MsgView>| #[trigger] spec_message_ron(before, i, msg@, ron) && after == spec_on_message(before, i, msg@, ron);
                            assert(spec_with_game(old(self)@, k as int, after).slots.remove(k as int) =~= old(self)@.slots.remove(k as int));
                            assert(spec_with_game(spec_with_game(old(self)@, k as int, after), k as int, spec_sent(after)).slots =~= spec_with_game(old(self)@, k as int, spec_sent(after)).slots);
                            assert(self@ == spec_moved(old(self)@, k as int, after));
                        }
                        sent
                    },
                    None => Vec::new(),
                }
            },
            None => Vec::new(),
        }
    }
    /// Moves the clock of each game on by one tick, in the order in
    /// which the games began, and hands out what the games have to say.
    /// A game that has ended is let go of.
    pub fn beat(&mut self) -> (sent: Vec<(usize, Msg)>)
        requires
            old(self).wf(),
            forall|k: int| 0 <= k < old(self)@.slots.len() ==> (#[trigger] old(self)@.slots[k]).game.time + 201 <= usize::MAX,
        ensures
            final(self)@ == spec_beat_from(old(self)@, 0).0,
            queue_view(sent@) == spec_beat_from(old(self)@, 0).1,
            final(self).wf(),
    {
        let mut sent: Vec<(usize, Msg)> = Vec::new();
        let mut k: usize = 0;
        proof {
            assert(queue_view(sent@) + spec_beat_from(self@, 0).1 =~= spec_beat_from(self@, 0).1);
        }
        while k < self.slots.len()
            invariant
                self.wf(),
                k <= self@.slots.len(),
                forall|m: int| k <= m < self@.slots.len() ==> (#[trigger] self@.slots[m]).game.time + 201 <= usize::MAX,
                spec_beat_from(old(self)@, 0).0 == spec_beat_from(self@, k as int).0,
                spec_beat_from(old(self)@, 0).1 == queue_view(sent@) + spec_beat_from(self@, k as int).1,
            decreases self@.slots.len() - k,
        {
            let ghost set = self@;
            let ghost before = queue_view(sent@);
            proof {
                self.lemma_tables();
                assert(spec_slot_ok(set.slots[k as int]));
            }
            let slot = self.slots.value_mut(k);
            slot.game.beat();
            let finished = slot.game.is_finished();
            let ghost after = spec_beat(set.slots[k as int].game);
            proof {
                assert(self@.slots =~= spec_with_game(set, k as int, after).slots);
                lemma_moved_wf(set, k as int, after);
            }
            let mut said = self.step(k);
            let ghost told = queue_view(said@);
            sent.append(&mut said);
            proof {
                assert(spec_with_game(set, k as int, after).slots.remove(k as int) =~= set.slots.remove(k as int));
                assert(spec_with_game(spec_with_game(set, k as int, after), k as int, spec_sent(after)).slots =~= spec_with_game(set, k as int, spec_sent(after)).slots);
                assert(self@ == spec_moved(set, k as int, after));
                assert(queue_view(sent@) =~= before + told);
                let next = if finished {
                    k as int
                } else {
                    k + 1
                };
                let rest = spec_beat_from(self@, next);
                assert(spec_beat_from(set, k as int) == (rest.0, told + rest.1));
                assert(before + (told + rest.1) =~= (before + told) + rest.1);
                if finished {
                    lemma_dropped_slots(set, k as int);
                    assert forall|m: int| k <= m < self@.slots.len() implies (#[trigger] self@.slots[m]).game.time + 201 <= usize::MAX by {
                        assert(self@.slots[m] == set.slots[m + 1]);
                    }
                } else {
                    assert forall|m: int| k + 1 <= m < self@.slots.len() implies (#[trigger] self@.slots[m]).game.time + 201 <= usize::MAX by {
                        assert(self@.slots[m] == set.slots[m]);
                    }
                }
            }
            if !finished {
                k = k + 1;
            }
        }
        proof {
            assert(queue_view(sent@) + Seq::<(usize, MsgView)>::empty() =~= queue_view(sent@));
        }
        sent
    }
}

} // verus!
