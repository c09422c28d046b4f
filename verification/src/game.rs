//! One game between two players: who is to move, what each may do, and
//! when the game ends.

use crate::fu::spec_fu;
use crate::hand::Hand;
use crate::protocol::{queue_view, MoveType, Msg, MsgView};
use crate::random::{in_range, shuffle};
use crate::score::{spec_counted_fan, spec_tier, spec_tier_points, Score};
use crate::search::{find_all_waits, search, spec_all_waits, spec_wins};
use crate::tiles::{NUM_TILES, Tile};
use crate::yaku::{spec_total_fan, spec_yaku_list, Yaku};
use rand::rngs::StdRng;
use vstd::prelude::*;

verus! {

/// The tiles that each player is dealt.
pub const PLAYER_TILES: usize = 34;

/// The discards of each player in a game that nobody wins.
pub const DISCARDS: usize = 17;

/// The time that a player has for a discard.
pub const DISCARD_TIME_LIMIT: usize = 15;

/// The time that a player has to choose a hand.
pub const HAND_TIME_LIMIT: usize = 180;

/// The time by which a move may be late.
pub const EXTRA_TIME: usize = 10;

/// What `Game` reports. Nothing of the library returns it.
pub enum GameError {
    Abort { culprit: usize, description: usize },
}

/// A player of a game.
pub struct Player {
    tiles: Vec<Tile>,
    is_east: bool,
    deadline: Option<usize>,
    hand: Vec<Tile>,
    discards: Vec<Tile>,
    furiten: bool,
    waits: Vec<Tile>,
}

/// What a `Player` holds: the tiles left to choose from, the seat, the
/// time by which the move asked for is due, the hand, the discards,
/// whether the player has let a winning tile pass, and the faces that
/// complete the hand.
pub struct PlayerView {
    pub tiles: Seq<Tile>,
    pub is_east: bool,
    pub deadline: Option<usize>,
    pub hand: Seq<Tile>,
    pub discards: Seq<Tile>,
    pub furiten: bool,
    pub waits: Seq<Tile>,
}

impl View for Player {
    type V = PlayerView;

    closed spec fn view(&self) -> PlayerView {
        PlayerView {
            tiles: self.tiles@,
            is_east: self.is_east,
            deadline: self.deadline,
            hand: self.hand@,
            discards: self.discards@,
            furiten: self.furiten,
            waits: self.waits@,
        }
    }
}

/// The position of the first tile of a face in a list.
pub open spec fn spec_find(tiles: Seq<Tile>, tile: Tile) -> Option<int> {
    if tiles.contains(tile) {
        Some(choose|i: int| 0 <= i < tiles.len() && tiles[i] == tile && forall|j: int| 0 <= j < i ==> tiles[j] != tile)
    } else {
        None
    }
}

/// The first tile of a face has one position.
pub proof fn lemma_find(tiles: Seq<Tile>, tile: Tile, at: int)
    requires
        0 <= at < tiles.len(),
        tiles[at] == tile,
        forall|j: int| 0 <= j < at ==> tiles[j] != tile,
    ensures
        spec_find(tiles, tile) == Some(at),
{
    let i = choose|i: int| 0 <= i < tiles.len() && tiles[i] == tile && forall|j: int| 0 <= j < i ==> tiles[j] != tile;
    if i < at {
        assert(tiles[i] != tile);
    }
    if at < i {
        assert(tiles[at] != tile);
    }
}

/// The tiles left of a list after the tiles of a hand are taken out one
/// after the other, each time the first tile of the face; and whether
/// each was there. Where one is missing, those before it are taken out.
pub open spec fn spec_take(tiles: Seq<Tile>, hand: Seq<Tile>) -> (Seq<Tile>, bool)
    decreases hand.len(),
{
    if hand.len() == 0 {
        (tiles, true)
    } else {
        match spec_find(tiles, hand[0]) {
            Some(at) => spec_take(tiles.remove(at), hand.drop_first()),
            None => (tiles, false),
        }
    }
}

/// A player who is given a hand: the player after it, and why the hand
/// is refused, if it is.
pub open spec fn spec_set_hand(player: PlayerView, hand: Seq<Tile>) -> (PlayerView, Option<Seq<char>>) {
    if player.deadline is None || player.hand.len() != 0 {
        (player, Some("not expecting a hand"@))
    } else if hand.len() != 13 {
        (player, Some("len != 13"@))
    } else {
        let taken = spec_take(player.tiles, hand);
        if taken.1 {
            (PlayerView { tiles: taken.0, hand: hand, waits: spec_all_waits(hand), ..player }, None)
        } else {
            (PlayerView { tiles: taken.0, ..player }, Some("tile not found in choices"@))
        }
    }
}

/// A player who discards a tile: the player after it, and why the
/// discard is refused, if it is.
pub open spec fn spec_player_discard(player: PlayerView, tile: Tile) -> (PlayerView, Option<Seq<char>>) {
    if player.deadline is None || player.hand.len() == 0 {
        (player, Some("not expecting a discard"@))
    } else {
        match spec_find(player.tiles, tile) {
            Some(at) => (
                PlayerView {
                    tiles: player.tiles.remove(at),
                    discards: player.discards.push(tile),
                    furiten: player.furiten || player.waits.contains(tile),
                    ..player
                },
                None,
            ),
            None => (player, Some("tile not found in choices"@)),
        }
    }
}

impl Player {
    /// A player with the given tiles to choose from.
    fn new(tiles: &[Tile], is_east: bool) -> (player: Player)
        ensures
            player@ == (PlayerView {
                tiles: tiles@,
                is_east: is_east,
                deadline: None,
                hand: Seq::empty(),
                discards: Seq::empty(),
                furiten: false,
                waits: Seq::empty(),
            }),
    {
        Player {
            tiles: vstd::slice::slice_to_vec(tiles),
            is_east,
            deadline: None,
            hand: Vec::new(),
            discards: Vec::new(),
            furiten: false,
            waits: Vec::new(),
        }
    }

    /// The position of the first tile of a face among the tiles to
    /// choose from.
    fn find_choice(&self, tile: Tile) -> (found: Result<usize, &'static str>)
        ensures
            found matches Ok(at) ==> spec_find(self@.tiles, tile) == Some(at as int) && at < self@.tiles.len(),
            found matches Err(why) ==> spec_find(self@.tiles, tile) is None && why@ == "tile not found in choices"@,
    {
        let mut i: usize = 0;
        while i < self.tiles.len()
            invariant
                i <= self.tiles@.len(),
                forall|j: int| 0 <= j < i ==> self.tiles@[j] != tile,
            decreases self.tiles@.len() - i,
        {
            if self.tiles[i] == tile {
                proof {
                    lemma_find(self.tiles@, tile, i as int);
                }
                return Ok(i);
            }
            i = i + 1;
        }
        Err("tile not found in choices")
    }

    /// Takes the hand that the player chose out of the tiles to choose
    /// from, and finds the faces that complete it.
    fn set_hand(&mut self, hand: &[Tile]) -> (done: Result<(), &'static str>)
        ensures
            final(self)@ == spec_set_hand(old(self)@, hand@).0,
            done is Ok <==> spec_set_hand(old(self)@, hand@).1 is None,
            done matches Err(why) ==> Some(why@) == spec_set_hand(old(self)@, hand@).1,
    {
        if !self.deadline.is_some() || self.hand.len() != 0 {
            return Err("not expecting a hand");
        }
        if hand.len() != 13 {
            return Err("len != 13");
        }
        let mut i: usize = 0;
        proof {
            assert(hand@.subrange(0, 13) =~= hand@);
        }
        while i < 13
            invariant
                i <= 13,
                hand@.len() == 13,
                old(self).deadline is Some,
                old(self).hand@.len() == 0,
                self.is_east == old(self).is_east,
                self.deadline == old(self).deadline,
                self.hand == old(self).hand,
                self.discards == old(self).discards,
                self.furiten == old(self).furiten,
                self.waits == old(self).waits,
                spec_take(old(self)@.tiles, hand@) == spec_take(self.tiles@, hand@.subrange(i as int, 13)),
            decreases 13 - i,
        {
            let ghost rest = hand@.subrange(i as int, 13);
            proof {
                assert(rest[0] == hand@[i as int]);
                assert(rest.drop_first() =~= hand@.subrange(i + 1, 13));
            }
            match self.find_choice(hand[i]) {
                Ok(at) => {
                    self.tiles.remove(at);
                },
                Err(why) => {
                    proof {
                        assert(spec_take(self.tiles@, rest) == (self.tiles@, false));
                    }
                    return Err(why);
                },
            }
            i = i + 1;
        }
        let waits = find_all_waits(hand);
        self.hand = vstd::slice::slice_to_vec(hand);
        self.waits = waits;
        Ok(())
    }

    /// Notes a discard of the player.
    fn discard(&mut self, tile: Tile) -> (done: Result<(), &'static str>)
        requires
            old(self)@.deadline is Some ==> old(self)@.discards.len() < DISCARDS,
        ensures
            final(self)@ == spec_player_discard(old(self)@, tile).0,
            done is Ok <==> spec_player_discard(old(self)@, tile).1 is None,
            done matches Err(why) ==> Some(why@) == spec_player_discard(old(self)@, tile).1,
    {
        if !self.deadline.is_some() || self.hand.len() == 0 {
            return Err("not expecting a discard");
        }
        let at = match self.find_choice(tile) {
            Ok(at) => at,
            Err(why) => {
                return Err(why);
            },
        };
        self.tiles.remove(at);
        self.discards.push(tile);
        if holds_tile(&self.waits, tile) {
            self.furiten = true;
        }
        Ok(())
    }

    /// Whether the player has made all discards of a game.
    fn finished(&self) -> (done: bool)
        ensures
            done == (self@.discards.len() == DISCARDS),
    {
        self.discards.len() == DISCARDS
    }
}

/// Whether a face is in a list of tiles.
fn holds_tile(tiles: &Vec<Tile>, tile: Tile) -> (found: bool)
    ensures
        found == tiles@.contains(tile),
{
    let mut i: usize = 0;
    while i < tiles.len()
        invariant
            i <= tiles@.len(),
            forall|j: int| 0 <= j < i ==> tiles@[j] != tile,
        decreases tiles@.len() - i,
    {
        if tiles[i] == tile {
            return true;
        }
        i = i + 1;
    }
    false
}

/// The patterns that the course of play gives a player who wins by a
/// discard at a turn: ready always, first turn, last discard.
pub open spec fn spec_ron_special(turn: int) -> Seq<Yaku> {
    seq![Yaku::Riichi] + (if turn == 0 { seq![Yaku::Ippatsu] } else { Seq::empty() }) + (if turn == DISCARDS - 1 { seq![Yaku::Hotei] } else { Seq::empty() })
}

/// The seat wind: east for the east seat, west for the other.
pub open spec fn spec_seat_wind(is_east: bool) -> Tile {
    if is_east {
        Tile::X1
    } else {
        Tile::X3
    }
}

/// The turn of a player at a discard of the opponent, counted from 0.
pub open spec fn spec_turn(player: PlayerView) -> int {
    if player.is_east {
        player.discards.len() - 1
    } else {
        player.discards.len() as int
    }
}

/// The limit tier of a hand with a number of dora tiles.
pub open spec fn spec_limit_with(hand: Hand, player_wind: Tile, special: Seq<Yaku>, doras: int) -> int {
    spec_tier(spec_counted_fan(spec_total_fan(hand, player_wind, special) as int, doras), spec_fu(hand, player_wind))
}

/// The tiles of a hand that are of a face.
pub open spec fn spec_doras(hand: Hand, dora: Tile) -> int {
    hand.spec_tiles().to_multiset().count(dora) as int
}

/// Whether a hand lets a player win by a discard: it is a winning hand
/// of the player's tiles and the discard, and with the dora alone it
/// reaches a limit tier above 0.
pub open spec fn spec_ron_counts(player: PlayerView, tile: Tile, dora_ind: Tile, hand: Hand) -> bool {
    &&& spec_wins(player.hand.push(tile).to_multiset(), tile, hand)
    &&& spec_limit_with(hand, spec_seat_wind(player.is_east), spec_ron_special(spec_turn(player)), spec_doras(hand, dora_ind.spec_next_wrap())) > 0
}

/// The dora and uradora tiles of a hand.
pub open spec fn spec_ron_doras(hand: Hand, dora_ind: Tile, uradora_ind: Tile) -> int {
    spec_doras(hand, dora_ind.spec_next_wrap()) + spec_doras(hand, uradora_ind.spec_next_wrap())
}

/// The limit tier of a hand that wins by a discard, with dora and uradora.
pub open spec fn spec_ron_limit(player: PlayerView, dora_ind: Tile, uradora_ind: Tile, hand: Hand) -> int {
    spec_limit_with(hand, spec_seat_wind(player.is_east), spec_ron_special(spec_turn(player)), spec_ron_doras(hand, dora_ind, uradora_ind))
}

/// The message that tells of a win by a discard with a hand.
pub open spec fn spec_ron_msg(player: PlayerView, i: usize, tile: Tile, dora_ind: Tile, uradora_ind: Tile, hand: Hand) -> MsgView {
    let limit = spec_ron_limit(player, dora_ind, uradora_ind, hand);
    MsgView::Ron {
        player: i,
        hand: player.hand,
        tile: tile,
        limit: limit as usize,
        yaku: spec_yaku_list(hand, spec_seat_wind(player.is_east), spec_ron_special(spec_turn(player))),
        dora: spec_ron_doras(hand, dora_ind, uradora_ind) as usize,
        uradora_ind: uradora_ind,
        points: spec_tier_points(limit) as usize,
    }
}

/// Whether a player can win by a discard at all: the face completes the
/// hand, and the player has not let a winning tile pass.
pub open spec fn spec_can_ron(player: PlayerView, tile: Tile) -> bool {
    player.waits.contains(tile) && !player.furiten
}

/// Whether a message, or none, is what a discard of the opponent brings
/// a player: the message of a win with one of the hands of the highest
/// limit tier among those that let the player win, if there is one.
pub open spec fn spec_ron(player: PlayerView, i: usize, tile: Tile, dora_ind: Tile, uradora_ind: Tile, msg: Option<MsgView>) -> bool {
    if !spec_can_ron(player, tile) {
        msg is None
    } else {
        match msg {
            None => forall|hand: Hand| !#[trigger] spec_ron_counts(player, tile, dora_ind, hand),
            Some(m) => exists|hand: Hand|
                {
                    &&& #[trigger] spec_ron_counts(player, tile, dora_ind, hand)
                    &&& m == spec_ron_msg(player, i, tile, dora_ind, uradora_ind, hand)
                    &&& forall|other: Hand| #[trigger]
                        spec_ron_counts(player, tile, dora_ind, other) ==> spec_ron_limit(player, dora_ind, uradora_ind, other) <= spec_ron_limit(
                            player,
                            dora_ind,
                            uradora_ind,
                            hand,
                        )
                },
        }
    }
}

/// A player after a discard of the opponent: one who could have won and
/// did not has let a winning tile pass.
pub open spec fn spec_after_ron(player: PlayerView, tile: Tile, won: bool) -> PlayerView {
    PlayerView { furiten: player.furiten || (spec_can_ron(player, tile) && !won), ..player }
}

impl Player {
    /// What a discard of the opponent brings the player: the message of
    /// the win, or nothing.
    fn check_ron(&mut self, i: usize, tile: Tile, dora_ind: Tile, uradora_ind: Tile) -> (won: Option<Msg>)
        requires
            old(self)@.waits.len() > 0 ==> old(self)@.hand.len() == 13,
            old(self)@.is_east ==> old(self)@.discards.len() >= 1,
            old(self)@.discards.len() <= DISCARDS,
        ensures
            spec_ron(old(self)@, i, tile, dora_ind, uradora_ind, match won { Some(m) => Some(m@), None => None }),
            final(self)@ == spec_after_ron(old(self)@, tile, won is Some),
    {
        if !holds_tile(&self.waits, tile) {
            return None;
        }
        if self.furiten {
            return None;
        }
        let ghost player = self@;
        let player_wind = if self.is_east {
            Tile::X1
        } else {
            Tile::X3
        };
        let dora = dora_ind.next_wrap();
        let uradora = uradora_ind.next_wrap();
        let turn: usize = if self.is_east {
            self.discards.len() - 1
        } else {
            self.discards.len()
        };
        let mut full_hand = vstd::slice::slice_to_vec(self.hand.as_slice());
        full_hand.push(tile);
        let hands = search(full_hand.as_slice(), tile);
        let mut special: Vec<Yaku> = Vec::new();
        special.push(Yaku::Riichi);
        if turn == 0 {
            special.push(Yaku::Ippatsu);
        }
        if turn == DISCARDS - 1 {
            special.push(Yaku::Hotei);
        }
        proof {
            assert(special@ =~= spec_ron_special(spec_turn(player)));
            assert(full_hand@ =~= player.hand.push(tile));
        }
        proof {
            assert forall|j: int| 0 <= j < hands@.len() implies (#[trigger] hands@[j]).wf() && spec_wins(player.hand.push(tile).to_multiset(), tile, hands@[j]) by {
                assert(hands@.contains(hands@[j]));
            }
        }
        let mut best: Option<Score> = None;
        let mut best_limit: usize = 0;
        let ghost mut at: int = 0;
        let mut k: usize = 0;
        while k < hands.len()
            invariant
                k <= hands@.len(),
                player == old(self)@,
                *self == *old(self),
                special@ == spec_ron_special(spec_turn(player)),
                player_wind == spec_seat_wind(player.is_east),
                dora == dora_ind.spec_next_wrap(),
                uradora == uradora_ind.spec_next_wrap(),
                forall|j: int| 0 <= j < hands@.len() ==> (#[trigger] hands@[j]).wf() && spec_wins(player.hand.push(tile).to_multiset(), tile, hands@[j]),
                best is None ==> forall|j: int| 0 <= j < k ==> !spec_ron_counts(player, tile, dora_ind, #[trigger] hands@[j]),
                best matches Some(score) ==> {
                    &&& 0 <= at < k
                    &&& spec_ron_counts(player, tile, dora_ind, hands@[at])
                    &&& best_limit == spec_ron_limit(player, dora_ind, uradora_ind, hands@[at])
                    &&& score.yaku@ == spec_yaku_list(hands@[at], player_wind, special@)
                    &&& score.dora_count == spec_ron_doras(hands@[at], dora_ind, uradora_ind)
                    &&& score.yaku@.len() <= 40
                    &&& crate::yaku::spec_fan_sum(score.yaku@) == spec_total_fan(hands@[at], player_wind, special@)
                    &&& score.fu == spec_fu(hands@[at], player_wind)
                    &&& forall|j: int| 0 <= j < k && spec_ron_counts(player, tile, dora_ind, #[trigger] hands@[j]) ==> spec_ron_limit(player, dora_ind, uradora_ind, hands@[j]) <= best_limit
                },
            decreases hands@.len() - k,
        {
            let mut score = Score::from_hand(&hands[k], player_wind, special.as_slice());
            score.add_dora(dora);
            if score.limit() != 0 {
                score.add_dora(uradora);
                let limit = score.limit();
                if best.is_none() || limit >= best_limit {
                    best = Some(score);
                    best_limit = limit;
                    proof {
                        at = k as int;
                    }
                }
            }
            k = k + 1;
        }
        match best {
            Some(score) => {
                let limit = score.limit();
                let points = score.points();
                let msg = Msg::Ron {
                    player: i,
                    hand: vstd::slice::slice_to_vec(self.hand.as_slice()),
                    tile,
                    yaku: score.yaku,
                    dora: score.dora_count,
                    uradora_ind,
                    limit,
                    points,
                };
                proof {
                    let hand = hands@[at];
                    assert(msg@ == spec_ron_msg(player, i, tile, dora_ind, uradora_ind, hand));
                    assert forall|other: Hand| #[trigger] spec_ron_counts(player, tile, dora_ind, other) implies spec_ron_limit(player, dora_ind, uradora_ind, other)
                        <= spec_ron_limit(player, dora_ind, uradora_ind, hand) by {
                        assert(hands@.contains(other));
                        let j = choose|j: int| 0 <= j < hands@.len() && hands@[j] == other;
                        assert(spec_ron_counts(player, tile, dora_ind, hands@[j]));
                    }
                }
                Some(msg)
            },
            None => {
                proof {
                    assert forall|hand: Hand| !#[trigger] spec_ron_counts(player, tile, dora_ind, hand) by {
                        if spec_ron_counts(player, tile, dora_ind, hand) {
                            assert(hands@.contains(hand));
                            let j = choose|j: int| 0 <= j < hands@.len() && hands@[j] == hand;
                            assert(!spec_ron_counts(player, tile, dora_ind, hands@[j]));
                        }
                    }
                }
                self.furiten = true;
                None
            },
        }
    }
}

/// One game: the seats, the two players, the dora indicators, whether
/// the game has ended, the time, and the messages that wait to be sent.
pub struct Game {
    east: usize,
    players: [Player; 2],
    dora_ind: Tile,
    uradora_ind: Tile,
    finished: bool,
    time: usize,
    messages: Vec<(usize, Msg)>,
}

/// What a `Game` holds.
pub struct GameView {
    pub east: usize,
    pub players: Seq<PlayerView>,
    pub dora_ind: Tile,
    pub uradora_ind: Tile,
    pub finished: bool,
    pub time: usize,
    pub messages: Seq<(usize, MsgView)>,
}

impl View for Game {
    type V = GameView;

    closed spec fn view(&self) -> GameView {
        GameView {
            east: self.east,
            players: Seq::new(2, |i: int| self.players[i]@),
            dora_ind: self.dora_ind,
            uradora_ind: self.uradora_ind,
            finished: self.finished,
            time: self.time,
            messages: queue_view(self.messages@),
        }
    }
}

/// The game with one more message for a player.
pub open spec fn spec_send(game: GameView, i: usize, msg: MsgView) -> GameView {
    GameView { messages: game.messages.push((i, msg)), ..game }
}

/// The game with one more message for each player.
pub open spec fn spec_send_both(game: GameView, msg: MsgView) -> GameView {
    spec_send(spec_send(game, 0, msg), 1, msg)
}

/// The game with another state of one player.
pub open spec fn spec_with_player(game: GameView, i: int, player: PlayerView) -> GameView {
    GameView { players: game.players.update(i, player), ..game }
}

/// The time that a player has for a move.
pub open spec fn spec_time_limit(move_type: MoveType) -> usize {
    match move_type {
        MoveType::Hand => HAND_TIME_LIMIT,
        MoveType::Discard => DISCARD_TIME_LIMIT,
    }
}

/// The game after a player is asked for a move.
pub open spec fn spec_start_move(game: GameView, i: usize, move_type: MoveType) -> GameView {
    let limit = spec_time_limit(move_type);
    spec_send(
        spec_with_player(game, i as int, PlayerView { deadline: Some((game.time + limit + EXTRA_TIME) as usize), ..game.players[i as int] }),
        i,
        MsgView::StartMove { move_type: move_type, time_limit: limit },
    )
}

/// The game after the move of a player came.
pub open spec fn spec_end_move(game: GameView, i: usize) -> GameView {
    spec_send(spec_with_player(game, i as int, PlayerView { deadline: None, ..game.players[i as int] }), i, MsgView::EndMove)
}

/// The game after it is broken off for what a player did.
pub open spec fn spec_abort(game: GameView, culprit: usize, description: Seq<char>) -> GameView {
    spec_send_both(GameView { finished: true, ..game }, MsgView::Abort { culprit: culprit, description: description })
}

/// The message that shows a player the tiles to choose from.
pub open spec fn spec_phase_one(game: GameView, i: usize) -> MsgView {
    MsgView::PhaseOne { tiles: game.players[i as int].tiles, dora_ind: game.dora_ind, you: i, east: game.east }
}

/// The game after it is begun: each player is shown the tiles and asked
/// for a hand.
pub open spec fn spec_on_start(game: GameView) -> GameView {
    let first = spec_start_move(spec_send(game, 0, spec_phase_one(game, 0)), 0, MoveType::Hand);
    spec_start_move(spec_send(first, 1, spec_phase_one(game, 1)), 1, MoveType::Hand)
}

/// Whether both players have chosen their hands.
pub open spec fn spec_phase2(game: GameView) -> bool {
    game.players[0].hand.len() != 0 && game.players[1].hand.len() != 0
}

/// The game after a player names a hand.
pub open spec fn spec_on_hand(game: GameView, i: usize, hand: Seq<Tile>) -> GameView {
    let set = spec_set_hand(game.players[i as int], hand);
    let with_hand = spec_with_player(game, i as int, set.0);
    match set.1 {
        Some(why) => spec_abort(with_hand, i, why),
        None => {
            let told = spec_send(spec_end_move(with_hand, i), i, MsgView::Hand { hand: hand });
            if spec_phase2(told) {
                spec_start_move(spec_send_both(told, MsgView::PhaseTwo), game.east, MoveType::Discard)
            } else {
                spec_send(told, i, MsgView::WaitForPhaseTwo)
            }
        },
    }
}

/// The game after a player names a discard, where `ron` is what the
/// discard brings the opponent.
pub open spec fn spec_on_discard(game: GameView, i: usize, tile: Tile, ron: Option<MsgView>) -> GameView {
    if !spec_phase2(game) {
        spec_abort(game, i, "discard too soon"@)
    } else {
        let made = spec_player_discard(game.players[i as int], tile);
        let with_discard = spec_with_player(game, i as int, made.0);
        match made.1 {
            Some(why) => spec_abort(with_discard, i, why),
            None => {
                let shown = MsgView::Discarded { player: i, tile: tile };
                let told = spec_send(spec_send(spec_end_move(with_discard, i), 0, shown), 1, shown);
                let other = told.players[1 - i];
                let seen = spec_with_player(told, 1 - i, spec_after_ron(other, tile, ron is Some));
                spec_settle(seen, i, ron)
            },
        }
    }
}

/// The game after a discard was shown and the opponent has looked at
/// it: ended where the opponent won or where it was the last discard of
/// all; else the opponent is asked for a discard.
pub open spec fn spec_settle(game: GameView, i: usize, ron: Option<MsgView>) -> GameView {
    match ron {
        Some(msg) => GameView { finished: true, ..spec_send_both(game, msg) },
        None => if game.players[0].discards.len() == DISCARDS && game.players[1].discards.len() == DISCARDS {
            GameView { finished: true, ..spec_send_both(game, MsgView::Draw) }
        } else {
            spec_start_move(game, (1 - i) as usize, MoveType::Discard)
        },
    }
}

/// Whether `ron` is what the discard of a player brings the opponent, or
/// nothing where the discard is refused.
pub open spec fn spec_discard_ron(game: GameView, i: usize, tile: Tile, ron: Option<MsgView>) -> bool {
    let made = spec_player_discard(game.players[i as int], tile);
    if spec_phase2(game) && made.1 is None {
        spec_ron(game.players[1 - i], (1 - i) as usize, tile, game.dora_ind, game.uradora_ind, ron)
    } else {
        ron is None
    }
}

/// The game after a message of a player.
pub open spec fn spec_on_message(game: GameView, i: usize, msg: MsgView, ron: Option<MsgView>) -> GameView {
    match msg {
        MsgView::Hand { hand } => spec_on_hand(game, i, hand),
        MsgView::Discard { tile } => spec_on_discard(game, i, tile, ron),
        _ => spec_abort(game, i, "unexpected message"@),
    }
}

/// Whether `ron` is what a message of a player brings the opponent.
pub open spec fn spec_message_ron(game: GameView, i: usize, msg: MsgView, ron: Option<MsgView>) -> bool {
    match msg {
        MsgView::Discard { tile } => spec_discard_ron(game, i, tile, ron),
        _ => ron is None,
    }
}

/// The game after a tick of the clock: it is broken off where a move is
/// due and has not come.
pub open spec fn spec_beat(game: GameView) -> GameView {
    let later = GameView { time: (game.time + 1) as usize, ..game };
    if later.players[0].deadline == Some(later.time) {
        spec_abort(later, 0, "time limit exceeded"@)
    } else if later.players[1].deadline == Some(later.time) {
        spec_abort(later, 1, "time limit exceeded"@)
    } else {
        later
    }
}

/// What holds of each player at all times: no hand or a hand of thirteen
/// tiles, no more discards than a game has, and neither discards nor
/// awaited faces without a hand.
pub open spec fn spec_player_wf(player: PlayerView) -> bool {
    &&& player.hand.len() == 0 || player.hand.len() == 13
    &&& player.discards.len() <= DISCARDS
    &&& player.hand.len() == 0 ==> player.discards.len() == 0 && player.waits.len() == 0
}

/// The player who is to discard, where both have chosen their hands:
/// east where both have discarded equally often, else the other.
pub open spec fn spec_mover(game: GameView) -> int {
    if game.players[game.east as int].discards.len() == game.players[1 - game.east].discards.len() {
        game.east as int
    } else {
        1 - game.east
    }
}

/// What holds of a game at all times: there is one east seat; the clock
/// has room to run; while hands are chosen, who has chosen is not asked
/// again; while tiles are discarded, east is at most one discard ahead,
/// the player who is to discard is asked and the other is not, and has
/// discards left.
pub open spec fn spec_wf(game: GameView) -> bool {
    &&& game.players.len() == 2
    &&& game.east < 2
    &&& game.players[game.east as int].is_east
    &&& !game.players[1 - game.east].is_east
    &&& game.time + 200 <= usize::MAX
    &&& spec_player_wf(game.players[0])
    &&& spec_player_wf(game.players[1])
    &&& !spec_phase2(game) ==> game.players[0].discards.len() == 0 && game.players[1].discards.len() == 0
    &&& !game.finished && !spec_phase2(game) ==> {
        &&& game.players[0].hand.len() != 0 ==> game.players[0].deadline is None
        &&& game.players[1].hand.len() != 0 ==> game.players[1].deadline is None
    }
    &&& !game.finished && spec_phase2(game) ==> {
        let east = game.players[game.east as int].discards.len();
        let west = game.players[1 - game.east].discards.len();
        &&& east == west || east == west + 1
        &&& west < DISCARDS
        &&& game.players[spec_mover(game)].deadline is Some
        &&& game.players[1 - spec_mover(game)].deadline is None
    }
}

/// All 136 tiles: the 34 faces in ascending order, four times over.
pub open spec fn spec_all_tiles() -> Seq<Tile> {
    Seq::new(136, |i: int| Tile::of_index(i % 34))
}

/// All 136 tiles.
pub fn all_tiles() -> (tiles: Vec<Tile>)
    ensures
        tiles@ == spec_all_tiles(),
{
    let mut result: Vec<Tile> = Vec::new();
    let mut round: usize = 0;
    while round < 4
        invariant
            round <= 4,
            result@.len() == 34 * round,
            forall|k: int| 0 <= k < result@.len() ==> result@[k] == Tile::of_index(k % 34),
        decreases 4 - round,
    {
        let mut i: usize = 0;
        while i < NUM_TILES
            invariant
                i <= NUM_TILES,
                round < 4,
                result@.len() == 34 * round + i,
                forall|k: int| 0 <= k < result@.len() ==> result@[k] == Tile::of_index(k % 34),
            decreases NUM_TILES - i,
        {
            if let Some(tile) = Tile::from_index(i) {
                result.push(tile);
            }
            i = i + 1;
        }
        round = round + 1;
    }
    proof {
        assert(result@ =~= spec_all_tiles());
    }
    result
}

impl Game {
    /// Whether the game is as it has to be at all times.
    pub open spec fn wf(&self) -> bool {
        spec_wf(self@)
    }

    /// A game with all tiles in an order of chance and east at a seat of
    /// chance.
    pub fn new(rng: &mut StdRng) -> (game: Game)
        ensures
            game.wf(),
            !game@.finished,
            game@.time == 0,
            game@.messages.len() == 0,
            spec_fresh(game@.players[0]),
            spec_fresh(game@.players[1]),
            (game@.players[0].tiles + game@.players[1].tiles + seq![game@.dora_ind, game@.uradora_ind]).to_multiset().subset_of(
                spec_all_tiles().to_multiset(),
            ),
    {
        let mut tiles = all_tiles();
        shuffle(&mut tiles, rng);
        proof {
            broadcast use vstd::seq_lib::group_to_multiset_ensures;
            assert(tiles@.len() == tiles@.to_multiset().len());
            assert(spec_all_tiles().len() == spec_all_tiles().to_multiset().len());
        }
        let east = in_range(rng, 0, 2);
        let game = Game::fixed(tiles.as_slice(), east);
        proof {
            broadcast use vstd::seq_lib::group_to_multiset_ensures;
            let dealt = game@.players[0].tiles + game@.players[1].tiles + seq![game@.dora_ind, game@.uradora_ind];
            assert(dealt =~= tiles@.subrange(0, 70));
            assert forall|t: Tile| dealt.to_multiset().count(t) <= spec_all_tiles().to_multiset().count(t) by {
                crate::tiles::lemma_prefix_count(tiles@, 70, t);
            }
        }
        game
    }

    /// A game with the given tiles: the first 34 for one player, the
    /// next 34 for the other, then the dora indicator and the uradora
    /// indicator.
    pub fn fixed(all_tiles: &[Tile], east: usize) -> (game: Game)
        requires
            all_tiles@.len() >= 2 * PLAYER_TILES + 2,
            east < 2,
        ensures
            game.wf(),
            game@.east == east,
            game@.players[0] == spec_dealt(all_tiles@.subrange(0, 34), east == 0),
            game@.players[1] == spec_dealt(all_tiles@.subrange(34, 68), east == 1),
            game@.dora_ind == all_tiles@[68],
            game@.uradora_ind == all_tiles@[69],
            !game@.finished,
            game@.time == 0,
            game@.messages.len() == 0,
    {
        let players = [
            Player::new(vstd::slice::slice_subrange(all_tiles, 0, PLAYER_TILES), east == 0),
            Player::new(vstd::slice::slice_subrange(all_tiles, PLAYER_TILES, PLAYER_TILES * 2), east == 1),
        ];
        let dora_ind = all_tiles[PLAYER_TILES * 2];
        let uradora_ind = all_tiles[PLAYER_TILES * 2 + 1];
        let game = Game { east, players, dora_ind, uradora_ind, finished: false, time: 0, messages: Vec::new() };
        proof {
            assert(game@.messages =~= Seq::empty());
        }
        game
    }

    /// Begins the game: each player is shown the tiles to choose from
    /// and asked for a hand.
    pub fn on_start(&mut self)
        requires
            old(self).wf(),
            old(self)@.players[0].deadline is None,
            old(self)@.players[1].deadline is None,
            old(self)@.players[0].hand.len() == 0,
            old(self)@.players[1].hand.len() == 0,
        ensures
            final(self)@ == spec_on_start(old(self)@),
            final(self).wf(),
    {
        let mut i: usize = 0;
        while i < 2
            invariant
                i <= 2,
                old(self).wf(),
                old(self)@.players[0].deadline is None,
                old(self)@.players[1].deadline is None,
                old(self)@.players[0].hand.len() == 0,
                old(self)@.players[1].hand.len() == 0,
                i == 0 ==> *self == *old(self),
                i == 1 ==> self@ == spec_start_move(spec_send(old(self)@, 0, spec_phase_one(old(self)@, 0)), 0, MoveType::Hand),
                i == 2 ==> self@ == spec_on_start(old(self)@),
            decreases 2 - i,
        {
            let tiles = vstd::slice::slice_to_vec(self.players[i].tiles.as_slice());
            let msg = Msg::PhaseOne { tiles, dora_ind: self.dora_ind, you: i, east: self.east };
            proof {
                assert(msg@ == spec_phase_one(self@, i));
                assert(spec_phase_one(self@, i) == spec_phase_one(old(self)@, i));
            }
            self.send(i, msg);
            self.start_move(i, MoveType::Hand);
            i = i + 1;
        }
        proof {
            lemma_on_start_wf(old(self)@);
        }
    }

    /// Takes a message of a player. A hand or a discard moves the game
    /// on; anything else, and anything out of turn, breaks it off.
    pub fn on_message(&mut self, i: usize, msg: Msg)
        requires
            old(self).wf(),
            !old(self)@.finished,
            i < 2,
        ensures
            exists|ron: Option<MsgView>| #[trigger] spec_message_ron(old(self)@, i, msg@, ron) && final(self)@ == spec_on_message(old(self)@, i, msg@, ron),
            final(self).wf(),
    {
        match msg {
            Msg::Hand { hand } => {
                self.on_hand(i, hand.as_slice());
                proof {
                    lemma_message(old(self)@, i, msg@, None, self@);
                }
            },
            Msg::Discard { tile } => {
                self.on_discard(i, tile);
                proof {
                    let ron = choose|ron: Option<MsgView>| #[trigger] spec_discard_ron(old(self)@, i, tile, ron) && self@ == spec_on_discard(old(self)@, i, tile, ron);
                    lemma_message(old(self)@, i, msg@, ron, self@);
                }
            },
            _ => {
                self.abort(i, "unexpected message");
                proof {
                    lemma_message(old(self)@, i, msg@, None, self@);
                    lemma_abort_wf(old(self)@, i, "unexpected message"@);
                }
            },
        }
    }

    /// Hands out the messages that wait to be sent; none wait afterwards.
    pub fn messages(&mut self) -> (sent: Vec<(usize, Msg)>)
        ensures
            queue_view(sent@) == old(self)@.messages,
            final(self)@ == (GameView { messages: Seq::empty(), ..old(self)@ }),
    {
        let sent = self.messages.split_off(0);
        proof {
            assert(sent@ =~= old(self).messages@);
            assert(queue_view(self.messages@) =~= Seq::empty());
        }
        sent
    }

    /// Hands out the first `n` of the messages that wait to be sent, or
    /// all where there are fewer; the others wait on.
    pub fn messages_at_most(&mut self, n: usize) -> (sent: Vec<(usize, Msg)>)
        ensures
            queue_view(sent@) == old(self)@.messages.subrange(0, spec_at_most(n, old(self)@.messages.len())),
            final(self)@ == (GameView {
                messages: old(self)@.messages.subrange(spec_at_most(n, old(self)@.messages.len()), old(self)@.messages.len() as int),
                ..old(self)@
            }),
    {
        let at = if n < self.messages.len() {
            n
        } else {
            self.messages.len()
        };
        let mut suffix = self.messages.split_off(at);
        core::mem::swap(&mut self.messages, &mut suffix);
        proof {
            assert(queue_view(suffix@) =~= old(self)@.messages.subrange(0, at as int));
            assert(queue_view(self.messages@) =~= old(self)@.messages.subrange(at as int, old(self)@.messages.len() as int));
        }
        suffix
    }

    /// Moves the clock on by one tick; a player whose move is due now
    /// breaks the game off.
    pub fn beat(&mut self)
        requires
            old(self).wf(),
            !old(self)@.finished,
            old(self)@.time + 201 <= usize::MAX,
        ensures
            final(self)@ == spec_beat(old(self)@),
            final(self).wf(),
    {
        proof {
            lemma_beat_wf(old(self)@);
        }
        self.time = self.time + 1;
        let mut i: usize = 0;
        while i < 2
            invariant
                i <= 2,
                self@ == (GameView { time: (old(self)@.time + 1) as usize, ..old(self)@ }),
                old(self).wf(),
                spec_wf(spec_beat(old(self)@)),
                old(self)@.time + 201 <= usize::MAX,
                i >= 1 ==> self@.players[0].deadline != Some(self@.time),
                i >= 2 ==> self@.players[1].deadline != Some(self@.time),
            decreases 2 - i,
        {
            match self.players[i].deadline {
                Some(deadline) => {
                    if self.time == deadline {
                        self.abort(i, "time limit exceeded");
                        return;
                    }
                },
                None => {},
            }
            i = i + 1;
        }
    }

    /// Whether the game has ended.
    pub fn is_finished(&self) -> (finished: bool)
        ensures
            finished == self@.finished,
    {
        self.finished
    }

    /// Whether a player has let a winning tile pass.
    pub fn is_furiten(&self, i: usize) -> (furiten: bool)
        requires
            i < 2,
        ensures
            furiten == self@.players[i as int].furiten,
    {
        self.players[i].furiten
    }

    /// The tiles that a player has left to choose from.
    pub fn choices(&self, i: usize) -> (tiles: &Vec<Tile>)
        requires
            i < 2,
        ensures
            tiles@ == self@.players[i as int].tiles,
    {
        &self.players[i].tiles
    }

    fn send(&mut self, i: usize, msg: Msg)
        ensures
            final(self)@ == spec_send(old(self)@, i, msg@),
    {
        self.messages.push((i, msg));
        proof {
            assert(queue_view(self.messages@) =~= queue_view(old(self).messages@).push((i, msg@)));
        }
    }

    fn send_both(&mut self, msg: Msg)
        ensures
            final(self)@ == spec_send_both(old(self)@, msg@),
    {
        let copy = msg.copy();
        self.send(0, copy);
        self.send(1, msg);
    }

    fn start_move(&mut self, i: usize, move_type: MoveType)
        requires
            i < 2,
            old(self)@.players[i as int].deadline is None,
            old(self)@.time + 200 <= usize::MAX,
        ensures
            final(self)@ == spec_start_move(old(self)@, i, move_type),
    {
        let time_limit = match move_type {
            MoveType::Hand => HAND_TIME_LIMIT,
            MoveType::Discard => DISCARD_TIME_LIMIT,
        };
        self.players[i].deadline = Some(self.time + time_limit + EXTRA_TIME);
        proof {
            assert(self@.players =~= old(self)@.players.update(i as int, PlayerView { deadline: Some((old(self)@.time + time_limit + EXTRA_TIME) as usize), ..old(self)@.players[i as int] }));
        }
        self.send(i, Msg::StartMove { move_type, time_limit })
    }

    fn end_move(&mut self, i: usize)
        requires
            i < 2,
            old(self)@.players[i as int].deadline is Some,
        ensures
            final(self)@ == spec_end_move(old(self)@, i),
    {
        self.players[i].deadline = None;
        proof {
            assert(self@.players =~= old(self)@.players.update(i as int, PlayerView { deadline: None, ..old(self)@.players[i as int] }));
        }
        self.send(i, Msg::EndMove);
    }

    fn on_hand(&mut self, i: usize, hand: &[Tile])
        requires
            old(self).wf(),
            !old(self)@.finished,
            i < 2,
        ensures
            final(self)@ == spec_on_hand(old(self)@, i, hand@),
            final(self).wf(),
    {
        proof {
            lemma_on_hand_wf(old(self)@, i, hand@);
        }
        let done = self.players[i].set_hand(hand);
        proof {
            assert(self@.players =~= old(self)@.players.update(i as int, spec_set_hand(old(self)@.players[i as int], hand@).0));
        }
        match done {
            Err(description) => {
                self.abort(i, description);
                return;
            },
            Ok(()) => {},
        }
        self.end_move(i);
        // for replay
        self.send(i, Msg::Hand { hand: vstd::slice::slice_to_vec(hand) });
        if self.is_phase2() {
            self.send_both(Msg::PhaseTwo);
            self.start_move(self.east, MoveType::Discard);
        } else {
            self.send(i, Msg::WaitForPhaseTwo);
        }
    }

    /// Takes the discard of a player: the opponent wins by it, or the
    /// game is drawn after the last discard, or the opponent is asked
    /// for a discard.
    pub fn on_discard(&mut self, i: usize, tile: Tile)
        requires
            old(self).wf(),
            !old(self)@.finished,
            i < 2,
        ensures
            exists|ron: Option<MsgView>| #[trigger] spec_discard_ron(old(self)@, i, tile, ron) && final(self)@ == spec_on_discard(old(self)@, i, tile, ron),
            final(self).wf(),
    {
        if !self.is_phase2() {
            self.abort(i, "discard too soon");
            proof {
                assert(spec_discard_ron(old(self)@, i, tile, None));
                lemma_on_discard_wf(old(self)@, i, tile, None);
            }
            return;
        }
        let done = self.players[i].discard(tile);
        proof {
            assert(self@.players =~= old(self)@.players.update(i as int, spec_player_discard(old(self)@.players[i as int], tile).0));
        }
        match done {
            Err(description) => {
                self.abort(i, description);
                proof {
                    assert(spec_discard_ron(old(self)@, i, tile, None));
                    lemma_on_discard_wf(old(self)@, i, tile, None);
                }
                return;
            },
            Ok(()) => {},
        }
        self.end_move(i);
        self.tell_discard(i, tile);
        // ron
        let ghost told = self@;
        let dora_ind = self.dora_ind;
        let uradora_ind = self.uradora_ind;
        proof {
            lemma_discard_turn(old(self)@, i, tile);
        }
        let won = self.players[1 - i].check_ron(1 - i, tile, dora_ind, uradora_ind);
        let ghost ron: Option<MsgView> = if won is Some {
            Some(won->0@)
        } else {
            None
        };
        proof {
            assert(told.players[1 - i] == old(self)@.players[1 - i]);
            assert(spec_discard_ron(old(self)@, i, tile, ron));
            assert(self@.players =~= told.players.update(1 - i, spec_after_ron(told.players[1 - i], tile, ron is Some)));
            assert(self@ == spec_with_player(told, 1 - i, spec_after_ron(told.players[1 - i], tile, ron is Some)));
            lemma_on_discard_wf(old(self)@, i, tile, ron);
        }
        self.settle(i, won);
    }

    /// Tells both players of a discard.
    fn tell_discard(&mut self, i: usize, tile: Tile)
        ensures
            final(self)@ == spec_send(spec_send(old(self)@, 0, MsgView::Discarded { player: i, tile: tile }), 1, MsgView::Discarded { player: i, tile: tile }),
    {
        let mut j: usize = 0;
        while j < 2
            invariant
                j <= 2,
                j == 0 ==> self@ == old(self)@,
                j == 1 ==> self@ == spec_send(old(self)@, 0, MsgView::Discarded { player: i, tile: tile }),
                j == 2 ==> self@ == spec_send(spec_send(old(self)@, 0, MsgView::Discarded { player: i, tile: tile }), 1, MsgView::Discarded { player: i, tile: tile }),
            decreases 2 - j,
        {
            self.send(j, Msg::Discarded { player: i, tile });
            j = j + 1;
        }
    }

    /// Ends the game where the discard was the winning tile of the
    /// opponent or the last discard of all; else asks the opponent.
    fn settle(&mut self, i: usize, won: Option<Msg>)
        requires
            i < 2,
            won is None && !(old(self)@.players[0].discards.len() == DISCARDS && old(self)@.players[1].discards.len() == DISCARDS) ==> old(self)@.players[1 - i].deadline
                is None && old(self)@.time + 200 <= usize::MAX,
        ensures
            final(self)@ == spec_settle(old(self)@, i, match won { Some(m) => Some(m@), None => None }),
    {
        if let Some(msg) = won {
            self.send_both(msg);
            self.finished = true;
            return;
        }
        // draw
        if self.players[0].finished() && self.players[1].finished() {
            self.send_both(Msg::Draw);
            self.finished = true;
            return;
        }
        // normal turn
        self.start_move(1 - i, MoveType::Discard);
    }

    fn is_phase2(&self) -> (both: bool)
        ensures
            both == spec_phase2(self@),
    {
        self.players[0].hand.len() != 0 && self.players[1].hand.len() != 0
    }

    fn abort(&mut self, culprit: usize, description: &str)
        ensures
            final(self)@ == spec_abort(old(self)@, culprit, description@),
    {
        self.finished = true;
        self.send_both(Msg::Abort { culprit, description: description.to_owned() });
    }
}

/// A player, field by field, for keeping outside the library.
pub struct PlayerParts {
    pub tiles: Vec<Tile>,
    pub is_east: bool,
    pub deadline: Option<usize>,
    pub hand: Vec<Tile>,
    pub discards: Vec<Tile>,
    pub furiten: bool,
    pub waits: Vec<Tile>,
}

/// A game, field by field, for keeping outside the library.
pub struct GameParts {
    pub east: usize,
    pub players: [PlayerParts; 2],
    pub dora_ind: Tile,
    pub uradora_ind: Tile,
    pub finished: bool,
    pub time: usize,
    pub messages: Vec<(usize, Msg)>,
}

impl View for PlayerParts {
    type V = PlayerView;

    open spec fn view(&self) -> PlayerView {
        PlayerView {
            tiles: self.tiles@,
            is_east: self.is_east,
            deadline: self.deadline,
            hand: self.hand@,
            discards: self.discards@,
            furiten: self.furiten,
            waits: self.waits@,
        }
    }
}

impl View for GameParts {
    type V = GameView;

    open spec fn view(&self) -> GameView {
        GameView {
            east: self.east,
            players: Seq::new(2, |i: int| self.players[i]@),
            dora_ind: self.dora_ind,
            uradora_ind: self.uradora_ind,
            finished: self.finished,
            time: self.time,
            messages: queue_view(self.messages@),
        }
    }
}

impl Player {
    fn snapshot(&self) -> (parts: PlayerParts)
        ensures
            parts@ == self@,
    {
        PlayerParts {
            tiles: vstd::slice::slice_to_vec(self.tiles.as_slice()),
            is_east: self.is_east,
            deadline: self.deadline,
            hand: vstd::slice::slice_to_vec(self.hand.as_slice()),
            discards: vstd::slice::slice_to_vec(self.discards.as_slice()),
            furiten: self.furiten,
            waits: vstd::slice::slice_to_vec(self.waits.as_slice()),
        }
    }

    fn restore(parts: &PlayerParts) -> (player: Player)
        ensures
            player@ == parts@,
    {
        Player {
            tiles: vstd::slice::slice_to_vec(parts.tiles.as_slice()),
            is_east: parts.is_east,
            deadline: parts.deadline,
            hand: vstd::slice::slice_to_vec(parts.hand.as_slice()),
            discards: vstd::slice::slice_to_vec(parts.discards.as_slice()),
            furiten: parts.furiten,
            waits: vstd::slice::slice_to_vec(parts.waits.as_slice()),
        }
    }
}

impl PlayerParts {
    /// Whether the player is as a player has to be at all times.
    pub fn holds(&self) -> (good: bool)
        ensures
            good == spec_player_wf(self@),
    {
        (self.hand.len() == 0 || self.hand.len() == 13) && self.discards.len() <= DISCARDS && (self.hand.len() != 0 || (self.discards.len() == 0
            && self.waits.len() == 0))
    }
}

impl GameParts {
    /// Whether the game is as a game has to be at all times.
    pub fn holds(&self) -> (good: bool)
        ensures
            good == spec_wf(self@),
    {
        if self.east >= 2 {
            return false;
        }
        let east = self.east;
        let west = 1 - east;
        if !self.players[east].is_east || self.players[west].is_east {
            return false;
        }
        if self.time > usize::MAX - 200 {
            return false;
        }
        if !self.players[0].holds() || !self.players[1].holds() {
            return false;
        }
        let phase2 = self.players[0].hand.len() != 0 && self.players[1].hand.len() != 0;
        if !phase2 {
            if self.players[0].discards.len() != 0 || self.players[1].discards.len() != 0 {
                return false;
            }
            if !self.finished {
                if self.players[0].hand.len() != 0 && self.players[0].deadline.is_some() {
                    return false;
                }
                if self.players[1].hand.len() != 0 && self.players[1].deadline.is_some() {
                    return false;
                }
            }
            return true;
        }
        if self.finished {
            return true;
        }
        let of_east = self.players[east].discards.len();
        let of_west = self.players[west].discards.len();
        if !(of_east == of_west || of_east == of_west + 1) || of_west >= DISCARDS {
            return false;
        }
        let mover = if of_east == of_west {
            east
        } else {
            west
        };
        self.players[mover].deadline.is_some() && self.players[1 - mover].deadline.is_none()
    }
}

impl Game {
    /// The game, field by field.
    pub fn snapshot(&self) -> (parts: GameParts)
        ensures
            parts@ == self@,
    {
        let mut messages: Vec<(usize, Msg)> = Vec::new();
        let mut i: usize = 0;
        while i < self.messages.len()
            invariant
                i <= self.messages@.len(),
                queue_view(messages@) == queue_view(self.messages@).subrange(0, i as int),
            decreases self.messages@.len() - i,
        {
            let ghost before = queue_view(messages@);
            messages.push((self.messages[i].0, self.messages[i].1.copy()));
            proof {
                assert(queue_view(messages@) =~= before.push((self.messages@[i as int].0, self.messages@[i as int].1@)));
                assert(queue_view(messages@) =~= queue_view(self.messages@).subrange(0, i + 1));
            }
            i = i + 1;
        }
        let parts = GameParts {
            east: self.east,
            players: [self.players[0].snapshot(), self.players[1].snapshot()],
            dora_ind: self.dora_ind,
            uradora_ind: self.uradora_ind,
            finished: self.finished,
            time: self.time,
            messages,
        };
        proof {
            assert(queue_view(self.messages@).subrange(0, i as int) =~= queue_view(self.messages@));
            assert(parts@.players =~= self@.players);
        }
        parts
    }

    /// The game of the given fields, if they are the fields of a game.
    pub fn restore(parts: GameParts) -> (game: Option<Game>)
        ensures
            game matches Some(g) ==> g@ == parts@ && g.wf(),
            game is None <==> !spec_wf(parts@),
    {
        if !parts.holds() {
            return None;
        }
        let players = [Player::restore(&parts.players[0]), Player::restore(&parts.players[1])];
        let game = Game {
            east: parts.east,
            players,
            dora_ind: parts.dora_ind,
            uradora_ind: parts.uradora_ind,
            finished: parts.finished,
            time: parts.time,
            messages: parts.messages,
        };
        proof {
            assert(game@.players =~= parts@.players);
        }
        Some(game)
    }

    /// The time of the game's clock.
    pub fn time(&self) -> (time: usize)
        ensures
            time == self@.time,
    {
        self.time
    }
}

/// A player who has the given tiles to choose from and has done nothing yet.
pub open spec fn spec_dealt(tiles: Seq<Tile>, is_east: bool) -> PlayerView {
    PlayerView { tiles: tiles, is_east: is_east, deadline: None, hand: Seq::empty(), discards: Seq::empty(), furiten: false, waits: Seq::empty() }
}

/// Whether a player has 34 tiles to choose from and has done nothing yet.
pub open spec fn spec_fresh(player: PlayerView) -> bool {
    player == spec_dealt(player.tiles, player.is_east) && player.tiles.len() == 34
}

/// The number of messages that are handed out where at most `n` are
/// asked for and `len` wait.
pub open spec fn spec_at_most(n: usize, len: nat) -> int {
    if n < len {
        n as int
    } else {
        len as int
    }
}

/// What a message leads to, kind by kind.
pub proof fn lemma_message(game: GameView, i: usize, msg: MsgView, ron: Option<MsgView>, after: GameView)
    requires
        match msg {
            MsgView::Hand { hand } => ron is None && after == spec_on_hand(game, i, hand),
            MsgView::Discard { tile } => spec_discard_ron(game, i, tile, ron) && after == spec_on_discard(game, i, tile, ron),
            _ => ron is None && after == spec_abort(game, i, "unexpected message"@),
        },
    ensures
        spec_message_ron(game, i, msg, ron),
        after == spec_on_message(game, i, msg, ron),
{
}

/// A game that is broken off is as a game has to be.
pub proof fn lemma_abort_wf(game: GameView, culprit: usize, description: Seq<char>)
    requires
        game.players.len() == 2,
        game.east < 2,
        game.players[game.east as int].is_east,
        !game.players[1 - game.east].is_east,
        game.time + 200 <= usize::MAX,
        spec_player_wf(game.players[0]),
        spec_player_wf(game.players[1]),
        !spec_phase2(game) ==> game.players[0].discards.len() == 0 && game.players[1].discards.len() == 0,
    ensures
        spec_wf(spec_abort(game, culprit, description)),
{
}

/// A game that is begun is as a game has to be.
pub proof fn lemma_on_start_wf(game: GameView)
    requires
        spec_wf(game),
        game.players[0].hand.len() == 0,
        game.players[1].hand.len() == 0,
    ensures
        spec_wf(spec_on_start(game)),
{
    let first = spec_start_move(spec_send(game, 0, spec_phase_one(game, 0)), 0, MoveType::Hand);
    let second = spec_on_start(game);
    assert(first.players[0].hand == game.players[0].hand);
    assert(first.players[1] == game.players[1]);
    assert(second.players[0] == first.players[0]);
    assert(second.players[1].hand == game.players[1].hand);
    assert(second.players[0].discards == game.players[0].discards);
    assert(second.players[1].discards == game.players[1].discards);
}

/// A game in which a player has named a hand is as a game has to be.
pub proof fn lemma_on_hand_wf(game: GameView, i: usize, hand: Seq<Tile>)
    requires
        spec_wf(game),
        !game.finished,
        i < 2,
    ensures
        spec_wf(spec_on_hand(game, i, hand)),
{
    let set = spec_set_hand(game.players[i as int], hand);
    let with_hand = spec_with_player(game, i as int, set.0);
    assert(with_hand.players[1 - i] == game.players[1 - i]);
    assert(with_hand.players[i as int] == set.0);
    if set.1 is Some {
        lemma_abort_wf(with_hand, i, set.1->0);
    } else {
        let told = spec_send(spec_end_move(with_hand, i), i, MsgView::Hand { hand: hand });
        assert(told.players[i as int] == (PlayerView { deadline: None, ..set.0 }));
        assert(told.players[1 - i] == game.players[1 - i]);
        assert(!spec_phase2(game));
        if spec_phase2(told) {
            let both = spec_send_both(told, MsgView::PhaseTwo);
            let after = spec_start_move(both, game.east, MoveType::Discard);
            assert(after.players[game.east as int].deadline is Some);
            assert(after.players[1 - game.east] == told.players[1 - game.east]);
            assert(after.players[game.east as int].discards == told.players[game.east as int].discards);
            assert(after.players[game.east as int].hand == told.players[game.east as int].hand);
            assert(spec_wf(after));
        } else {
            let after = spec_send(told, i, MsgView::WaitForPhaseTwo);
            assert(spec_wf(after));
        }
    }
}

/// Where a player who is asked discards, the opponent has a turn to
/// count from.
pub proof fn lemma_discard_turn(game: GameView, i: usize, tile: Tile)
    requires
        spec_wf(game),
        !game.finished,
        i < 2,
        spec_phase2(game),
        spec_player_discard(game.players[i as int], tile).1 is None,
    ensures
        game.players[1 - i].is_east ==> game.players[1 - i].discards.len() >= 1,
        game.players[1 - i].waits.len() > 0 ==> game.players[1 - i].hand.len() == 13,
        game.players[1 - i].discards.len() <= DISCARDS,
        i as int == spec_mover(game),
{
}

/// A game in which a player has named a discard is as a game has to be.
pub proof fn lemma_on_discard_wf(game: GameView, i: usize, tile: Tile, ron: Option<MsgView>)
    requires
        spec_wf(game),
        !game.finished,
        i < 2,
    ensures
        spec_wf(spec_on_discard(game, i, tile, ron)),
{
    if !spec_phase2(game) {
        lemma_abort_wf(game, i, "discard too soon"@);
    } else {
        let made = spec_player_discard(game.players[i as int], tile);
        let with_discard = spec_with_player(game, i as int, made.0);
        assert(with_discard.players[1 - i] == game.players[1 - i]);
        assert(with_discard.players[i as int] == made.0);
        if made.1 is Some {
            lemma_abort_wf(with_discard, i, made.1->0);
        } else {
            lemma_discard_turn(game, i, tile);
            let shown = MsgView::Discarded { player: i, tile: tile };
            let told = spec_send(spec_send(spec_end_move(with_discard, i), 0, shown), 1, shown);
            assert(told.players[i as int] == (PlayerView { deadline: None, ..made.0 }));
            assert(told.players[1 - i] == game.players[1 - i]);
            let other = told.players[1 - i];
            let seen = spec_with_player(told, 1 - i, spec_after_ron(other, tile, ron is Some));
            assert(seen.players[i as int] == told.players[i as int]);
            assert(seen.players[1 - i] == spec_after_ron(other, tile, ron is Some));
            let after = spec_settle(seen, i, ron);
            if ron is None && !(seen.players[0].discards.len() == DISCARDS && seen.players[1].discards.len() == DISCARDS) {
                assert(after.players[i as int] == seen.players[i as int]);
                assert(after.players[1 - i].discards == seen.players[1 - i].discards);
                assert(after.players[1 - i].hand == seen.players[1 - i].hand);
                assert(after.players[1 - i].deadline is Some);
                assert(spec_wf(after));
            } else {
                assert(after.finished);
                assert(after.players == seen.players);
                assert(spec_wf(after));
            }
        }
    }
}

/// A game after a tick of the clock is as a game has to be.
pub proof fn lemma_beat_wf(game: GameView)
    requires
        spec_wf(game),
        game.time + 201 <= usize::MAX,
    ensures
        spec_wf(spec_beat(game)),
{
    let later = GameView { time: (game.time + 1) as usize, ..game };
    if later.players[0].deadline == Some(later.time) {
        lemma_abort_wf(later, 0, "time limit exceeded"@);
    } else if later.players[1].deadline == Some(later.time) {
        lemma_abort_wf(later, 1, "time limit exceeded"@);
    }
}

} // verus!
