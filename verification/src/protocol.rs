//! The messages between the players and the table.

use crate::tiles::Tile;
use crate::yaku::Yaku;
use vstd::prelude::*;

verus! {

/// What a player is asked to do.
#[derive(Debug, Copy, Clone, PartialEq, Eq, Structural)]
pub enum MoveType {
    Hand,
    Discard,
}

/// A game as the list of games shows it: a player who waits for an
/// opponent, or two players at play.
#[derive(Debug, Clone, PartialEq, Eq)]
pub enum PGame {
    Player { nick: String, key: String },
    Game { nicks: [String; 2] },
}

/// A message, from a player or to a player.
#[derive(Debug, Clone, PartialEq, Eq)]
pub enum Msg {
    // from a player
    GetGames,
    NewGame { nick: String },
    Rejoin { key: String },
    Join { nick: String, key: String },
    CancelNewGame,
    Hand { hand: Vec<Tile> },
    Discard { tile: Tile },
    // to a player
    Games { games: Vec<PGame> },
    Room { you: usize, nicks: [String; 2], key: String },
    StartMove { move_type: MoveType, time_limit: usize },
    EndMove,
    PhaseOne { tiles: Vec<Tile>, dora_ind: Tile, you: usize, east: usize },
    WaitForPhaseTwo,
    PhaseTwo,
    Discarded { player: usize, tile: Tile },
    Ron {
        player: usize,
        hand: Vec<Tile>,
        tile: Tile,
        limit: usize,
        yaku: Vec<Yaku>,
        dora: usize,
        uradora_ind: Tile,
        points: usize,
    },
    Draw,
    Abort { culprit: usize, description: String },
}

/// What a `PGame` holds.
pub enum PGameView {
    Player { nick: Seq<char>, key: Seq<char> },
    Game { nicks: Seq<Seq<char>> },
}

/// What a `Msg` holds.
pub enum MsgView {
    GetGames,
    NewGame { nick: Seq<char> },
    Rejoin { key: Seq<char> },
    Join { nick: Seq<char>, key: Seq<char> },
    CancelNewGame,
    Hand { hand: Seq<Tile> },
    Discard { tile: Tile },
    Games { games: Seq<PGameView> },
    Room { you: usize, nicks: Seq<Seq<char>>, key: Seq<char> },
    StartMove { move_type: MoveType, time_limit: usize },
    EndMove,
    PhaseOne { tiles: Seq<Tile>, dora_ind: Tile, you: usize, east: usize },
    WaitForPhaseTwo,
    PhaseTwo,
    Discarded { player: usize, tile: Tile },
    Ron {
        player: usize,
        hand: Seq<Tile>,
        tile: Tile,
        limit: usize,
        yaku: Seq<Yaku>,
        dora: usize,
        uradora_ind: Tile,
        points: usize,
    },
    Draw,
    Abort { culprit: usize, description: Seq<char> },
}

impl View for PGame {
    type V = PGameView;

    open spec fn view(&self) -> PGameView {
        match self {
            PGame::Player { nick, key } => PGameView::Player { nick: nick@, key: key@ },
            PGame::Game { nicks } => PGameView::Game { nicks: Seq::new(2, |i: int| nicks[i]@) },
        }
    }
}

impl View for Msg {
    type V = MsgView;

    open spec fn view(&self) -> MsgView {
        match self {
            Msg::GetGames => MsgView::GetGames,
            Msg::NewGame { nick } => MsgView::NewGame { nick: nick@ },
            Msg::Rejoin { key } => MsgView::Rejoin { key: key@ },
            Msg::Join { nick, key } => MsgView::Join { nick: nick@, key: key@ },
            Msg::CancelNewGame => MsgView::CancelNewGame,
            Msg::Hand { hand } => MsgView::Hand { hand: hand@ },
            Msg::Discard { tile } => MsgView::Discard { tile: *tile },
            Msg::Games { games } => MsgView::Games { games: Seq::new(games@.len(), |i: int| games@[i]@) },
            Msg::Room { you, nicks, key } => MsgView::Room { you: *you, nicks: Seq::new(2, |i: int| nicks[i]@), key: key@ },
            Msg::StartMove { move_type, time_limit } => MsgView::StartMove { move_type: *move_type, time_limit: *time_limit },
            Msg::EndMove => MsgView::EndMove,
            Msg::PhaseOne { tiles, dora_ind, you, east } => MsgView::PhaseOne {
                tiles: tiles@,
                dora_ind: *dora_ind,
                you: *you,
                east: *east,
            },
            Msg::WaitForPhaseTwo => MsgView::WaitForPhaseTwo,
            Msg::PhaseTwo => MsgView::PhaseTwo,
            Msg::Discarded { player, tile } => MsgView::Discarded { player: *player, tile: *tile },
            Msg::Ron { player, hand, tile, limit, yaku, dora, uradora_ind, points } => MsgView::Ron {
                player: *player,
                hand: hand@,
                tile: *tile,
                limit: *limit,
                yaku: yaku@,
                dora: *dora,
                uradora_ind: *uradora_ind,
                points: *points,
            },
            Msg::Draw => MsgView::Draw,
            Msg::Abort { culprit, description } => MsgView::Abort { culprit: *culprit, description: description@ },
        }
    }
}

/// A queue of messages, each with the player that it is for, by what
/// the messages hold.
pub open spec fn queue_view(queue: Seq<(usize, Msg)>) -> Seq<(usize, MsgView)> {
    Seq::new(queue.len(), |i: int| (queue[i].0, queue[i].1@))
}

impl PGame {
    /// A copy that holds the same.
    pub fn copy(&self) -> (other: PGame)
        ensures
            other@ == self@,
    {
        match self {
            PGame::Player { nick, key } => PGame::Player { nick: nick.clone(), key: key.clone() },
            PGame::Game { nicks } => {
                let other = PGame::Game { nicks: [nicks[0].clone(), nicks[1].clone()] };
                proof {
                    assert(other@->Game_nicks =~= self@->Game_nicks);
                }
                other
            },
        }
    }
}

impl Msg {
    /// A copy that holds the same.
    pub fn copy(&self) -> (other: Msg)
        ensures
            other@ == self@,
    {
        match self {
            Msg::GetGames => Msg::GetGames,
            Msg::NewGame { nick } => Msg::NewGame { nick: nick.clone() },
            Msg::Rejoin { key } => Msg::Rejoin { key: key.clone() },
            Msg::Join { nick, key } => Msg::Join { nick: nick.clone(), key: key.clone() },
            Msg::CancelNewGame => Msg::CancelNewGame,
            Msg::Hand { hand } => Msg::Hand { hand: vstd::slice::slice_to_vec(hand.as_slice()) },
            Msg::Discard { tile } => Msg::Discard { tile: *tile },
            Msg::Games { games } => {
                let mut copies: Vec<PGame> = Vec::new();
                let mut i: usize = 0;
                while i < games.len()
                    invariant
                        i <= games@.len(),
                        copies@.len() == i,
                        forall|k: int| 0 <= k < i ==> copies@[k]@ == games@[k]@,
                    decreases games@.len() - i,
                {
                    copies.push(games[i].copy());
                    i = i + 1;
                }
                let other = Msg::Games { games: copies };
                proof {
                    assert(other@->Games_games =~= self@->Games_games);
                }
                other
            },
            Msg::Room { you, nicks, key } => {
                let other = Msg::Room { you: *you, nicks: [nicks[0].clone(), nicks[1].clone()], key: key.clone() };
                proof {
                    assert(other@->Room_nicks =~= self@->Room_nicks);
                }
                other
            },
            Msg::StartMove { move_type, time_limit } => Msg::StartMove { move_type: *move_type, time_limit: *time_limit },
            Msg::EndMove => Msg::EndMove,
            Msg::PhaseOne { tiles, dora_ind, you, east } => Msg::PhaseOne {
                tiles: vstd::slice::slice_to_vec(tiles.as_slice()),
                dora_ind: *dora_ind,
                you: *you,
                east: *east,
            },
            Msg::WaitForPhaseTwo => Msg::WaitForPhaseTwo,
            Msg::PhaseTwo => Msg::PhaseTwo,
            Msg::Discarded { player, tile } => Msg::Discarded { player: *player, tile: *tile },
            Msg::Ron { player, hand, tile, limit, yaku, dora, uradora_ind, points } => Msg::Ron {
                player: *player,
                hand: vstd::slice::slice_to_vec(hand.as_slice()),
                tile: *tile,
                limit: *limit,
                yaku: vstd::slice::slice_to_vec(yaku.as_slice()),
                dora: *dora,
                uradora_ind: *uradora_ind,
                points: *points,
            },
            Msg::Draw => Msg::Draw,
            Msg::Abort { culprit, description } => Msg::Abort { culprit: *culprit, description: description.clone() },
        }
    }
}

} // verus!
