//! The computer player at a table: what it does on each message that
//! the table sends.

use crate::bot::{spec_discard, Bot};
use crate::game::spec_seat_wind;
use crate::protocol::{MoveType, Msg, MsgView};
use crate::search::spec_waits_for;
use crate::tiles::Tile;
use vstd::prelude::*;

verus! {

/// What a message means to a player who waits for the deal.
pub enum Greeting {
    /// Nothing yet: the player waits on.
    Wait,
    /// The deal: the player, and its seat.
    Deal(Bot, usize),
    /// A message that a player who waits for the deal does not expect.
    Unexpected,
}

/// What the player does on a message of the table.
pub enum Reply {
    /// Nothing.
    Nothing,
    /// It sends the hand that it keeps.
    Hand(Vec<Tile>),
    /// It sends a discard.
    Discard(Tile),
    /// The game has ended.
    Done,
    /// A message that a player at play does not expect.
    Unexpected,
}

/// Whether a player has the deal of a message and has done nothing yet.
pub open spec fn spec_dealt(bot: Bot, tiles: Seq<Tile>, dora_ind: Tile, you: usize, east: usize) -> bool {
    &&& bot.wf()
    &&& bot.spec_initial() == tiles
    &&& bot.spec_held() == tiles.to_multiset()
    &&& bot.spec_safe() == Set::<Tile>::empty()
    &&& bot.spec_waits() == Set::<Tile>::empty()
    &&& bot.spec_dora_ind() == dora_ind
    &&& bot.spec_dora() == dora_ind.spec_next_wrap()
    &&& bot.spec_player_wind() == spec_seat_wind(you == east)
}

/// Whether a player is as another but for the tiles that it holds, the
/// faces that it waits for and the faces that are safe.
pub open spec fn spec_same_seat(before: Bot, after: Bot) -> bool {
    &&& after.wf() == before.wf()
    &&& after.spec_initial() == before.spec_initial()
    &&& after.spec_dora_ind() == before.spec_dora_ind()
    &&& after.spec_dora() == before.spec_dora()
    &&& after.spec_player_wind() == before.spec_player_wind()
}

/// Whether a player has kept a hand: thirteen of its tiles, the best
/// that it can wait with, or its first thirteen where it can wait with
/// none.
pub open spec fn spec_kept(before: Bot, after: Bot, hand: Seq<Tile>) -> bool {
    &&& spec_same_seat(before, after)
    &&& hand.len() == 13
    &&& before.spec_best(None) ==> hand == before.spec_initial().subrange(0, 13)
    &&& !before.spec_best(None) ==> before.spec_best(Some(hand))
    &&& hand.to_multiset().subset_of(before.spec_held())
    &&& after.spec_held() == before.spec_held().sub(hand.to_multiset())
    &&& after.spec_waits() == before.spec_waits().union(Set::new(|wait: Tile| spec_waits_for(hand, wait)))
    &&& after.spec_safe() == before.spec_safe()
}

/// Whether a player has discarded a tile that it held, chosen as a
/// player chooses its discards.
pub open spec fn spec_discarded(before: Bot, after: Bot, tile: Tile) -> bool {
    &&& spec_same_seat(before, after)
    &&& before.spec_held().count(tile) > 0
    &&& spec_discard(before.spec_held(), before.spec_safe(), before.spec_waits(), tile)
    &&& after.spec_held() == before.spec_held().remove(tile)
    &&& after.spec_waits() == before.spec_waits()
    &&& after.spec_safe() == before.spec_safe()
}

/// Whether a player has noted a discard of the opponent.
pub open spec fn spec_noted(before: Bot, after: Bot, tile: Tile) -> bool {
    &&& spec_same_seat(before, after)
    &&& after.spec_held() == before.spec_held()
    &&& after.spec_waits() == before.spec_waits()
    &&& after.spec_safe() == before.spec_safe().insert(tile)
}

/// Whether a player can take a message: asked for a hand, it has a deal
/// of thirteen tiles at least and holds all of it; asked for a discard,
/// it holds a tile.
pub open spec fn spec_can_react(bot: Bot, msg: MsgView) -> bool {
    match msg {
        MsgView::StartMove { move_type: MoveType::Hand, .. } => bot.wf() && bot.spec_initial().len() >= 13 && bot.spec_held() == bot.spec_initial().to_multiset(),
        MsgView::StartMove { move_type: MoveType::Discard, .. } => bot.spec_held().len() > 0,
        _ => true,
    }
}

/// What a player at a seat does on a message of the table, and how it
/// is afterwards.
pub open spec fn spec_react(before: Bot, you: usize, msg: MsgView, after: Bot, reply: Reply) -> bool {
    match msg {
        MsgView::StartMove { move_type: MoveType::Hand, .. } => reply matches Reply::Hand(hand) && spec_kept(before, after, hand@),
        MsgView::StartMove { move_type: MoveType::Discard, .. } => reply matches Reply::Discard(tile) && spec_discarded(before, after, tile),
        MsgView::Hand { .. } => reply is Nothing && after == before,
        MsgView::EndMove => reply is Nothing && after == before,
        MsgView::WaitForPhaseTwo => reply is Nothing && after == before,
        MsgView::PhaseTwo => reply is Nothing && after == before,
        MsgView::Discarded { player, tile } => reply is Nothing && if player != you {
            spec_noted(before, after, tile)
        } else {
            after == before
        },
        MsgView::Ron { .. } => reply is Done && after == before,
        MsgView::Draw => reply is Done && after == before,
        MsgView::Abort { .. } => reply is Done && after == before,
        _ => reply is Unexpected && after == before,
    }
}

/// Takes a message as a player who waits for the deal: the list of
/// games and the seats of a room are passed over; the deal makes the
/// player, with east as its wind at the east seat and west at the
/// other.
pub fn greet(msg: &Msg) -> (greeting: Greeting)
    requires
        msg matches Msg::PhaseOne { tiles, .. } ==> tiles@.len() <= isize::MAX,
    ensures
        match msg@ {
            MsgView::Room { .. } => greeting is Wait,
            MsgView::Games { .. } => greeting is Wait,
            MsgView::PhaseOne { tiles, dora_ind, you, east } => greeting matches Greeting::Deal(bot, seat) && seat == you && spec_dealt(bot, tiles, dora_ind, you, east),
            _ => greeting is Unexpected,
        },
{
    match msg {
        Msg::Room { .. } => Greeting::Wait,
        Msg::Games { .. } => Greeting::Wait,
        Msg::PhaseOne { tiles, dora_ind, you, east } => {
            let player_wind = if *you == *east {
                Tile::X1
            } else {
                Tile::X3
            };
            Greeting::Deal(Bot::new(tiles.as_slice(), *dora_ind, player_wind), *you)
        },
        _ => Greeting::Unexpected,
    }
}

/// Takes a message as a player at play.
pub fn react(bot: &mut Bot, you: usize, msg: &Msg) -> (reply: Reply)
    requires
        spec_can_react(*old(bot), msg@),
    ensures
        spec_react(*old(bot), you, msg@, *final(bot), reply),
{
    match msg {
        Msg::StartMove { move_type, .. } => match move_type {
            MoveType::Hand => Reply::Hand(bot.choose_hand()),
            MoveType::Discard => Reply::Discard(bot.choose_discard()),
        },
        Msg::Hand { .. } => Reply::Nothing,
        Msg::EndMove => Reply::Nothing,
        Msg::WaitForPhaseTwo => Reply::Nothing,
        Msg::PhaseTwo => Reply::Nothing,
        Msg::Discarded { player, tile } => {
            if *player != you {
                bot.opponent_discard(*tile);
            }
            Reply::Nothing
        },
        Msg::Ron { .. } => Reply::Done,
        Msg::Draw => Reply::Done,
        Msg::Abort { .. } => Reply::Done,
        _ => Reply::Unexpected,
    }
}

} // verus!
