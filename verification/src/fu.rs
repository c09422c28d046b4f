//! The fu value of a winning hand.

use crate::hand::{Group, Hand};
use crate::tiles::Tile;
use vstd::prelude::*;

verus! {

/// Whether the winning tile completed a run on one of two open sides.
pub open spec fn spec_open_wait(hand: Hand) -> bool {
    hand matches Hand::Normal(_, groups, wait, Some(at)) && groups[at as int].spec_is_open_wait(wait)
}

/// Whether the winning tile completed a triplet.
pub open spec fn spec_pon_wait(hand: Hand) -> bool {
    hand matches Hand::Normal(_, groups, _, Some(at)) && groups[at as int] is Pon
}

/// All four groups are runs, the pair earns nothing, and the wait was open.
pub open spec fn spec_riskless(hand: Hand, player_wind: Tile) -> bool {
    hand matches Hand::Normal(pair, groups, _, _) && (forall|i: int| 0 <= i < 4 ==> (#[trigger] groups[i]) is Chi)
        && !pair.spec_is_yakuhai(player_wind) && spec_open_wait(hand)
}

/// What one group adds: a triplet gives 2, twice that for terminals and
/// honors, and twice that again unless the winning tile completed it.
pub open spec fn spec_group_fu(group: Group, completed_by_wait: bool) -> int {
    match group {
        Group::Pon(t) => 2 * (if t.spec_is_yaochu() { 2int } else { 1 }) * (if completed_by_wait { 1int } else { 2 }),
        Group::Chi(_) => 0,
    }
}

/// What the first `n` groups of a hand add together.
pub open spec fn spec_groups_fu(groups: [Group; 4], at: Option<u8>, n: int) -> int
    decreases n,
{
    if n <= 0 {
        0
    } else {
        spec_groups_fu(groups, at, n - 1) + spec_group_fu(groups[n - 1], at == Some((n - 1) as u8))
    }
}

/// The fu of a hand before rounding.
pub open spec fn spec_raw_fu(hand: Hand, player_wind: Tile) -> int {
    match hand {
        Hand::Normal(pair, groups, _, at) => 30 + (if pair.spec_is_yakuhai(player_wind) { 2int } else { 0 })
            + (if !spec_pon_wait(hand) && !spec_open_wait(hand) { 2int } else { 0 })
            + spec_groups_fu(groups, at, 4),
        Hand::Pairs(_, _) => 25,
        Hand::Kokushi(_, _) => 30,
    }
}

/// The fu of a hand: 25 for seven pairs, 30 for thirteen orphans and for
/// the riskless shape, else the raw sum rounded up to a multiple of 10.
pub open spec fn spec_fu(hand: Hand, player_wind: Tile) -> int {
    match hand {
        Hand::Normal(_, _, _, _) => if spec_riskless(hand, player_wind) {
            30
        } else {
            (spec_raw_fu(hand, player_wind) + 9) / 10 * 10
        },
        Hand::Pairs(_, _) => 25,
        Hand::Kokushi(_, _) => 30,
    }
}

/// The fu value of a hand for a player with the given seat wind.
pub fn fu(hand: &Hand, player_wind: Tile) -> (points: usize)
    requires
        hand.wf(),
    ensures
        points == spec_fu(*hand, player_wind),
        *hand is Normal ==> points % 10 == 0 && 30 <= points <= 70,
        *hand is Pairs ==> points == 25,
        *hand is Kokushi ==> points == 30,
{
    match hand {
        Hand::Normal(pair, groups, wait, at) => {
            let mut is_open_wait = false;
            let mut is_pon_wait = false;
            match at {
                Some(n) => {
                    let g = groups[*n as usize];
                    is_open_wait = g.is_open_wait(*wait);
                    is_pon_wait = g.is_pon();
                },
                None => {},
            }
            let mut all_chi = true;
            let mut i: usize = 0;
            while i < 4
                invariant
                    i <= 4,
                    all_chi == (forall|k: int| 0 <= k < i ==> (#[trigger] groups[k]) is Chi),
                decreases 4 - i,
            {
                if !groups[i].is_chi() {
                    all_chi = false;
                }
                i = i + 1;
            }
            if all_chi && !pair.is_yakuhai(player_wind) && is_open_wait {
                return 30;
            }
            let mut fu: usize = 30;
            if pair.is_yakuhai(player_wind) {
                fu = fu + 2;
            }
            if !is_pon_wait && !is_open_wait {
                fu = fu + 2;
            }
            let ghost base = fu as int;
            let mut i: usize = 0;
            while i < 4
                invariant
                    i <= 4,
                    hand.wf(),
                    *hand == Hand::Normal(*pair, *groups, *wait, *at),
                    30 <= base <= 34,
                    fu == base + spec_groups_fu(*groups, *at, i as int),
                    base <= fu <= base + 8 * i,
                decreases 4 - i,
            {
                match groups[i] {
                    Group::Pon(tile) => {
                        let mut p: usize = 2;
                        if tile.is_yaochu() {
                            p = p * 2;
                        }
                        let completed: bool = match at {
                            Some(n) => *n as usize == i,
                            None => false,
                        };
                        if !completed {
                            p = p * 2;
                        }
                        fu = fu + p;
                    },
                    Group::Chi(_) => {},
                }
                i = i + 1;
            }
            let tens: usize = (fu + 9) / 10;
            assert(3 <= tens <= 7);
            assert((tens * 10) % 10 == 0) by (nonlinear_arith)
                requires
                    0 <= tens,
            ;
            tens * 10
        },
        Hand::Pairs(_, _) => 25,
        Hand::Kokushi(_, _) => 30,
    }
}

} // verus!
