//! Limit tier and points of a winning hand.

use crate::fu::{fu, spec_fu};
use crate::hand::Hand;
use crate::tiles::Tile;
use crate::yaku::{
    lemma_fan_sum, occurrences, spec_fan_sum, spec_listed, spec_total_fan, spec_yaku_list, yaku,
    yaku_ascending, Yaku,
};
use vstd::prelude::*;

verus! {

/// The fan that count towards the limit: below 13, each dora tile adds
/// one, up to 13.
pub open spec fn spec_counted_fan(fan: int, dora_count: int) -> int {
    if fan < 13 {
        if fan + dora_count < 13 {
            fan + dora_count
        } else {
            13
        }
    } else {
        fan
    }
}

/// The limit tier for the fan that count and the fu: 0 pays nothing, 1 is
/// mangan, 2 haneman, 3 baiman, 4 sanbaiman, 5 yakuman, 6 double yakuman.
pub open spec fn spec_tier(fan: int, fu: int) -> int {
    if fan <= 2 {
        0
    } else if fan == 3 && fu < 60 {
        0
    } else if fan == 4 && fu < 30 {
        0
    } else if fan <= 5 {
        1
    } else if fan <= 7 {
        2
    } else if fan <= 10 {
        3
    } else if fan <= 12 {
        4
    } else if fan == 13 {
        5
    } else {
        6
    }
}

/// The points that a limit tier pays.
pub open spec fn spec_tier_points(tier: int) -> int {
    if tier == 1 {
        8000
    } else if tier == 2 {
        12000
    } else if tier == 3 {
        16000
    } else if tier == 4 {
        24000
    } else if tier == 5 {
        32000
    } else if tier == 6 {
        64000
    } else {
        0
    }
}

/// What a winning hand is worth: its patterns, its tiles, its fu, and the
/// number of dora tiles counted so far.
#[derive(Debug)]
pub struct Score {
    pub yaku: Vec<Yaku>,
    pub tiles: Vec<Tile>,
    pub fu: usize,
    pub dora_count: usize,
}

impl Score {
    /// Patterns, tiles and fu of a hand, with no dora counted yet.
    pub fn from_hand(hand: &Hand, player_wind: Tile, special: &[Yaku]) -> (score: Score)
        requires
            hand.wf(),
        ensures
            score.yaku@ == spec_yaku_list(*hand, player_wind, special@),
            yaku_ascending(score.yaku@),
            forall|y: Yaku| #[trigger] occurrences(score.yaku@, y) == spec_listed(*hand, player_wind, special@, y),
            score.tiles@ == hand.spec_tiles(),
            score.tiles@.len() == 14,
            score.fu == spec_fu(*hand, player_wind),
            score.dora_count == 0,
            score.yaku@.len() <= special@.len() + 31,
            spec_fan_sum(score.yaku@) == spec_total_fan(*hand, player_wind, special@),
    {
        let tiles = hand.tiles();
        let yaku = yaku(hand, player_wind, special);
        let fu = fu(hand, player_wind);
        proof {
            lemma_fan_sum(yaku@, |y: Yaku| spec_listed(*hand, player_wind, special@, y));
        }
        Score { yaku, tiles, fu, dora_count: 0 }
    }

    /// How many tiles of the hand are the dora.
    pub fn count_dora(&self, dora: Tile) -> (n: usize)
        ensures
            n == self.tiles@.to_multiset().count(dora),
    {
        let mut result: usize = 0;
        let mut i: usize = 0;
        proof {
            broadcast use vstd::seq_lib::group_to_multiset_ensures;
            assert(self.tiles@.subrange(0, 0).to_multiset().count(dora) <= self.tiles@.subrange(0, 0).to_multiset().len());
        }
        while i < self.tiles.len()
            invariant
                i <= self.tiles@.len(),
                result <= i,
                result == self.tiles@.subrange(0, i as int).to_multiset().count(dora),
            decreases self.tiles@.len() - i,
        {
            proof {
                broadcast use vstd::seq_lib::group_to_multiset_ensures;
                assert(self.tiles@.subrange(0, i + 1) =~= self.tiles@.subrange(0, i as int).push(self.tiles@[i as int]));
            }
            if self.tiles[i] == dora {
                result = result + 1;
            }
            i = i + 1;
        }
        proof {
            assert(self.tiles@.subrange(0, i as int) =~= self.tiles@);
        }
        result
    }

    /// Counts the tiles of the hand that are the given dora.
    pub fn add_dora(&mut self, dora: Tile)
        requires
            old(self).dora_count + old(self).tiles@.len() <= usize::MAX,
        ensures
            final(self).dora_count == old(self).dora_count + old(self).tiles@.to_multiset().count(dora),
            final(self).dora_count <= old(self).dora_count + old(self).tiles@.len(),
            final(self).yaku == old(self).yaku,
            final(self).tiles == old(self).tiles,
            final(self).fu == old(self).fu,
    {
        proof {
            broadcast use vstd::seq_lib::group_to_multiset_ensures;
            assert(self.tiles@.to_multiset().count(dora) <= self.tiles@.to_multiset().len());
        }
        self.dora_count = self.dora_count + self.count_dora(dora);
    }

    /// Counts the tiles of the hand that are the given dora, and hands the
    /// score back for the next call.
    pub fn with_dora(&mut self, dora: Tile) -> (score: &mut Score)
        requires
            old(self).dora_count + old(self).tiles@.len() <= usize::MAX,
        ensures
            score.dora_count == old(self).dora_count + old(self).tiles@.to_multiset().count(dora),
            score.yaku == old(self).yaku,
            score.tiles == old(self).tiles,
            score.fu == old(self).fu,
            *final(self) == *final(score),
    {
        self.add_dora(dora);
        self
    }

    /// The sum of the fan of the patterns.
    pub fn fan(&self) -> (n: usize)
        requires
            13 * self.yaku@.len() <= usize::MAX,
        ensures
            n == spec_fan_sum(self.yaku@),
    {
        let mut total: usize = 0;
        let mut i: usize = 0;
        while i < self.yaku.len()
            invariant
                i <= self.yaku@.len(),
                13 * self.yaku@.len() <= usize::MAX,
                total <= 13 * i,
                total == spec_fan_sum(self.yaku@.subrange(0, i as int)),
            decreases self.yaku@.len() - i,
        {
            proof {
                assert(self.yaku@.subrange(0, i + 1).drop_last() =~= self.yaku@.subrange(0, i as int));
            }
            total = total + self.yaku[i].fan();
            i = i + 1;
        }
        proof {
            assert(self.yaku@.subrange(0, i as int) =~= self.yaku@);
        }
        total
    }

    /// The limit tier of the hand, from 0 (no payout) to 6.
    pub fn limit(&self) -> (tier: usize)
        requires
            13 * self.yaku@.len() <= usize::MAX,
        ensures
            tier == spec_tier(spec_counted_fan(spec_fan_sum(self.yaku@) as int, self.dora_count as int), self.fu as int),
            tier <= 6,
    {
        let mut fan: usize = self.fan();
        if fan < 13 {
            if self.dora_count < 13 - fan {
                fan = fan + self.dora_count;
            } else {
                fan = 13;
            }
        }
        if fan <= 2 {
            0
        } else if fan == 3 && self.fu < 60 {
            0
        } else if fan == 4 && self.fu < 30 {
            0
        } else if fan <= 5 {
            1
        } else if fan <= 7 {
            2
        } else if fan <= 10 {
            3
        } else if fan <= 12 {
            4
        } else if fan == 13 {
            5
        } else {
            6
        }
    }

    /// The points that the hand pays.
    pub fn points(&self) -> (points: usize)
        requires
            13 * self.yaku@.len() <= usize::MAX,
        ensures
            points == spec_tier_points(
                spec_tier(spec_counted_fan(spec_fan_sum(self.yaku@) as int, self.dora_count as int), self.fu as int),
            ),
    {
        let base_points: [usize; 7] = [0, 8000, 12000, 16000, 24000, 32000, 64000];
        base_points[self.limit()]
    }
}

} // verus!
