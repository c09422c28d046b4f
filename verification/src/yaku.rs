//! Scoring patterns and the rules that find them in a winning hand.

use crate::fu::{fu, spec_fu};
use crate::hand::{Group, Hand};
use crate::score::{spec_tier, spec_tier_points};
use crate::tiles::Tile;
use vstd::prelude::*;

verus! {

/// A scoring pattern. The order of the variants is the order in which
/// patterns are listed.
#[derive(Debug, Copy, Clone, PartialEq, Eq, PartialOrd, Ord, Hash, Structural)]
pub enum Yaku {
    // one fan
    Pinfu,
    Iipeiko,
    Tanyao,
    Wind,
    Haku,
    Hatsu,
    Chun,
    // two fan
    Sanshokudojun,
    Sanshokudoko,
    Itsuu,
    Chitoitsu,
    Chanta,
    Honroto,
    Toitoi,
    Sananko,
    Shosangen,
    // three fan
    Ryanpeiko,
    Junchan,
    Honitsu,
    // six fan
    Chinitsu,
    // yakuman
    Daisangen,
    Kokushi,
    Suuanko,
    Suushi,
    Chinroto,
    Tsuuiiso,
    Ryuuiiso,
    Chuuren,
    // given by the course of play, not by the hand
    Riichi,
    Ippatsu,
    Hotei,
}

impl Yaku {
    /// The weight of the pattern; 13 marks a yakuman.
    pub open spec fn spec_fan(self) -> usize {
        match self {
            Yaku::Pinfu | Yaku::Iipeiko | Yaku::Tanyao | Yaku::Wind | Yaku::Haku | Yaku::Hatsu
            | Yaku::Chun => 1,
            Yaku::Sanshokudojun | Yaku::Sanshokudoko | Yaku::Itsuu | Yaku::Chitoitsu
            | Yaku::Chanta | Yaku::Honroto | Yaku::Toitoi | Yaku::Sananko | Yaku::Shosangen => 2,
            Yaku::Ryanpeiko | Yaku::Junchan | Yaku::Honitsu => 3,
            Yaku::Chinitsu => 6,
            Yaku::Daisangen | Yaku::Kokushi | Yaku::Suuanko | Yaku::Suushi | Yaku::Chinroto
            | Yaku::Tsuuiiso | Yaku::Ryuuiiso | Yaku::Chuuren => 13,
            Yaku::Riichi | Yaku::Ippatsu | Yaku::Hotei => 1,
        }
    }

    #[verifier::when_used_as_spec(spec_fan)]
    pub fn fan(self) -> (n: usize)
        ensures
            n == self.spec_fan(),
            1 <= n <= 13,
    {
        match self {
            Yaku::Pinfu | Yaku::Iipeiko | Yaku::Tanyao | Yaku::Wind | Yaku::Haku | Yaku::Hatsu
            | Yaku::Chun => 1,
            Yaku::Sanshokudojun | Yaku::Sanshokudoko | Yaku::Itsuu | Yaku::Chitoitsu
            | Yaku::Chanta | Yaku::Honroto | Yaku::Toitoi | Yaku::Sananko | Yaku::Shosangen => 2,
            Yaku::Ryanpeiko | Yaku::Junchan | Yaku::Honitsu => 3,
            Yaku::Chinitsu => 6,
            Yaku::Daisangen | Yaku::Kokushi | Yaku::Suuanko | Yaku::Suushi | Yaku::Chinroto
            | Yaku::Tsuuiiso | Yaku::Ryuuiiso | Yaku::Chuuren => 13,
            Yaku::Riichi | Yaku::Ippatsu | Yaku::Hotei => 1,
        }
    }

    /// Position of the pattern in the order of the variants.
    pub open spec fn spec_rank(self) -> usize {
        match self {
            Yaku::Pinfu => 0, Yaku::Iipeiko => 1, Yaku::Tanyao => 2, Yaku::Wind => 3,
            Yaku::Haku => 4, Yaku::Hatsu => 5, Yaku::Chun => 6, Yaku::Sanshokudojun => 7,
            Yaku::Sanshokudoko => 8, Yaku::Itsuu => 9, Yaku::Chitoitsu => 10,
            Yaku::Chanta => 11, Yaku::Honroto => 12, Yaku::Toitoi => 13, Yaku::Sananko => 14,
            Yaku::Shosangen => 15, Yaku::Ryanpeiko => 16, Yaku::Junchan => 17,
            Yaku::Honitsu => 18, Yaku::Chinitsu => 19, Yaku::Daisangen => 20,
            Yaku::Kokushi => 21, Yaku::Suuanko => 22, Yaku::Suushi => 23, Yaku::Chinroto => 24,
            Yaku::Tsuuiiso => 25, Yaku::Ryuuiiso => 26, Yaku::Chuuren => 27, Yaku::Riichi => 28,
            Yaku::Ippatsu => 29, Yaku::Hotei => 30,
        }
    }

    /// The pattern at a position of the order of the variants; positions
    /// past the last stand for the last.
    pub open spec fn of_rank(n: int) -> Yaku {
        if n == 0 {
            Yaku::Pinfu
        } else if n == 1 {
            Yaku::Iipeiko
        } else if n == 2 {
            Yaku::Tanyao
        } else if n == 3 {
            Yaku::Wind
        } else if n == 4 {
            Yaku::Haku
        } else if n == 5 {
            Yaku::Hatsu
        } else if n == 6 {
            Yaku::Chun
        } else if n == 7 {
            Yaku::Sanshokudojun
        } else if n == 8 {
            Yaku::Sanshokudoko
        } else if n == 9 {
            Yaku::Itsuu
        } else if n == 10 {
            Yaku::Chitoitsu
        } else if n == 11 {
            Yaku::Chanta
        } else if n == 12 {
            Yaku::Honroto
        } else if n == 13 {
            Yaku::Toitoi
        } else if n == 14 {
            Yaku::Sananko
        } else if n == 15 {
            Yaku::Shosangen
        } else if n == 16 {
            Yaku::Ryanpeiko
        } else if n == 17 {
            Yaku::Junchan
        } else if n == 18 {
            Yaku::Honitsu
        } else if n == 19 {
            Yaku::Chinitsu
        } else if n == 20 {
            Yaku::Daisangen
        } else if n == 21 {
            Yaku::Kokushi
        } else if n == 22 {
            Yaku::Suuanko
        } else if n == 23 {
            Yaku::Suushi
        } else if n == 24 {
            Yaku::Chinroto
        } else if n == 25 {
            Yaku::Tsuuiiso
        } else if n == 26 {
            Yaku::Ryuuiiso
        } else if n == 27 {
            Yaku::Chuuren
        } else if n == 28 {
            Yaku::Riichi
        } else if n == 29 {
            Yaku::Ippatsu
        } else {
            Yaku::Hotei
        }
    }

    #[verifier::when_used_as_spec(spec_rank)]
    pub fn rank(self) -> (n: usize)
        ensures
            n == self.spec_rank(),
            n <= 30,
    {
        match self {
            Yaku::Pinfu => 0, Yaku::Iipeiko => 1, Yaku::Tanyao => 2, Yaku::Wind => 3,
            Yaku::Haku => 4, Yaku::Hatsu => 5, Yaku::Chun => 6, Yaku::Sanshokudojun => 7,
            Yaku::Sanshokudoko => 8, Yaku::Itsuu => 9, Yaku::Chitoitsu => 10,
            Yaku::Chanta => 11, Yaku::Honroto => 12, Yaku::Toitoi => 13, Yaku::Sananko => 14,
            Yaku::Shosangen => 15, Yaku::Ryanpeiko => 16, Yaku::Junchan => 17,
            Yaku::Honitsu => 18, Yaku::Chinitsu => 19, Yaku::Daisangen => 20,
            Yaku::Kokushi => 21, Yaku::Suuanko => 22, Yaku::Suushi => 23, Yaku::Chinroto => 24,
            Yaku::Tsuuiiso => 25, Yaku::Ryuuiiso => 26, Yaku::Chuuren => 27, Yaku::Riichi => 28,
            Yaku::Ippatsu => 29, Yaku::Hotei => 30,
        }
    }
}

/// What holds of each of the 31 patterns holds of every pattern.
pub proof fn lemma_each_yaku(f: spec_fn(Yaku) -> bool)
    requires
        f(Yaku::Pinfu),
        f(Yaku::Iipeiko),
        f(Yaku::Tanyao),
        f(Yaku::Wind),
        f(Yaku::Haku),
        f(Yaku::Hatsu),
        f(Yaku::Chun),
        f(Yaku::Sanshokudojun),
        f(Yaku::Sanshokudoko),
        f(Yaku::Itsuu),
        f(Yaku::Chitoitsu),
        f(Yaku::Chanta),
        f(Yaku::Honroto),
        f(Yaku::Toitoi),
        f(Yaku::Sananko),
        f(Yaku::Shosangen),
        f(Yaku::Ryanpeiko),
        f(Yaku::Junchan),
        f(Yaku::Honitsu),
        f(Yaku::Chinitsu),
        f(Yaku::Daisangen),
        f(Yaku::Kokushi),
        f(Yaku::Suuanko),
        f(Yaku::Suushi),
        f(Yaku::Chinroto),
        f(Yaku::Tsuuiiso),
        f(Yaku::Ryuuiiso),
        f(Yaku::Chuuren),
        f(Yaku::Riichi),
        f(Yaku::Ippatsu),
        f(Yaku::Hotei),
    ensures
        forall|y: Yaku| #[trigger] f(y),
{
    assert forall|y: Yaku| #[trigger] f(y) by {
        assert(y == Yaku::Pinfu || y == Yaku::Iipeiko || y == Yaku::Tanyao || y == Yaku::Wind
            || y == Yaku::Haku || y == Yaku::Hatsu || y == Yaku::Chun || y == Yaku::Sanshokudojun
            || y == Yaku::Sanshokudoko || y == Yaku::Itsuu || y == Yaku::Chitoitsu
            || y == Yaku::Chanta || y == Yaku::Honroto || y == Yaku::Toitoi || y == Yaku::Sananko
            || y == Yaku::Shosangen || y == Yaku::Ryanpeiko || y == Yaku::Junchan
            || y == Yaku::Honitsu || y == Yaku::Chinitsu || y == Yaku::Daisangen
            || y == Yaku::Kokushi || y == Yaku::Suuanko || y == Yaku::Suushi || y == Yaku::Chinroto
            || y == Yaku::Tsuuiiso || y == Yaku::Ryuuiiso || y == Yaku::Chuuren || y == Yaku::Riichi
            || y == Yaku::Ippatsu || y == Yaku::Hotei);
    }
}

/// Whether a list of patterns is in ascending order.
pub open spec fn yaku_ascending(s: Seq<Yaku>) -> bool {
    forall|i: int, j: int| 0 <= i < j < s.len() ==> s[i].spec_rank() <= s[j].spec_rank()
}

/// How often a pattern occurs in a list.
#[verifier::opaque]
pub open spec fn occurrences(s: Seq<Yaku>, y: Yaku) -> nat {
    s.to_multiset().count(y)
}

/// A pattern occurs in a list where its number of occurrences is positive.
pub proof fn lemma_occurs(s: Seq<Yaku>, y: Yaku)
    ensures
        s.contains(y) <==> occurrences(s, y) > 0,
        s.len() == 0 ==> occurrences(s, y) == 0,
        occurrences(s, y) == s.to_multiset().count(y),
        occurrences(s, y) <= s.len(),
{
    reveal(occurrences);
    broadcast use vstd::seq_lib::group_to_multiset_ensures;
    assert(s.to_multiset().count(y) <= s.to_multiset().len());
}

/// Occurrences in a list that grows by one pattern.
pub proof fn lemma_occurrences_push(a: Seq<Yaku>, x: Yaku, y: Yaku)
    ensures
        occurrences(a.push(x), y) == occurrences(a, y) + (if x == y { 1int } else { 0 }),
{
    reveal(occurrences);
    broadcast use vstd::seq_lib::group_to_multiset_ensures;
}

/// A list in which no pattern occurs twice holds 31 patterns at most.
pub proof fn lemma_short(s: Seq<Yaku>)
    requires
        forall|y: Yaku| #[trigger] occurrences(s, y) <= 1,
    ensures
        s.len() <= 31,
{
    reveal(occurrences);
    broadcast use vstd::seq_lib::group_to_multiset_ensures;
    assert forall|y: Yaku| s.to_multiset().contains(y) implies s.to_multiset().count(y) == 1 by {
        assert(occurrences(s, y) <= 1);
    }
    s.lemma_multiset_has_no_duplicates_conv();
    s.unique_seq_to_set();
    let all = set![Yaku::Pinfu, Yaku::Iipeiko, Yaku::Tanyao, Yaku::Wind, Yaku::Haku, Yaku::Hatsu,
        Yaku::Chun, Yaku::Sanshokudojun, Yaku::Sanshokudoko, Yaku::Itsuu, Yaku::Chitoitsu,
        Yaku::Chanta, Yaku::Honroto, Yaku::Toitoi, Yaku::Sananko, Yaku::Shosangen, Yaku::Ryanpeiko,
        Yaku::Junchan, Yaku::Honitsu, Yaku::Chinitsu, Yaku::Daisangen, Yaku::Kokushi, Yaku::Suuanko,
        Yaku::Suushi, Yaku::Chinroto, Yaku::Tsuuiiso, Yaku::Ryuuiiso, Yaku::Chuuren, Yaku::Riichi,
        Yaku::Ippatsu, Yaku::Hotei];
    assert(s.to_set().subset_of(all));
    vstd::set_lib::lemma_len_subset(s.to_set(), all);
    assert(all.len() == 31) by {
        lemma_all_yaku(all);
    }
}

/// The 31 patterns form a set of 31.
proof fn lemma_all_yaku(all: Set<Yaku>)
    requires
        all == set![Yaku::Pinfu, Yaku::Iipeiko, Yaku::Tanyao, Yaku::Wind, Yaku::Haku, Yaku::Hatsu,
            Yaku::Chun, Yaku::Sanshokudojun, Yaku::Sanshokudoko, Yaku::Itsuu, Yaku::Chitoitsu,
            Yaku::Chanta, Yaku::Honroto, Yaku::Toitoi, Yaku::Sananko, Yaku::Shosangen,
            Yaku::Ryanpeiko, Yaku::Junchan, Yaku::Honitsu, Yaku::Chinitsu, Yaku::Daisangen,
            Yaku::Kokushi, Yaku::Suuanko, Yaku::Suushi, Yaku::Chinroto, Yaku::Tsuuiiso,
            Yaku::Ryuuiiso, Yaku::Chuuren, Yaku::Riichi, Yaku::Ippatsu, Yaku::Hotei],
    ensures
        all.len() == 31,
        all.finite(),
{
    broadcast use vstd::set::group_set_axioms;
}

/// A list without patterns.
fn no_yaku() -> (list: Vec<Yaku>)
    ensures
        list@.len() == 0,
        forall|y: Yaku| #[trigger] occurrences(list@, y) == 0,
{
    let list: Vec<Yaku> = Vec::new();
    proof {
        assert forall|y: Yaku| #[trigger] occurrences(list@, y) == 0 by {
            lemma_occurs(list@, y);
        }
    }
    list
}

/// The patterns of a list in ascending order.
fn sort_yaku(list: &Vec<Yaku>) -> (sorted: Vec<Yaku>)
    ensures
        yaku_ascending(sorted@),
        sorted@.to_multiset() == list@.to_multiset(),
        sorted@.len() == list@.len(),
{
    let mut sorted: Vec<Yaku> = Vec::new();
    let mut i: usize = 0;
    proof {
        broadcast use vstd::seq_lib::group_to_multiset_ensures;
        assert(list@.subrange(0, 0) =~= sorted@);
    }
    while i < list.len()
        invariant
            i <= list@.len(),
            sorted@.len() == i,
            yaku_ascending(sorted@),
            sorted@.to_multiset() == list@.subrange(0, i as int).to_multiset(),
        decreases list@.len() - i,
    {
        let y = list[i];
        let mut at: usize = 0;
        while at < sorted.len() && sorted[at].rank() <= y.rank()
            invariant
                at <= sorted@.len(),
                forall|k: int| 0 <= k < at ==> sorted@[k].spec_rank() <= y.spec_rank(),
            decreases sorted@.len() - at,
        {
            at = at + 1;
        }
        proof {
            broadcast use vstd::seq_lib::group_to_multiset_ensures;
            assert(list@.subrange(0, i + 1) =~= list@.subrange(0, i as int).push(y));
        }
        sorted.insert(at, y);
        i = i + 1;
    }
    proof {
        assert(list@.subrange(0, i as int) =~= list@);
    }
    sorted
}

/// The list with a pattern appended where a condition holds.
fn push_when(list: Vec<Yaku>, when: bool, y: Yaku) -> (longer: Vec<Yaku>)
    ensures
        forall|z: Yaku| #[trigger] occurrences(longer@, z) == occurrences(list@, z) + (if when && z == y { 1int } else { 0 }),
{
    let mut longer = list;
    if when {
        longer.push(y);
    }
    proof {
        assert forall|z: Yaku| #[trigger] occurrences(longer@, z) == occurrences(list@, z) + (if when && z == y { 1int } else { 0 }) by {
            lemma_occurrences_push(list@, y, z);
        }
    }
    longer
}

/// Whether a test holds of every tile of a list.
fn every<F: Fn(Tile) -> bool>(tiles: &[Tile], test: F) -> (b: bool)
    requires
        forall|t: Tile| call_requires(test, (t,)),
    ensures
        b ==> forall|i: int| 0 <= i < tiles@.len() ==> call_ensures(test, (#[trigger] tiles@[i],), true),
        !b ==> exists|i: int| 0 <= i < tiles@.len() && call_ensures(test, (#[trigger] tiles@[i],), false),
{
    let mut i: usize = 0;
    while i < tiles.len()
        invariant
            i <= tiles@.len(),
            forall|t: Tile| call_requires(test, (t,)),
            forall|k: int| 0 <= k < i ==> call_ensures(test, (#[trigger] tiles@[k],), true),
        decreases tiles@.len() - i,
    {
        if !test(tiles[i]) {
            return false;
        }
        i = i + 1;
    }
    true
}

/// The pattern, if any, that the hand earns by what kinds of tiles it is
/// made of. The first that applies counts: no terminal or honor; only
/// terminals; only honors; only terminals and honors; one numbered suit;
/// one numbered suit and honors.
pub open spec fn spec_pure_yaku(suits: u8, tiles: Seq<Tile>) -> Option<Yaku> {
    if forall|i: int| 0 <= i < tiles.len() ==> !(#[trigger] tiles[i]).spec_is_yaochu() {
        Some(Yaku::Tanyao)
    } else if forall|i: int| 0 <= i < tiles.len() ==> (#[trigger] tiles[i]).spec_is_terminal() {
        Some(Yaku::Chinroto)
    } else if forall|i: int| 0 <= i < tiles.len() ==> (#[trigger] tiles[i]).spec_is_honor() {
        Some(Yaku::Tsuuiiso)
    } else if forall|i: int| 0 <= i < tiles.len() ==> (#[trigger] tiles[i]).spec_is_yaochu() {
        Some(Yaku::Honroto)
    } else if suits == 2 || suits == 4 || suits == 8 {
        Some(Yaku::Chinitsu)
    } else if suits == 3 || suits == 5 || suits == 9 {
        Some(Yaku::Honitsu)
    } else {
        None
    }
}

fn pure_yaku(suits: u8, tiles: &[Tile]) -> (found: Option<Yaku>)
    ensures
        found == spec_pure_yaku(suits, tiles@),
{
    if every(tiles, |t: Tile| -> (r: bool) ensures r == !t.spec_is_yaochu() { !t.is_yaochu() }) {
        return Some(Yaku::Tanyao);
    } else if every(tiles, |t: Tile| -> (r: bool) ensures r == t.spec_is_terminal() { t.is_terminal() }) {
        return Some(Yaku::Chinroto);
    } else if every(tiles, |t: Tile| -> (r: bool) ensures r == t.spec_is_honor() { t.is_honor() }) {
        return Some(Yaku::Tsuuiiso);
    } else if every(tiles, |t: Tile| -> (r: bool) ensures r == t.spec_is_yaochu() { t.is_yaochu() }) {
        return Some(Yaku::Honroto);
    }
    match suits {
        2 | 4 | 8 => Some(Yaku::Chinitsu),
        3 | 5 | 9 => Some(Yaku::Honitsu),
        _ => None,
    }
}

/// Whether one of the four groups is the triplet of a face.
pub open spec fn spec_pon(groups: [Group; 4], tile: Tile) -> bool {
    exists|i: int| 0 <= i < 4 && #[trigger] groups[i] == Group::Pon(tile)
}

fn pon(groups: &[Group; 4], tile: Tile) -> (b: bool)
    ensures
        b == spec_pon(*groups, tile),
{
    let mut i: usize = 0;
    while i < 4
        invariant
            i <= 4,
            forall|k: int| 0 <= k < i ==> #[trigger] groups[k] != Group::Pon(tile),
        decreases 4 - i,
    {
        match groups[i] {
            Group::Pon(t) => {
                if t == tile {
                    return true;
                }
            },
            _ => {},
        }
        i = i + 1;
    }
    false
}

/// Whether a face occurs in a list of tiles.
fn find(tiles: &[Tile], tile: Tile) -> (b: bool)
    ensures
        b == tiles@.contains(tile),
{
    let mut i: usize = 0;
    while i < tiles.len()
        invariant
            i <= tiles@.len(),
            forall|k: int| 0 <= k < i ==> tiles@[k] != tile,
        decreases tiles@.len() - i,
    {
        if tiles[i] == tile {
            return true;
        }
        i = i + 1;
    }
    false
}

/// Whether a relation holds of three of the four groups, taken in order.
pub open spec fn spec_three(groups: [Group; 4], f: spec_fn(Group, Group, Group) -> bool) -> bool {
    f(groups[0], groups[1], groups[2]) || f(groups[0], groups[1], groups[3]) || f(
        groups[0],
        groups[2],
        groups[3],
    ) || f(groups[1], groups[2], groups[3])
}

fn three<F: Fn(Group, Group, Group) -> bool>(groups: &[Group; 4], f: F) -> (b: bool)
    requires
        forall|g1: Group, g2: Group, g3: Group| call_requires(f, (g1, g2, g3)),
    ensures
        forall|p: spec_fn(Group, Group, Group) -> bool|
            (forall|g1: Group, g2: Group, g3: Group, r: bool| #[trigger] call_ensures(f, (g1, g2, g3), r) ==> r == p(g1, g2, g3))
            ==> b == #[trigger] spec_three(*groups, p),
{
    let r1 = f(groups[0], groups[1], groups[2]);
    let r2 = f(groups[0], groups[1], groups[3]);
    let r3 = f(groups[0], groups[2], groups[3]);
    let r4 = f(groups[1], groups[2], groups[3]);
    r1 || r2 || r3 || r4
}

/// Three runs that start at the same rank in man, pin and sou.
pub open spec fn spec_same_runs(g1: Group, g2: Group, g3: Group) -> bool {
    g1 matches Group::Chi(t1) && g2 matches Group::Chi(t2) && g3 matches Group::Chi(t3)
        && Tile::spec_sanshoku(t1, t2, t3)
}

/// Three triplets of the same rank in man, pin and sou.
pub open spec fn spec_same_triplets(g1: Group, g2: Group, g3: Group) -> bool {
    g1 matches Group::Pon(t1) && g2 matches Group::Pon(t2) && g3 matches Group::Pon(t3)
        && Tile::spec_sanshoku(t1, t2, t3)
}

/// The runs 1-2-3, 4-5-6 and 7-8-9 of one suit.
pub open spec fn spec_straight(g1: Group, g2: Group, g3: Group) -> bool {
    g1 matches Group::Chi(t1) && g2 matches Group::Chi(t2) && g3 matches Group::Chi(t3)
        && Tile::spec_itsuu(t1, t2, t3)
}

fn sanshokudojun(groups: &[Group; 4]) -> (b: bool)
    ensures
        b == spec_three(*groups, |g1: Group, g2: Group, g3: Group| spec_same_runs(g1, g2, g3)),
{
    three(
        groups,
        |g1: Group, g2: Group, g3: Group| -> (r: bool)
            ensures
                r == spec_same_runs(g1, g2, g3)
            {
                match (g1, g2, g3) {
                    (Group::Chi(t1), Group::Chi(t2), Group::Chi(t3)) => Tile::sanshoku(t1, t2, t3),
                    _ => false,
                }
            },
    )
}

fn sanshokudoko(groups: &[Group; 4]) -> (b: bool)
    ensures
        b == spec_three(*groups, |g1: Group, g2: Group, g3: Group| spec_same_triplets(g1, g2, g3)),
{
    three(
        groups,
        |g1: Group, g2: Group, g3: Group| -> (r: bool)
            ensures
                r == spec_same_triplets(g1, g2, g3)
            {
                match (g1, g2, g3) {
                    (Group::Pon(t1), Group::Pon(t2), Group::Pon(t3)) => Tile::sanshoku(t1, t2, t3),
                    _ => false,
                }
            },
    )
}

fn itsuu(groups: &[Group; 4]) -> (b: bool)
    ensures
        b == spec_three(*groups, |g1: Group, g2: Group, g3: Group| spec_straight(g1, g2, g3)),
{
    three(
        groups,
        |g1: Group, g2: Group, g3: Group| -> (r: bool)
            ensures
                r == spec_straight(g1, g2, g3)
            {
                match (g1, g2, g3) {
                    (Group::Chi(t1), Group::Chi(t2), Group::Chi(t3)) => Tile::itsuu(t1, t2, t3),
                    _ => false,
                }
            },
    )
}

/// Nine gates, read off the ascending tiles of a hand: one numbered suit,
/// the three lowest tiles one terminal, the three highest one terminal,
/// and no rank left out between neighbours.
pub open spec fn spec_chuuren(suits: u8, tiles: Seq<Tile>) -> bool {
    let n = tiles.len() as int;
    &&& suits == 2 || suits == 4 || suits == 8
    &&& tiles[0].spec_is_terminal() && tiles[0] == tiles[1] && tiles[1] == tiles[2]
    &&& tiles[n - 1].spec_is_terminal() && tiles[n - 1] == tiles[n - 2] && tiles[n - 2] == tiles[n - 3]
    &&& forall|i: int| 1 <= i < n ==> !((#[trigger] tiles[i - 1]).spec_has_next() && tiles[i - 1].index() + 1 < tiles[i].index())
}

fn chuuren(suits: u8, tiles: &[Tile]) -> (b: bool)
    requires
        tiles@.len() >= 3,
    ensures
        b == spec_chuuren(suits, tiles@),
{
    if !(suits == 2 || suits == 4 || suits == 8) {
        return false;
    }
    if !(tiles[0].is_terminal() && tiles[0] == tiles[1] && tiles[1] == tiles[2]) {
        return false;
    }
    let n: usize = tiles.len();
    if !(tiles[n - 1].is_terminal() && tiles[n - 1] == tiles[n - 2] && tiles[n - 2] == tiles[n - 3]) {
        return false;
    }
    let mut i: usize = 1;
    while i < n
        invariant
            1 <= i <= n,
            n == tiles@.len(),
            forall|k: int| 1 <= k < i ==> !((#[trigger] tiles@[k - 1]).spec_has_next() && tiles@[k - 1].index() + 1 < tiles@[k].index()),
        decreases n - i,
    {
        if tiles[i - 1].has_next() && tiles[i - 1].next().index() < tiles[i].index() {
            return false;
        }
        i = i + 1;
    }
    true
}

/// How many of the four groups are triplets.
pub open spec fn spec_pon_count(groups: [Group; 4]) -> int {
    (if groups[0] is Pon { 1int } else { 0 }) + (if groups[1] is Pon { 1int } else { 0 }) + (if groups[2] is Pon { 1int } else { 0 })
        + (if groups[3] is Pon { 1int } else { 0 })
}

/// Whether a hand of four groups and a pair, with the given ascending
/// tiles, earns a pattern by its groups, its pair or its wait.
#[verifier::opaque]
pub open spec fn spec_normal_pattern(hand: Hand, player_wind: Tile, tiles: Seq<Tile>, y: Yaku) -> bool {
    hand matches Hand::Normal(pair, groups, wait, at) && {
        let pons = spec_pon_count(groups);
        let two_twins = groups[0] == groups[1] && groups[2] == groups[3];
        let open_wait = at matches Some(n) && groups[n as int].spec_is_open_wait(wait);
        let three_dragons = spec_pon(groups, Tile::X5) && spec_pon(groups, Tile::X6) && spec_pon(groups, Tile::X7);
        let any_run = exists|i: int| 0 <= i < 4 && (#[trigger] groups[i]) is Chi;
        let terminals = pair.spec_is_terminal() && forall|i: int| 0 <= i < 4 ==> (#[trigger] groups[i]).spec_has_terminal();
        match y {
            Yaku::Ryanpeiko => two_twins,
            Yaku::Iipeiko => !two_twins && (groups[0] == groups[1] || groups[1] == groups[2] || groups[2] == groups[3]),
            Yaku::Pinfu => pons == 0 && !pair.spec_is_yakuhai(player_wind) && open_wait,
            Yaku::Toitoi => pons == 4,
            Yaku::Suuanko => pons == 4 && at is None,
            Yaku::Sananko => (pons == 4 && at is Some) || (pons == 3 && !(at matches Some(n) && groups[n as int] is Pon)),
            Yaku::Sanshokudojun => spec_three(groups, |g1: Group, g2: Group, g3: Group| spec_same_runs(g1, g2, g3)),
            Yaku::Sanshokudoko => spec_three(groups, |g1: Group, g2: Group, g3: Group| spec_same_triplets(g1, g2, g3)),
            Yaku::Itsuu => spec_three(groups, |g1: Group, g2: Group, g3: Group| spec_straight(g1, g2, g3)),
            Yaku::Wind => spec_pon(groups, player_wind),
            Yaku::Haku => spec_pon(groups, Tile::X5),
            Yaku::Hatsu => spec_pon(groups, Tile::X6),
            Yaku::Chun => spec_pon(groups, Tile::X7),
            Yaku::Daisangen => three_dragons,
            Yaku::Shosangen => !three_dragons && tiles.contains(Tile::X5) && tiles.contains(Tile::X6) && tiles.contains(Tile::X7),
            Yaku::Suushi => tiles.contains(Tile::X1) && tiles.contains(Tile::X2) && tiles.contains(Tile::X3) && tiles.contains(Tile::X4),
            Yaku::Junchan => any_run && terminals,
            Yaku::Chanta => any_run && !terminals && pair.spec_is_yaochu() && forall|i: int| 0 <= i < 4 ==> (#[trigger] groups[i]).spec_has_yaochu(),
            _ => false,
        }
    }
}

/// Which of the patterns of groups, pair and wait a hand earns.
struct GroupPatterns {
    ryanpeiko: bool,
    iipeiko: bool,
    pinfu: bool,
    toitoi: bool,
    suuanko: bool,
    sananko: bool,
    sanshokudojun: bool,
    sanshokudoko: bool,
    itsuu: bool,
    wind: bool,
    haku: bool,
    hatsu: bool,
    chun: bool,
    daisangen: bool,
    shosangen: bool,
    suushi: bool,
    junchan: bool,
    chanta: bool,
}

impl GroupPatterns {
    /// Each mark says whether the hand earns the pattern of its name.
    #[verifier::opaque]
    spec fn matches(self, hand: Hand, player_wind: Tile, tiles: Seq<Tile>) -> bool {
            &&& self.ryanpeiko == spec_normal_pattern(hand, player_wind, tiles, Yaku::Ryanpeiko)
            &&& self.iipeiko == spec_normal_pattern(hand, player_wind, tiles, Yaku::Iipeiko)
            &&& self.pinfu == spec_normal_pattern(hand, player_wind, tiles, Yaku::Pinfu)
            &&& self.toitoi == spec_normal_pattern(hand, player_wind, tiles, Yaku::Toitoi)
            &&& self.suuanko == spec_normal_pattern(hand, player_wind, tiles, Yaku::Suuanko)
            &&& self.sananko == spec_normal_pattern(hand, player_wind, tiles, Yaku::Sananko)
            &&& self.sanshokudojun == spec_normal_pattern(hand, player_wind, tiles, Yaku::Sanshokudojun)
            &&& self.sanshokudoko == spec_normal_pattern(hand, player_wind, tiles, Yaku::Sanshokudoko)
            &&& self.itsuu == spec_normal_pattern(hand, player_wind, tiles, Yaku::Itsuu)
            &&& self.wind == spec_normal_pattern(hand, player_wind, tiles, Yaku::Wind)
            &&& self.haku == spec_normal_pattern(hand, player_wind, tiles, Yaku::Haku)
            &&& self.hatsu == spec_normal_pattern(hand, player_wind, tiles, Yaku::Hatsu)
            &&& self.chun == spec_normal_pattern(hand, player_wind, tiles, Yaku::Chun)
            &&& self.daisangen == spec_normal_pattern(hand, player_wind, tiles, Yaku::Daisangen)
            &&& self.shosangen == spec_normal_pattern(hand, player_wind, tiles, Yaku::Shosangen)
            &&& self.suushi == spec_normal_pattern(hand, player_wind, tiles, Yaku::Suushi)
            &&& self.junchan == spec_normal_pattern(hand, player_wind, tiles, Yaku::Junchan)
            &&& self.chanta == spec_normal_pattern(hand, player_wind, tiles, Yaku::Chanta)
    }
}

fn group_patterns(hand: &Hand, player_wind: Tile, tiles: &[Tile]) -> (found: GroupPatterns)
    requires
        hand.wf(),
    ensures
        found.matches(*hand, player_wind, tiles@),
{
    let (pair, groups, wait, at) = match hand {
        Hand::Normal(pair, groups, wait, at) => (*pair, groups, *wait, *at),
        _ => {
            proof {
                reveal(GroupPatterns::matches);
                lemma_other_patterns(*hand, player_wind, tiles@);
            }
            return GroupPatterns {
                ryanpeiko: false,
                iipeiko: false,
                pinfu: false,
                toitoi: false,
                suuanko: false,
                sananko: false,
                sanshokudojun: false,
                sanshokudoko: false,
                itsuu: false,
                wind: false,
                haku: false,
                hatsu: false,
                chun: false,
                daisangen: false,
                shosangen: false,
                suushi: false,
                junchan: false,
                chanta: false,
            };
        },
    };
    let mut pon_count: usize = 0;
    let mut any_run = false;
    let mut all_terminal = true;
    let mut all_yaochu = true;
    let mut i: usize = 0;
    while i < 4
        invariant
            i <= 4,
            hand.wf(),
            *hand == Hand::Normal(pair, *groups, wait, at),
            pon_count <= i,
            i == 4 ==> pon_count == spec_pon_count(*groups),
            i == 0 ==> pon_count == 0,
            i == 1 ==> pon_count == (if groups[0] is Pon { 1int } else { 0 }),
            i == 2 ==> pon_count == (if groups[0] is Pon { 1int } else { 0 }) + (if groups[1] is Pon { 1int } else { 0 }),
            i == 3 ==> pon_count == (if groups[0] is Pon { 1int } else { 0 }) + (if groups[1] is Pon { 1int } else { 0 }) + (if groups[2] is Pon { 1int } else { 0 }),
            any_run == (exists|k: int| 0 <= k < i && (#[trigger] groups[k]) is Chi),
            all_terminal == (forall|k: int| 0 <= k < i ==> (#[trigger] groups[k]).spec_has_terminal()),
            all_yaochu == (forall|k: int| 0 <= k < i ==> (#[trigger] groups[k]).spec_has_yaochu()),
        decreases 4 - i,
    {
        let group = groups[i];
        if group.is_pon() {
            pon_count = pon_count + 1;
        } else {
            any_run = true;
        }
        if !group.has_terminal() {
            all_terminal = false;
        }
        if !group.has_yaochu() {
            all_yaochu = false;
        }
        i = i + 1;
    }
    let mut open_wait = false;
    let mut pon_wait = false;
    match at {
        Some(n) => {
            open_wait = groups[n as usize].is_open_wait(wait);
            pon_wait = groups[n as usize].is_pon();
        },
        None => {},
    }
    let two_twins = groups[0] == groups[1] && groups[2] == groups[3];
    let one_twin = groups[0] == groups[1] || groups[1] == groups[2] || groups[2] == groups[3];
    let haku = pon(groups, Tile::X5);
    let hatsu = pon(groups, Tile::X6);
    let chun = pon(groups, Tile::X7);
    let three_dragons = haku && hatsu && chun;
    let terminals = pair.is_terminal() && all_terminal;
    let found = GroupPatterns {
        ryanpeiko: two_twins,
        iipeiko: !two_twins && one_twin,
        pinfu: pon_count == 0 && !pair.is_yakuhai(player_wind) && open_wait,
        toitoi: pon_count == 4,
        suuanko: pon_count == 4 && at.is_none(),
        sananko: (pon_count == 4 && at.is_some()) || (pon_count == 3 && !pon_wait),
        sanshokudojun: sanshokudojun(groups),
        sanshokudoko: sanshokudoko(groups),
        itsuu: itsuu(groups),
        wind: pon(groups, player_wind),
        haku,
        hatsu,
        chun,
        daisangen: three_dragons,
        shosangen: !three_dragons && find(tiles, Tile::X5) && find(tiles, Tile::X6) && find(tiles, Tile::X7),
        suushi: find(tiles, Tile::X1) && find(tiles, Tile::X2) && find(tiles, Tile::X3) && find(tiles, Tile::X4),
        junchan: any_run && terminals,
        chanta: any_run && !terminals && pair.is_yaochu() && all_yaochu,
    };
    proof {
        let h = *hand;
        let s = tiles@;
        assert(found.ryanpeiko == spec_normal_pattern(h, player_wind, s, Yaku::Ryanpeiko)) by {
            reveal(spec_normal_pattern);
        }
        assert(found.iipeiko == spec_normal_pattern(h, player_wind, s, Yaku::Iipeiko)) by {
            reveal(spec_normal_pattern);
        }
        assert(found.pinfu == spec_normal_pattern(h, player_wind, s, Yaku::Pinfu)) by {
            reveal(spec_normal_pattern);
        }
        assert(found.toitoi == spec_normal_pattern(h, player_wind, s, Yaku::Toitoi)) by {
            reveal(spec_normal_pattern);
        }
        assert(found.suuanko == spec_normal_pattern(h, player_wind, s, Yaku::Suuanko)) by {
            reveal(spec_normal_pattern);
        }
        assert(found.sananko == spec_normal_pattern(h, player_wind, s, Yaku::Sananko)) by {
            reveal(spec_normal_pattern);
        }
        assert(found.sanshokudojun == spec_normal_pattern(h, player_wind, s, Yaku::Sanshokudojun)) by {
            reveal(spec_normal_pattern);
        }
        assert(found.sanshokudoko == spec_normal_pattern(h, player_wind, s, Yaku::Sanshokudoko)) by {
            reveal(spec_normal_pattern);
        }
        assert(found.itsuu == spec_normal_pattern(h, player_wind, s, Yaku::Itsuu)) by {
            reveal(spec_normal_pattern);
        }
        assert(found.wind == spec_normal_pattern(h, player_wind, s, Yaku::Wind)) by {
            reveal(spec_normal_pattern);
        }
        assert(found.haku == spec_normal_pattern(h, player_wind, s, Yaku::Haku)) by {
            reveal(spec_normal_pattern);
        }
        assert(found.hatsu == spec_normal_pattern(h, player_wind, s, Yaku::Hatsu)) by {
            reveal(spec_normal_pattern);
        }
        assert(found.chun == spec_normal_pattern(h, player_wind, s, Yaku::Chun)) by {
            reveal(spec_normal_pattern);
        }
        assert(found.daisangen == spec_normal_pattern(h, player_wind, s, Yaku::Daisangen)) by {
            reveal(spec_normal_pattern);
        }
        assert(found.shosangen == spec_normal_pattern(h, player_wind, s, Yaku::Shosangen)) by {
            reveal(spec_normal_pattern);
        }
        assert(found.suushi == spec_normal_pattern(h, player_wind, s, Yaku::Suushi)) by {
            reveal(spec_normal_pattern);
        }
        assert(found.junchan == spec_normal_pattern(h, player_wind, s, Yaku::Junchan)) by {
            reveal(spec_normal_pattern);
        }
        assert(found.chanta == spec_normal_pattern(h, player_wind, s, Yaku::Chanta)) by {
            reveal(spec_normal_pattern);
        }
        assert(found.matches(h, player_wind, s)) by {
            reveal(GroupPatterns::matches);
        }
    }
    found
}

impl GroupPatterns {
    /// Whether a pattern is marked.
    #[verifier::opaque]
    spec fn marked(self, y: Yaku) -> bool {
        match y {
            Yaku::Ryanpeiko => self.ryanpeiko,
            Yaku::Iipeiko => self.iipeiko,
            Yaku::Pinfu => self.pinfu,
            Yaku::Toitoi => self.toitoi,
            Yaku::Suuanko => self.suuanko,
            Yaku::Sananko => self.sananko,
            Yaku::Sanshokudojun => self.sanshokudojun,
            Yaku::Sanshokudoko => self.sanshokudoko,
            Yaku::Itsuu => self.itsuu,
            Yaku::Wind => self.wind,
            Yaku::Haku => self.haku,
            Yaku::Hatsu => self.hatsu,
            Yaku::Chun => self.chun,
            Yaku::Daisangen => self.daisangen,
            Yaku::Shosangen => self.shosangen,
            Yaku::Suushi => self.suushi,
            Yaku::Junchan => self.junchan,
            Yaku::Chanta => self.chanta,
            _ => false,
        }
    }

    /// The marked patterns are those that the hand earns.
    proof fn lemma_marked(self, hand: Hand, player_wind: Tile, tiles: Seq<Tile>)
        requires
            self.matches(hand, player_wind, tiles),
        ensures
            forall|y: Yaku| #[trigger] self.marked(y) <==> spec_normal_pattern(hand, player_wind, tiles, y),
    {
        reveal(GroupPatterns::matches);
        reveal(GroupPatterns::marked);
        lemma_other_patterns(hand, player_wind, tiles);
    }

    /// The marked patterns as a list.
    fn list(&self) -> (found: Vec<Yaku>)
        ensures
            forall|y: Yaku| #[trigger] occurrences(found@, y) == (if self.marked(y) { 1nat } else { 0 }),
    {
        let mut result = no_yaku();
        result = push_when(result, self.ryanpeiko, Yaku::Ryanpeiko);
        result = push_when(result, self.iipeiko, Yaku::Iipeiko);
        result = push_when(result, self.pinfu, Yaku::Pinfu);
        result = push_when(result, self.toitoi, Yaku::Toitoi);
        result = push_when(result, self.suuanko, Yaku::Suuanko);
        result = push_when(result, self.sananko, Yaku::Sananko);
        result = push_when(result, self.sanshokudojun, Yaku::Sanshokudojun);
        result = push_when(result, self.sanshokudoko, Yaku::Sanshokudoko);
        result = push_when(result, self.itsuu, Yaku::Itsuu);
        result = push_when(result, self.wind, Yaku::Wind);
        result = push_when(result, self.haku, Yaku::Haku);
        result = push_when(result, self.hatsu, Yaku::Hatsu);
        result = push_when(result, self.chun, Yaku::Chun);
        result = push_when(result, self.daisangen, Yaku::Daisangen);
        result = push_when(result, self.shosangen, Yaku::Shosangen);
        result = push_when(result, self.suushi, Yaku::Suushi);
        result = push_when(result, self.junchan, Yaku::Junchan);
        result = push_when(result, self.chanta, Yaku::Chanta);
        proof {
            reveal(GroupPatterns::marked);
            let marks = *self;
            let list = result@;
            let holds = |y: Yaku| occurrences(list, y) == (if marks.marked(y) { 1nat } else { 0 });
            lemma_each_yaku(holds);
            assert forall|y: Yaku| #[trigger] occurrences(list, y) == (if marks.marked(y) { 1nat } else { 0 }) by {
                assert(holds(y));
            }
        }
        result
    }
}

fn normal_yaku(hand: &Hand, player_wind: Tile, tiles: &[Tile]) -> (found: Vec<Yaku>)
    requires
        hand.wf(),
    ensures
        forall|y: Yaku| #[trigger] occurrences(found@, y) == (if spec_normal_pattern(*hand, player_wind, tiles@, y) { 1nat } else { 0 }),
{
    let marks = group_patterns(hand, player_wind, tiles);
    let found = marks.list();
    proof {
        marks.lemma_marked(*hand, player_wind, tiles@);
    }
    found
}

/// Only a hand of four groups and a pair earns a pattern by its groups, and
/// only one of eighteen patterns.
pub proof fn lemma_other_patterns(hand: Hand, player_wind: Tile, tiles: Seq<Tile>)
    ensures
        !(hand is Normal) ==> forall|y: Yaku| !#[trigger] spec_normal_pattern(hand, player_wind, tiles, y),
        forall|y: Yaku| #[trigger] spec_normal_pattern(hand, player_wind, tiles, y) ==> y == Yaku::Ryanpeiko
            || y == Yaku::Iipeiko || y == Yaku::Pinfu || y == Yaku::Toitoi || y == Yaku::Suuanko
            || y == Yaku::Sananko || y == Yaku::Sanshokudojun || y == Yaku::Sanshokudoko
            || y == Yaku::Itsuu || y == Yaku::Wind || y == Yaku::Haku || y == Yaku::Hatsu
            || y == Yaku::Chun || y == Yaku::Daisangen || y == Yaku::Shosangen || y == Yaku::Suushi
            || y == Yaku::Junchan || y == Yaku::Chanta,
{
    reveal(spec_normal_pattern);
}

/// Whether the hand itself earns a pattern for a player with the given
/// seat wind.
pub open spec fn spec_pattern(hand: Hand, player_wind: Tile, y: Yaku) -> bool {
    let suits = hand.spec_suits();
    let tiles = hand.spec_tiles();
    ||| spec_pure_yaku(suits, tiles) == Some(y)
    ||| y == Yaku::Ryuuiiso && forall|i: int| 0 <= i < tiles.len() ==> (#[trigger] tiles[i]).spec_is_green()
    ||| match hand {
        Hand::Normal(_, _, _, _) => spec_normal_pattern(hand, player_wind, tiles, y) || (y == Yaku::Chuuren && spec_chuuren(suits, tiles)),
        Hand::Pairs(_, _) => y == Yaku::Chitoitsu,
        Hand::Kokushi(_, _) => y == Yaku::Kokushi,
    }
}

/// How often a pattern is found before the yakuman rule: once where the
/// hand earns it, and once for each time the caller names it.
pub open spec fn spec_found(hand: Hand, player_wind: Tile, special: Seq<Yaku>, y: Yaku) -> nat {
    (if spec_pattern(hand, player_wind, y) { 1nat } else { 0 }) + occurrences(special, y)
}

/// Whether some yakuman is found.
pub open spec fn spec_any_yakuman(hand: Hand, player_wind: Tile, special: Seq<Yaku>) -> bool {
    exists|y: Yaku| y.spec_fan() == 13 && #[trigger] spec_found(hand, player_wind, special, y) > 0
}

/// How often a pattern is listed: where a yakuman is found, only yakuman
/// are listed.
pub open spec fn spec_listed(hand: Hand, player_wind: Tile, special: Seq<Yaku>, y: Yaku) -> nat {
    if spec_any_yakuman(hand, player_wind, special) && y.spec_fan() != 13 {
        0
    } else {
        spec_found(hand, player_wind, special, y)
    }
}

/// Whether a list is the list of the patterns of a hand, in ascending order.
pub open spec fn is_yaku_list(hand: Hand, player_wind: Tile, special: Seq<Yaku>, list: Seq<Yaku>) -> bool {
    yaku_ascending(list) && forall|y: Yaku| #[trigger] occurrences(list, y) == spec_listed(hand, player_wind, special, y)
}

/// The patterns of a hand, in ascending order.
pub open spec fn spec_yaku_list(hand: Hand, player_wind: Tile, special: Seq<Yaku>) -> Seq<Yaku> {
    choose|list: Seq<Yaku>| is_yaku_list(hand, player_wind, special, list)
}

/// There is one list of the patterns of a hand.
pub proof fn lemma_yaku_list(hand: Hand, player_wind: Tile, special: Seq<Yaku>, list: Seq<Yaku>)
    requires
        is_yaku_list(hand, player_wind, special, list),
    ensures
        spec_yaku_list(hand, player_wind, special) == list,
{
    let other = spec_yaku_list(hand, player_wind, special);
    assert(is_yaku_list(hand, player_wind, special, other));
    let leq = |a: Yaku, b: Yaku| a.spec_rank() <= b.spec_rank();
    assert(vstd::relations::total_ordering(leq)) by {
        assert forall|a: Yaku, b: Yaku| #[trigger] leq(a, b) && leq(b, a) implies a == b by {
            assert(Yaku::of_rank(a.spec_rank() as int) == a);
            assert(Yaku::of_rank(b.spec_rank() as int) == b);
        }
    }
    assert(vstd::relations::sorted_by(other, leq));
    assert(vstd::relations::sorted_by(list, leq));
    assert(other.to_multiset() =~= list.to_multiset()) by {
        assert forall|y: Yaku| other.to_multiset().count(y) == list.to_multiset().count(y) by {
            lemma_occurs(other, y);
            lemma_occurs(list, y);
            assert(occurrences(other, y) == spec_listed(hand, player_wind, special, y));
            assert(occurrences(list, y) == spec_listed(hand, player_wind, special, y));
        }
    }
    vstd::seq_lib::lemma_sorted_unique(other, list, leq);
}

/// Whether some pattern of a list is a yakuman.
fn has_yakuman(list: &Vec<Yaku>) -> (b: bool)
    ensures
        b == exists|i: int| 0 <= i < list@.len() && (#[trigger] list@[i]).spec_fan() == 13,
{
    let mut i: usize = 0;
    while i < list.len()
        invariant
            i <= list@.len(),
            forall|k: int| 0 <= k < i ==> (#[trigger] list@[k]).spec_fan() != 13,
        decreases list@.len() - i,
    {
        if list[i].fan() == 13 {
            return true;
        }
        i = i + 1;
    }
    false
}

/// The yakuman of an ascending list, in the same order.
fn only_yakuman(list: &Vec<Yaku>) -> (kept: Vec<Yaku>)
    requires
        yaku_ascending(list@),
    ensures
        yaku_ascending(kept@),
        forall|i: int| 0 <= i < kept@.len() ==> (#[trigger] kept@[i]).spec_fan() == 13,
        forall|y: Yaku| #[trigger] occurrences(kept@, y) == (if y.spec_fan() == 13 { occurrences(list@, y) } else { 0 }),
        kept@.len() <= list@.len(),
{
    let mut kept = no_yaku();
    let mut i: usize = 0;
    proof {
        assert(list@.subrange(0, 0) =~= Seq::<Yaku>::empty());
        assert forall|y: Yaku| #[trigger] occurrences(list@.subrange(0, 0), y) == 0 by {
            lemma_occurs(list@.subrange(0, 0), y);
        }
    }
    while i < list.len()
        invariant
            i <= list@.len(),
            kept@.len() <= i,
            yaku_ascending(list@),
            yaku_ascending(kept@),
            forall|k: int, j: int| 0 <= k < kept@.len() && i <= j < list@.len() ==> (#[trigger] kept@[k]).spec_rank() <= (#[trigger] list@[j]).spec_rank(),
            forall|k: int| 0 <= k < kept@.len() ==> (#[trigger] kept@[k]).spec_fan() == 13,
            forall|y: Yaku| #[trigger] occurrences(kept@, y) == (if y.spec_fan() == 13 { occurrences(list@.subrange(0, i as int), y) } else { 0 }),
        decreases list@.len() - i,
    {
        let y = list[i];
        proof {
            assert(list@.subrange(0, i + 1) =~= list@.subrange(0, i as int).push(y));
            assert forall|z: Yaku| #[trigger] occurrences(list@.subrange(0, i + 1), z) == occurrences(list@.subrange(0, i as int), z) + (if y == z { 1int } else { 0 }) by {
                lemma_occurrences_push(list@.subrange(0, i as int), y, z);
            }
        }
        if y.fan() == 13 {
            proof {
                assert forall|z: Yaku| #[trigger] occurrences(kept@.push(y), z) == occurrences(kept@, z) + (if y == z { 1int } else { 0 }) by {
                    lemma_occurrences_push(kept@, y, z);
                }
            }
            kept.push(y);
        }
        i = i + 1;
    }
    proof {
        assert(list@.subrange(0, i as int) =~= list@);
    }
    kept
}

/// The patterns of a winning hand for a player with the given seat wind,
/// together with the patterns that the course of play gave (`special`), in
/// ascending order. Where a yakuman is among them, only yakuman are listed.
pub fn yaku(hand: &Hand, player_wind: Tile, special: &[Yaku]) -> (found: Vec<Yaku>)
    requires
        hand.wf(),
    ensures
        found@ == spec_yaku_list(*hand, player_wind, special@),
        yaku_ascending(found@),
        forall|y: Yaku| #[trigger] occurrences(found@, y) == spec_listed(*hand, player_wind, special@, y),
        (exists|i: int| 0 <= i < found@.len() && (#[trigger] found@[i]).spec_fan() == 13) ==> forall|j: int|
            0 <= j < found@.len() ==> (#[trigger] found@[j]).spec_fan() == 13,
        found@.len() <= special@.len() + 31,
{
    let suits = hand.suits();
    let tiles = hand.tiles();
    let mut result = normal_yaku(hand, player_wind, tiles.as_slice());
    proof {
        lemma_other_patterns(*hand, player_wind, tiles@);
    }
    match pure_yaku(suits, tiles.as_slice()) {
        Some(y) => {
            result = push_when(result, true, y);
        },
        None => {},
    }
    let green = every(tiles.as_slice(), |t: Tile| -> (r: bool) ensures r == t.spec_is_green() { t.is_green() });
    result = push_when(result, green, Yaku::Ryuuiiso);
    match hand {
        Hand::Normal(_, _, _, _) => {
            let nine_gates = chuuren(suits, tiles.as_slice());
            result = push_when(result, nine_gates, Yaku::Chuuren);
        },
        Hand::Pairs(_, _) => {
            result = push_when(result, true, Yaku::Chitoitsu);
        },
        Hand::Kokushi(_, _) => {
            result = push_when(result, true, Yaku::Kokushi);
        },
    }
    proof {
        assert forall|y: Yaku| #[trigger] occurrences(result@, y) == (if spec_pattern(*hand, player_wind, y) { 1nat } else { 0 }) by {}
        lemma_short(result@);
    }
    let ghost own = result@;
    let mut i: usize = 0;
    proof {
        assert forall|y: Yaku| #[trigger] occurrences(special@.subrange(0, 0), y) == 0 by {
            lemma_occurs(special@.subrange(0, 0), y);
        }
    }
    while i < special.len()
        invariant
            i <= special@.len(),
            result@.len() <= 31 + i,
            forall|y: Yaku| #[trigger] occurrences(result@, y) == occurrences(own, y) + occurrences(special@.subrange(0, i as int), y),
        decreases special@.len() - i,
    {
        proof {
            assert(special@.subrange(0, i + 1) =~= special@.subrange(0, i as int).push(special@[i as int]));
            assert forall|z: Yaku| #[trigger] occurrences(special@.subrange(0, i + 1), z) == occurrences(special@.subrange(0, i as int), z) + (if special@[i as int] == z { 1int } else { 0 }) by {
                lemma_occurrences_push(special@.subrange(0, i as int), special@[i as int], z);
            }
        }
        proof {
            assert forall|z: Yaku| #[trigger] occurrences(result@.push(special@[i as int]), z) == occurrences(result@, z) + (if special@[i as int] == z { 1int } else { 0 }) by {
                lemma_occurrences_push(result@, special@[i as int], z);
            }
        }
        result.push(special[i]);
        i = i + 1;
    }
    proof {
        assert(special@.subrange(0, i as int) =~= special@);
        assert forall|y: Yaku| #[trigger] occurrences(result@, y) == spec_found(*hand, player_wind, special@, y) by {}
    }
    let sorted = sort_yaku(&result);
    let yakuman = has_yakuman(&sorted);
    proof {
        assert forall|y: Yaku| #[trigger] occurrences(sorted@, y) == spec_found(*hand, player_wind, special@, y) by {
            lemma_occurs(sorted@, y);
            lemma_occurs(result@, y);
            assert(occurrences(sorted@, y) == occurrences(result@, y));
        }
        if yakuman {
            let k = choose|k: int| 0 <= k < sorted@.len() && (#[trigger] sorted@[k]).spec_fan() == 13;
            let y = sorted@[k];
            assert(sorted@.contains(y));
            lemma_occurs(sorted@, y);
            assert(occurrences(sorted@, y) > 0);
            assert(spec_found(*hand, player_wind, special@, y) > 0);
        } else {
            assert forall|y: Yaku| y.spec_fan() == 13 implies !(#[trigger] spec_found(*hand, player_wind, special@, y) > 0) by {
                lemma_occurs(sorted@, y);
                assert(occurrences(sorted@, y) == spec_found(*hand, player_wind, special@, y));
            }
        }
        assert(yakuman == spec_any_yakuman(*hand, player_wind, special@));
    }
    let found = if yakuman {
        only_yakuman(&sorted)
    } else {
        sorted
    };
    proof {
        lemma_yaku_list(*hand, player_wind, special@, found@);
    }
    found
}

/// The sum of the fan of a list of patterns.
pub open spec fn spec_fan_sum(list: Seq<Yaku>) -> nat
    decreases list.len(),
{
    if list.len() == 0 {
        0
    } else {
        spec_fan_sum(list.drop_last()) + list.last().spec_fan() as nat
    }
}

/// The fan of the first `n` patterns of the order, each taken as often
/// as it is counted.
pub open spec fn weigh(count: spec_fn(Yaku) -> nat, n: nat) -> nat
    decreases n,
{
    if n == 0 {
        0
    } else {
        weigh(count, (n - 1) as nat) + count(Yaku::of_rank(n - 1)) * Yaku::of_rank(n - 1).spec_fan() as nat
    }
}

/// The sum of the fan of the patterns that are listed for a hand.
pub open spec fn spec_total_fan(hand: Hand, player_wind: Tile, special: Seq<Yaku>) -> nat {
    weigh(|y: Yaku| spec_listed(hand, player_wind, special, y), 31)
}

/// Counting one pattern once more adds its fan.
proof fn lemma_weigh_one_more(less: spec_fn(Yaku) -> nat, more: spec_fn(Yaku) -> nat, x: Yaku, n: nat)
    requires
        forall|y: Yaku| #[trigger] more(y) == less(y) + (if y == x { 1nat } else { 0 }),
        n <= 31,
    ensures
        weigh(more, n) == weigh(less, n) + (if x.spec_rank() < n { x.spec_fan() as nat } else { 0 }),
    decreases n,
{
    if n > 0 {
        lemma_weigh_one_more(less, more, x, (n - 1) as nat);
        let y = Yaku::of_rank(n - 1);
        let f = y.spec_fan() as nat;
        assert(y.spec_rank() == n - 1);
        assert(more(y) == less(y) + (if y == x { 1nat } else { 0 }));
        if y == x {
            assert((less(y) + 1) * f == less(y) * f + f) by (nonlinear_arith);
        } else {
            assert(x.spec_rank() != n - 1) by {
                assert(Yaku::of_rank(x.spec_rank() as int) == x);
            }
        }
    }
}

/// The sum of the fan of a list is the fan of all patterns, each taken
/// as often as it occurs in the list.
pub proof fn lemma_fan_sum(list: Seq<Yaku>, count: spec_fn(Yaku) -> nat)
    requires
        forall|y: Yaku| #[trigger] occurrences(list, y) == count(y),
    ensures
        spec_fan_sum(list) == weigh(count, 31),
    decreases list.len(),
{
    if list.len() == 0 {
        assert forall|y: Yaku| #[trigger] count(y) == 0 by {
            lemma_occurs(list, y);
            assert(occurrences(list, y) == count(y));
        }
        lemma_weigh_none(count, 31);
    } else {
        let rest = list.drop_last();
        let x = list.last();
        let less = |y: Yaku| occurrences(rest, y);
        lemma_fan_sum(rest, less);
        assert(list =~= rest.push(x));
        assert forall|y: Yaku| #[trigger] count(y) == less(y) + (if y == x { 1nat } else { 0 }) by {
            lemma_occurrences_push(rest, x, y);
            assert(occurrences(list, y) == count(y));
        }
        lemma_weigh_one_more(less, count, x, 31);
    }
}

/// Where nothing is counted there are no fan.
proof fn lemma_weigh_none(count: spec_fn(Yaku) -> nat, n: nat)
    requires
        forall|y: Yaku| #[trigger] count(y) == 0,
    ensures
        weigh(count, n) == 0,
    decreases n,
{
    if n > 0 {
        lemma_weigh_none(count, (n - 1) as nat);
        assert(count(Yaku::of_rank(n - 1)) == 0);
    }
}

/// The points for a number of fan and fu; below 13, one fan is added.
pub fn score(fan: usize, fu: usize) -> (points: usize)
    ensures
        points == spec_tier_points(spec_tier(if fan < 13 { fan + 1 } else { fan as int }, fu as int)),
{
    let mut fan = fan;
    if fan < 13 {
        fan = fan + 1;
    }
    if fan <= 2 {
        0
    } else if fan == 3 && fu < 60 {
        0
    } else if fan == 4 && fu < 30 {
        0
    } else if fan <= 5 {
        8000
    } else if fan <= 7 {
        12000
    } else if fan <= 10 {
        16000
    } else if fan <= 12 {
        24000
    } else if fan == 13 {
        32000
    } else {
        64000
    }
}

/// What `score_hand` gives: nothing for a hand without pattern, else the
/// points for the fan of its patterns and one for each dora tile.
pub open spec fn spec_score_hand(hand: Hand, player_wind: Tile, dora: Tile) -> int {
    let empty = Seq::<Yaku>::empty();
    let fan: int = (spec_total_fan(hand, player_wind, empty) + hand.spec_tiles().to_multiset().count(dora)) as int;
    if forall|y: Yaku| spec_listed(hand, player_wind, empty, y) == 0 {
        0
    } else {
        spec_tier_points(spec_tier(if fan < 13 { fan + 1 } else { fan }, spec_fu(hand, player_wind)))
    }
}

/// The points of a hand for a player with the given seat wind, with the
/// given dora.
pub fn score_hand(hand: &Hand, player_wind: Tile, dora: Tile) -> (points: usize)
    requires
        hand.wf(),
    ensures
        points == spec_score_hand(*hand, player_wind, dora),
{
    let found = yaku(hand, player_wind, &[]);
    let ghost empty = Seq::<Yaku>::empty();
    proof {
        let none: [Yaku; 0] = [];
        assert(none@ =~= empty);
        lemma_fan_sum(found@, |y: Yaku| spec_listed(*hand, player_wind, empty, y));
    }
    if found.len() == 0 {
        proof {
            assert forall|y: Yaku| spec_listed(*hand, player_wind, empty, y) == 0 by {
                lemma_occurs(found@, y);
                assert(occurrences(found@, y) == spec_listed(*hand, player_wind, empty, y));
            }
        }
        return 0;
    }
    proof {
        let y = found@[0];
        assert(found@.contains(y));
        lemma_occurs(found@, y);
        assert(occurrences(found@, y) == spec_listed(*hand, player_wind, empty, y));
    }
    let points = fu(hand, player_wind);
    let mut fan: usize = 0;
    let mut i: usize = 0;
    while i < found.len()
        invariant
            i <= found@.len(),
            found@.len() <= 31,
            fan <= 13 * i,
            fan == spec_fan_sum(found@.subrange(0, i as int)),
        decreases found@.len() - i,
    {
        proof {
            assert(found@.subrange(0, i + 1).drop_last() =~= found@.subrange(0, i as int));
        }
        fan = fan + found[i].fan();
        i = i + 1;
    }
    proof {
        assert(found@.subrange(0, i as int) =~= found@);
    }
    let tiles = hand.tiles();
    let mut k: usize = 0;
    let ghost base = fan;
    proof {
        broadcast use vstd::seq_lib::group_to_multiset_ensures;
        assert(tiles@.subrange(0, 0).to_multiset().count(dora) <= tiles@.subrange(0, 0).to_multiset().len());
    }
    while k < tiles.len()
        invariant
            k <= tiles@.len(),
            tiles@.len() == 14,
            base <= 13 * 31,
            fan == base + tiles@.subrange(0, k as int).to_multiset().count(dora),
            fan <= base + k,
        decreases tiles@.len() - k,
    {
        proof {
            broadcast use vstd::seq_lib::group_to_multiset_ensures;
            assert(tiles@.subrange(0, k + 1) =~= tiles@.subrange(0, k as int).push(tiles@[k as int]));
        }
        if tiles[k] == dora {
            fan = fan + 1;
        }
        k = k + 1;
    }
    proof {
        assert(tiles@.subrange(0, k as int) =~= tiles@);
    }
    score(fan, points)
}

} // verus!
