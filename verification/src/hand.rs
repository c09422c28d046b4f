//! Groups of three tiles and the three shapes of a winning hand.

use crate::tiles::{ascending, sort_tiles, sorted_of, Suit, Tile};
use vstd::prelude::*;

verus! {

/// Three tiles that belong together: a triplet of one face (`Pon`), or a
/// run of three consecutive ranks of one numbered suit, named by its
/// lowest tile (`Chi`).
#[derive(Debug, Copy, Clone, PartialEq, Eq, Hash, Structural)]
pub enum Group {
    Pon(Tile),
    Chi(Tile),
}

impl Group {
    /// A run must start at rank 1 to 7 of a numbered suit.
    pub open spec fn wf(self) -> bool {
        match self {
            Group::Pon(_) => true,
            Group::Chi(t) => t.index() < 27 && t.index() % 9 <= 6,
        }
    }

    /// The lowest tile of the group.
    pub open spec fn spec_first(self) -> Tile {
        match self {
            Group::Pon(t) => t,
            Group::Chi(t) => t,
        }
    }

    /// The three tiles of the group, in ascending order.
    pub open spec fn spec_tiles(self) -> Seq<Tile> {
        match self {
            Group::Pon(t) => seq![t, t, t],
            Group::Chi(t) => seq![t, t.spec_next(), t.spec_next().spec_next()],
        }
    }

    /// Position in the order of groups: by lowest tile, a triplet before
    /// the run that starts at the same tile.
    pub open spec fn spec_rank(self) -> usize {
        match self {
            Group::Pon(t) => (2 * t.index()) as usize,
            Group::Chi(t) => (2 * t.index() + 1) as usize,
        }
    }

    #[verifier::when_used_as_spec(spec_rank)]
    pub fn rank(self) -> (r: usize)
        ensures
            r == self.spec_rank(),
            r < 68,
    {
        match self {
            Group::Pon(t) => 2 * t.index(),
            Group::Chi(t) => 2 * t.index() + 1,
        }
    }

    /// The group that three tiles form, if they form one.
    pub fn from_tiles(tiles: &[Tile]) -> (r: Option<Group>)
        ensures
            r matches Some(g) ==> g.wf() && g.spec_tiles() == tiles@,
            r is None ==> forall|g: Group| g.wf() ==> g.spec_tiles() != tiles@,
    {
        if tiles.len() != 3 {
            return None;
        }
        let t = tiles[0];
        proof {
            Tile::index_bijection();
        }
        if tiles[1] == t && tiles[2] == t {
            assert(Group::Pon(t).spec_tiles() =~= tiles@);
            return Some(Group::Pon(t));
        }
        if t.has_next() && t.next().has_next() {
            let t2 = t.next();
            let t3 = t2.next();
            if tiles[1] == t2 && tiles[2] == t3 {
                assert(Group::Chi(t).spec_tiles() =~= tiles@);
                return Some(Group::Chi(t));
            }
        }
        assert forall|g: Group| g.wf() implies g.spec_tiles() != tiles@ by {
            if g.spec_tiles() == tiles@ {
                assert(g.spec_tiles()[0] == tiles@[0]);
                assert(g.spec_tiles()[1] == tiles@[1]);
                assert(g.spec_tiles()[2] == tiles@[2]);
            }
        }
        None
    }

    pub open spec fn spec_is_chi(self) -> bool {
        self is Chi
    }

    /// Whether the group is a run.
    #[verifier::when_used_as_spec(spec_is_chi)]
    pub fn is_chi(self) -> (b: bool)
        ensures
            b == (self is Chi),
    {
        match self {
            Group::Chi(_) => true,
            _ => false,
        }
    }

    pub open spec fn spec_is_pon(self) -> bool {
        self is Pon
    }

    /// Whether the group is a triplet.
    #[verifier::when_used_as_spec(spec_is_pon)]
    pub fn is_pon(self) -> (b: bool)
        ensures
            b == (self is Pon),
    {
        match self {
            Group::Pon(_) => true,
            _ => false,
        }
    }

    /// Whether a run that starts at `t` starts at rank 2 to 6.
    pub open spec fn inner_run(t: Tile) -> bool {
        t.index() < 27 && 1 <= t.index() % 9 <= 5
    }

    pub open spec fn spec_has_yaochu(self) -> bool {
        match self {
            Group::Pon(t) => t.is_yaochu(),
            Group::Chi(t) => !Group::inner_run(t),
        }
    }

    /// Whether the group holds a terminal or an honor.
    #[verifier::when_used_as_spec(spec_has_yaochu)]
    pub fn has_yaochu(self) -> (b: bool)
        ensures
            b == self.spec_has_yaochu(),
            self.wf() ==> b == exists|i: int| 0 <= i < 3 && (#[trigger] self.spec_tiles()[i]).is_yaochu(),
    {
        proof {
            self.lemma_edges();
        }
        match self {
            Group::Pon(t) => t.is_yaochu(),
            Group::Chi(t) => {
                let i: usize = t.index();
                !(i < 27 && 1 <= i % 9 && i % 9 <= 5)
            },
        }
    }

    pub open spec fn spec_has_terminal(self) -> bool {
        match self {
            Group::Pon(t) => t.is_terminal(),
            Group::Chi(t) => !Group::inner_run(t),
        }
    }

    /// Whether the group holds a terminal.
    #[verifier::when_used_as_spec(spec_has_terminal)]
    pub fn has_terminal(self) -> (b: bool)
        ensures
            b == self.spec_has_terminal(),
            self.wf() ==> b == exists|i: int| 0 <= i < 3 && (#[trigger] self.spec_tiles()[i]).is_terminal(),
    {
        proof {
            self.lemma_edges();
        }
        match self {
            Group::Pon(t) => t.is_terminal(),
            Group::Chi(t) => {
                let i: usize = t.index();
                !(i < 27 && 1 <= i % 9 && i % 9 <= 5)
            },
        }
    }

    /// What the edge predicates say of the three tiles of a group.
    pub proof fn lemma_edges(self)
        ensures
            self.wf() ==> self.spec_has_yaochu() == exists|i: int| 0 <= i < 3 && (#[trigger] self.spec_tiles()[i]).is_yaochu(),
            self.wf() ==> self.spec_has_terminal() == exists|i: int| 0 <= i < 3 && (#[trigger] self.spec_tiles()[i]).is_terminal(),
            self.wf() ==> self.spec_has_honor() == exists|i: int| 0 <= i < 3 && (#[trigger] self.spec_tiles()[i]).is_honor(),
    {
        Tile::index_bijection();
        if self.wf() {
            let s = self.spec_tiles();
            if self.spec_has_yaochu() {
                assert(s[0].is_yaochu() || s[2].is_yaochu());
            }
            if self.spec_has_terminal() {
                assert(s[0].is_terminal() || s[2].is_terminal());
            }
            if self.spec_has_honor() {
                assert(s[0].is_honor());
            }
        }
    }

    pub open spec fn spec_has_honor(self) -> bool {
        match self {
            Group::Pon(t) => t.is_honor(),
            Group::Chi(_) => false,
        }
    }

    /// Whether the group is a triplet of an honor.
    #[verifier::when_used_as_spec(spec_has_honor)]
    pub fn has_honor(self) -> (b: bool)
        ensures
            b == self.spec_has_honor(),
    {
        match self {
            Group::Pon(t) => t.is_honor(),
            Group::Chi(_) => false,
        }
    }

    pub open spec fn spec_suit(self) -> Suit {
        self.spec_first().spec_suit()
    }

    /// The suit of the group's tiles.
    #[verifier::when_used_as_spec(spec_suit)]
    pub fn suit(self) -> (s: Suit)
        ensures
            s == self.spec_suit(),
    {
        match self {
            Group::Pon(t) => t.suit(),
            Group::Chi(t) => t.suit(),
        }
    }

    /// Appends the three tiles of the group to a list.
    pub fn add_to(self, tiles: &mut Vec<Tile>)
        requires
            self.wf(),
        ensures
            final(tiles)@ == old(tiles)@ + self.spec_tiles(),
    {
        match self {
            Group::Pon(t) => {
                tiles.push(t);
                tiles.push(t);
                tiles.push(t);
            },
            Group::Chi(t) => {
                tiles.push(t);
                tiles.push(t.next());
                tiles.push(t.next().next());
            },
        }
        assert(tiles@ =~= old(tiles)@ + self.spec_tiles());
    }

    pub open spec fn spec_holds(self, tile: Tile) -> bool {
        match self {
            Group::Pon(t) => tile == t,
            Group::Chi(t) => t.index() <= tile.index() <= t.index() + 2,
        }
    }

    /// Whether a face is among the three tiles of the group.
    #[verifier::when_used_as_spec(spec_holds)]
    pub fn holds(self, tile: Tile) -> (b: bool)
        ensures
            b == self.spec_holds(tile),
            self.wf() ==> b == self.spec_tiles().contains(tile),
    {
        proof {
            Tile::index_bijection();
            if self.wf() {
                let s = self.spec_tiles();
                if self.spec_holds(tile) {
                    assert(s[0] == tile || s[1] == tile || s[2] == tile);
                }
            }
        }
        match self {
            Group::Pon(t) => tile == t,
            Group::Chi(t) => t.index() <= tile.index() && tile.index() <= t.index() + 2,
        }
    }

    /// A run waits openly for a face when the face is its low end and the
    /// run is not 7-8-9, or its high end and the run is not 1-2-3.
    pub open spec fn spec_is_open_wait(self, wait: Tile) -> bool {
        match self {
            Group::Pon(_) => false,
            Group::Chi(t) => (wait == t && t.index() % 9 != 6) || (wait.index() == t.index() + 2
                && t.index() % 9 != 0),
        }
    }

    /// Whether the group, completed by `wait`, was a two-sided wait.
    #[verifier::when_used_as_spec(spec_is_open_wait)]
    pub fn is_open_wait(self, wait: Tile) -> (b: bool)
        requires
            self.wf(),
        ensures
            b == self.spec_is_open_wait(wait),
    {
        match self {
            Group::Pon(_) => false,
            Group::Chi(t) => {
                (wait == t && t != Tile::M7 && t != Tile::P7 && t != Tile::S7) || (wait
                    == t.next().next() && t != Tile::M1 && t != Tile::P1 && t != Tile::S1)
            },
        }
    }
}

/// A winning hand of fourteen tiles in one of its three shapes.
#[derive(Debug, Copy, Clone, PartialEq, Eq, Hash)]
pub enum Hand {
    /// The pair, four groups in ascending order, the winning tile, and the
    /// position of the group that the winning tile completed (`None` where
    /// it completed the pair).
    Normal(Tile, [Group; 4], Tile, Option<u8>),
    /// Seven pairs in ascending order, and the winning tile.
    Pairs([Tile; 7], Tile),
    /// One of each terminal and honor, the face held twice, and the
    /// winning tile.
    Kokushi(Tile, Tile),
}

impl View for Hand {
    type V = Hand;

    open spec fn view(&self) -> Hand {
        *self
    }
}

/// The thirteen terminals and honors, in ascending order.
pub open spec fn yaochu_faces() -> Seq<Tile> {
    seq![
        Tile::M1, Tile::M9, Tile::P1, Tile::P9, Tile::S1, Tile::S9,
        Tile::X1, Tile::X2, Tile::X3, Tile::X4, Tile::X5, Tile::X6, Tile::X7,
    ]
}

/// The terminals and honors among the first `n` faces, in ascending order.
pub open spec fn yaochu_below(n: nat) -> Seq<Tile>
    decreases n,
{
    if n == 0 {
        Seq::empty()
    } else if Tile::of_index(n - 1).is_yaochu() {
        yaochu_below((n - 1) as nat).push(Tile::of_index(n - 1))
    } else {
        yaochu_below((n - 1) as nat)
    }
}

/// Walking all 34 faces finds the thirteen terminals and honors.
pub proof fn lemma_yaochu_faces()
    ensures
        yaochu_below(34) == yaochu_faces(),
{
    reveal_with_fuel(yaochu_below, 35);
    assert(yaochu_below(34) =~= yaochu_faces());
}

/// The bit mask of the suits that are marked present.
pub open spec fn suit_mask(honor: bool, man: bool, pin: bool, sou: bool) -> u8 {
    ((if honor { 1int } else { 0 }) + (if man { 2int } else { 0 }) + (if pin { 4int } else { 0 }) + (if sou { 8int } else { 0 })) as u8
}

impl Hand {
    /// Runs start low enough, and the group position is one of the four.
    pub open spec fn wf(self) -> bool {
        match self {
            Hand::Normal(_, groups, _, at) => {
                &&& forall|i: int| 0 <= i < 4 ==> (#[trigger] groups[i]).wf()
                &&& at matches Some(n) ==> n < 4
            },
            _ => true,
        }
    }

    /// The fourteen tiles of the hand, shape by shape, before sorting.
    pub open spec fn spec_parts(self) -> Seq<Tile> {
        match self {
            Hand::Normal(pair, groups, _, _) => seq![pair, pair] + groups[0].spec_tiles()
                + groups[1].spec_tiles() + groups[2].spec_tiles() + groups[3].spec_tiles(),
            Hand::Pairs(pairs, _) => Seq::new(14, |i: int| pairs[i / 2]),
            Hand::Kokushi(double, _) => yaochu_faces().push(double),
        }
    }

    /// The fourteen tiles of the hand in ascending order.
    pub open spec fn spec_tiles(self) -> Seq<Tile> {
        sorted_of(self.spec_parts().to_multiset())
    }

    /// Whether some tile of the hand is of the given suit.
    pub open spec fn has_suit(self, suit: Suit) -> bool {
        match self {
            Hand::Normal(pair, groups, _, _) => pair.spec_suit() == suit || exists|i: int|
                0 <= i < 4 && (#[trigger] groups[i]).spec_suit() == suit,
            Hand::Pairs(pairs, _) => exists|i: int| 0 <= i < 7 && (#[trigger] pairs[i]).spec_suit() == suit,
            Hand::Kokushi(_, _) => true,
        }
    }

    /// The suits of the hand as a bit mask.
    pub open spec fn spec_suits(&self) -> u8 {
        suit_mask(
            self.has_suit(Suit::Honor),
            self.has_suit(Suit::Man),
            self.has_suit(Suit::Pin),
            self.has_suit(Suit::Sou),
        )
    }

    /// The suits that occur in the hand, as the sum of their bits.
    #[verifier::when_used_as_spec(spec_suits)]
    pub fn suits(&self) -> (mask: u8)
        ensures
            mask == self.spec_suits(),
            mask <= 15,
    {
        let mut honor = false;
        let mut man = false;
        let mut pin = false;
        let mut sou = false;
        match self {
            Hand::Normal(pair, groups, _, _) => {
                match pair.suit() {
                    Suit::Honor => { honor = true; },
                    Suit::Man => { man = true; },
                    Suit::Pin => { pin = true; },
                    Suit::Sou => { sou = true; },
                }
                let mut i: usize = 0;
                while i < 4
                    invariant
                        i <= 4,
                        honor == (pair.spec_suit() == Suit::Honor || exists|k: int| 0 <= k < i && (#[trigger] groups[k]).spec_suit() == Suit::Honor),
                        man == (pair.spec_suit() == Suit::Man || exists|k: int| 0 <= k < i && (#[trigger] groups[k]).spec_suit() == Suit::Man),
                        pin == (pair.spec_suit() == Suit::Pin || exists|k: int| 0 <= k < i && (#[trigger] groups[k]).spec_suit() == Suit::Pin),
                        sou == (pair.spec_suit() == Suit::Sou || exists|k: int| 0 <= k < i && (#[trigger] groups[k]).spec_suit() == Suit::Sou),
                    decreases 4 - i,
                {
                    match groups[i].suit() {
                        Suit::Honor => { honor = true; },
                        Suit::Man => { man = true; },
                        Suit::Pin => { pin = true; },
                        Suit::Sou => { sou = true; },
                    }
                    i = i + 1;
                }
            },
            Hand::Pairs(pairs, _) => {
                let mut i: usize = 0;
                while i < 7
                    invariant
                        i <= 7,
                        honor == (exists|k: int| 0 <= k < i && (#[trigger] pairs[k]).spec_suit() == Suit::Honor),
                        man == (exists|k: int| 0 <= k < i && (#[trigger] pairs[k]).spec_suit() == Suit::Man),
                        pin == (exists|k: int| 0 <= k < i && (#[trigger] pairs[k]).spec_suit() == Suit::Pin),
                        sou == (exists|k: int| 0 <= k < i && (#[trigger] pairs[k]).spec_suit() == Suit::Sou),
                    decreases 7 - i,
                {
                    match pairs[i].suit() {
                        Suit::Honor => { honor = true; },
                        Suit::Man => { man = true; },
                        Suit::Pin => { pin = true; },
                        Suit::Sou => { sou = true; },
                    }
                    i = i + 1;
                }
            },
            Hand::Kokushi(_, _) => {
                honor = true;
                man = true;
                pin = true;
                sou = true;
            },
        }
        let mut mask: u8 = 0;
        if honor {
            mask = mask + Suit::Honor.bit();
        }
        if man {
            mask = mask + Suit::Man.bit();
        }
        if pin {
            mask = mask + Suit::Pin.bit();
        }
        if sou {
            mask = mask + Suit::Sou.bit();
        }
        mask
    }

    /// The fourteen tiles of the hand in ascending order.
    pub fn tiles(&self) -> (sorted: Vec<Tile>)
        requires
            self.wf(),
        ensures
            sorted@ == self.spec_tiles(),
            ascending(sorted@),
            sorted@.to_multiset() == self.spec_parts().to_multiset(),
            sorted@.len() == 14,
    {
        let mut result: Vec<Tile> = Vec::new();
        match self {
            Hand::Normal(pair, groups, _, _) => {
                result.push(*pair);
                result.push(*pair);
                assert(result@ =~= seq![*pair, *pair]);
                groups[0].add_to(&mut result);
                groups[1].add_to(&mut result);
                groups[2].add_to(&mut result);
                groups[3].add_to(&mut result);
            },
            Hand::Pairs(pairs, _) => {
                let mut i: usize = 0;
                while i < 7
                    invariant
                        i <= 7,
                        result@.len() == 2 * i,
                        forall|k: int| 0 <= k < 2 * i ==> result@[k] == pairs[k / 2],
                    decreases 7 - i,
                {
                    result.push(pairs[i]);
                    result.push(pairs[i]);
                    i = i + 1;
                }
                assert(result@ =~= self.spec_parts());
            },
            Hand::Kokushi(double, _) => {
                let mut faces = Tile::all();
                let mut i: usize = 0;
                while i < 34
                    invariant
                        i <= 34,
                        faces.position() == i,
                        result@ == yaochu_below(i as nat),
                    decreases 34 - i,
                {
                    match faces.next() {
                        Some(t) => {
                            if t.is_yaochu() {
                                result.push(t);
                            }
                        },
                        None => {},
                    }
                    i = i + 1;
                }
                proof {
                    lemma_yaochu_faces();
                }
                result.push(*double);
            },
        }
        sort_tiles(result.as_slice())
    }
}

} // verus!
