//! Tile faces, suits and multisets of tiles.

use vstd::multiset::Multiset;
use vstd::prelude::*;

verus! {

/// One of the 34 faces, in ascending order: the three numbered suits
/// (man, pin, sou; ranks 1 to 9), the four winds, the three dragons.
#[derive(Debug, Copy, Clone, PartialEq, Eq, PartialOrd, Ord, Hash, Structural)]
pub enum Tile {
    M1, M2, M3, M4, M5, M6, M7, M8, M9,
    P1, P2, P3, P4, P5, P6, P7, P8, P9,
    S1, S2, S3, S4, S5, S6, S7, S8, S9,
    X1, X2, X3, X4,
    X5, X6, X7,
}

/// The four suits. Each has its own bit, so that a set of suits is a mask.
#[derive(Debug, Copy, Clone, PartialEq, Eq, PartialOrd, Ord, Structural)]
pub enum Suit {
    Honor,
    Man,
    Pin,
    Sou,
}

/// Number of distinct faces.
pub const NUM_TILES: usize = 34;

impl Suit {
    /// The suit's bit: 1 for honors, 2 for man, 4 for pin, 8 for sou.
    pub open spec fn spec_bit(self) -> u8 {
        match self {
            Suit::Honor => 1,
            Suit::Man => 2,
            Suit::Pin => 4,
            Suit::Sou => 8,
        }
    }

    #[verifier::when_used_as_spec(spec_bit)]
    pub fn bit(self) -> (b: u8)
        ensures
            b == self.spec_bit(),
    {
        match self {
            Suit::Honor => 1,
            Suit::Man => 2,
            Suit::Pin => 4,
            Suit::Sou => 8,
        }
    }
}

impl Tile {
    /// Position of the face in the total order, from 0 to 33.
    pub open spec fn spec_index(self) -> usize {
        match self {
            Tile::M1 => 0, Tile::M2 => 1, Tile::M3 => 2, Tile::M4 => 3, Tile::M5 => 4,
            Tile::M6 => 5, Tile::M7 => 6, Tile::M8 => 7, Tile::M9 => 8,
            Tile::P1 => 9, Tile::P2 => 10, Tile::P3 => 11, Tile::P4 => 12, Tile::P5 => 13,
            Tile::P6 => 14, Tile::P7 => 15, Tile::P8 => 16, Tile::P9 => 17,
            Tile::S1 => 18, Tile::S2 => 19, Tile::S3 => 20, Tile::S4 => 21, Tile::S5 => 22,
            Tile::S6 => 23, Tile::S7 => 24, Tile::S8 => 25, Tile::S9 => 26,
            Tile::X1 => 27, Tile::X2 => 28, Tile::X3 => 29, Tile::X4 => 30,
            Tile::X5 => 31, Tile::X6 => 32, Tile::X7 => 33,
        }
    }

    #[verifier::when_used_as_spec(spec_index)]
    pub fn index(self) -> (n: usize)
        ensures
            n == self.spec_index(),
            n < NUM_TILES,
    {
        match self {
            Tile::M1 => 0, Tile::M2 => 1, Tile::M3 => 2, Tile::M4 => 3, Tile::M5 => 4,
            Tile::M6 => 5, Tile::M7 => 6, Tile::M8 => 7, Tile::M9 => 8,
            Tile::P1 => 9, Tile::P2 => 10, Tile::P3 => 11, Tile::P4 => 12, Tile::P5 => 13,
            Tile::P6 => 14, Tile::P7 => 15, Tile::P8 => 16, Tile::P9 => 17,
            Tile::S1 => 18, Tile::S2 => 19, Tile::S3 => 20, Tile::S4 => 21, Tile::S5 => 22,
            Tile::S6 => 23, Tile::S7 => 24, Tile::S8 => 25, Tile::S9 => 26,
            Tile::X1 => 27, Tile::X2 => 28, Tile::X3 => 29, Tile::X4 => 30,
            Tile::X5 => 31, Tile::X6 => 32, Tile::X7 => 33,
        }
    }

    /// The face at a position of the total order; positions outside 0..34
    /// stand for no face and are mapped to the last one.
    pub open spec fn of_index(i: int) -> Tile {
        if i == 0 { Tile::M1 } else if i == 1 { Tile::M2 } else if i == 2 { Tile::M3 }
        else if i == 3 { Tile::M4 } else if i == 4 { Tile::M5 } else if i == 5 { Tile::M6 }
        else if i == 6 { Tile::M7 } else if i == 7 { Tile::M8 } else if i == 8 { Tile::M9 }
        else if i == 9 { Tile::P1 } else if i == 10 { Tile::P2 } else if i == 11 { Tile::P3 }
        else if i == 12 { Tile::P4 } else if i == 13 { Tile::P5 } else if i == 14 { Tile::P6 }
        else if i == 15 { Tile::P7 } else if i == 16 { Tile::P8 } else if i == 17 { Tile::P9 }
        else if i == 18 { Tile::S1 } else if i == 19 { Tile::S2 } else if i == 20 { Tile::S3 }
        else if i == 21 { Tile::S4 } else if i == 22 { Tile::S5 } else if i == 23 { Tile::S6 }
        else if i == 24 { Tile::S7 } else if i == 25 { Tile::S8 } else if i == 26 { Tile::S9 }
        else if i == 27 { Tile::X1 } else if i == 28 { Tile::X2 } else if i == 29 { Tile::X3 }
        else if i == 30 { Tile::X4 } else if i == 31 { Tile::X5 } else if i == 32 { Tile::X6 }
        else { Tile::X7 }
    }

    /// Checked conversion from a position to a face.
    pub fn from_index(n: usize) -> (r: Option<Tile>)
        ensures
            n < NUM_TILES ==> r == Some(Tile::of_index(n as int)),
            n >= NUM_TILES ==> r is None,
            r matches Some(t) ==> t.index() == n,
    {
        match n {
            0 => Some(Tile::M1), 1 => Some(Tile::M2), 2 => Some(Tile::M3),
            3 => Some(Tile::M4), 4 => Some(Tile::M5), 5 => Some(Tile::M6),
            6 => Some(Tile::M7), 7 => Some(Tile::M8), 8 => Some(Tile::M9),
            9 => Some(Tile::P1), 10 => Some(Tile::P2), 11 => Some(Tile::P3),
            12 => Some(Tile::P4), 13 => Some(Tile::P5), 14 => Some(Tile::P6),
            15 => Some(Tile::P7), 16 => Some(Tile::P8), 17 => Some(Tile::P9),
            18 => Some(Tile::S1), 19 => Some(Tile::S2), 20 => Some(Tile::S3),
            21 => Some(Tile::S4), 22 => Some(Tile::S5), 23 => Some(Tile::S6),
            24 => Some(Tile::S7), 25 => Some(Tile::S8), 26 => Some(Tile::S9),
            27 => Some(Tile::X1), 28 => Some(Tile::X2), 29 => Some(Tile::X3),
            30 => Some(Tile::X4), 31 => Some(Tile::X5), 32 => Some(Tile::X6),
            33 => Some(Tile::X7),
            _ => None,
        }
    }

    /// Positions and faces correspond one to one.
    pub proof fn index_bijection()
        ensures
            forall|t: Tile| 0 <= #[trigger] t.index() < NUM_TILES && Tile::of_index(t.index() as int) == t,
            forall|i: int| 0 <= i < NUM_TILES ==> (#[trigger] Tile::of_index(i)).index() == i,
            forall|a: Tile, b: Tile| #[trigger] a.index() == #[trigger] b.index() ==> a == b,
    {
        assert forall|a: Tile, b: Tile| #[trigger] a.index() == #[trigger] b.index() implies a == b by {
            assert(Tile::of_index(a.index() as int) == a);
            assert(Tile::of_index(b.index() as int) == b);
        }
    }

    /// The two-letter code of the face: `M`, `P`, `S` or `X` for man, pin,
    /// sou or honor, then the digit of the rank (of the honor: 1 to 4 for
    /// the winds, 5 to 7 for the dragons); both as ASCII bytes.
    pub open spec fn spec_code(self) -> Seq<u8> {
        let i = self.index() as int;
        if i < 9 {
            seq![77u8, (49 + i) as u8]
        } else if i < 18 {
            seq![80u8, (49 + i - 9) as u8]
        } else if i < 27 {
            seq![83u8, (49 + i - 18) as u8]
        } else {
            seq![88u8, (49 + i - 27) as u8]
        }
    }

    /// The code by which the face is known outside the library.
    pub fn code(self) -> (code: [u8; 2])
        ensures
            code@ == self.spec_code(),
    {
        let i: usize = self.index();
        let code = if i < 9 {
            [77u8, (49 + i) as u8]
        } else if i < 18 {
            [80u8, (49 + i - 9) as u8]
        } else if i < 27 {
            [83u8, (49 + i - 18) as u8]
        } else {
            [88u8, (49 + i - 27) as u8]
        };
        proof {
            assert(code@ =~= self.spec_code());
        }
        code
    }

    /// The face of a code, if it is the code of a face.
    pub fn from_code(code: &[u8]) -> (face: Option<Tile>)
        ensures
            face matches Some(t) ==> t.spec_code() == code@,
            face is None ==> forall|t: Tile| t.spec_code() != code@,
    {
        if code.len() != 2 {
            proof {
                assert forall|t: Tile| t.spec_code() != code@ by {
                    assert(t.spec_code().len() == 2);
                }
            }
            return None;
        }
        let letter = code[0];
        let digit = code[1];
        let base: usize = if letter == 77 {
            0
        } else if letter == 80 {
            9
        } else if letter == 83 {
            18
        } else if letter == 88 {
            27
        } else {
            proof {
                assert forall|t: Tile| t.spec_code() != code@ by {
                    assert(t.spec_code()[0] != code@[0]);
                }
            }
            return None;
        };
        let ranks: u8 = if base == 27 {
            7
        } else {
            9
        };
        if digit < 49 || digit >= 49 + ranks {
            proof {
                assert forall|t: Tile| t.spec_code() != code@ by {
                    if t.spec_code()[0] == code@[0] {
                        assert(t.spec_code()[1] != code@[1]);
                    }
                }
            }
            return None;
        }
        let found = Tile::from_index(base + (digit - 49) as usize);
        proof {
            assert(found is Some);
            assert(found->0.spec_code() =~= code@);
        }
        found
    }

    /// Faces and codes correspond one to one: each face is found again
    /// by its code, and no two faces have the same code.
    pub proof fn code_bijection()
        ensures
            forall|a: Tile, b: Tile| #[trigger] a.spec_code() == #[trigger] b.spec_code() ==> a == b,
            forall|t: Tile| (#[trigger] t.spec_code()).len() == 2,
    {
        Tile::index_bijection();
        assert forall|a: Tile, b: Tile| #[trigger] a.spec_code() == #[trigger] b.spec_code() implies a == b by {
            assert(a.spec_code()[0] == b.spec_code()[0]);
            assert(a.spec_code()[1] == b.spec_code()[1]);
            assert(a.index() == b.index());
        }
    }

    /// An iterator over the 34 faces in ascending order.
    pub fn all() -> (it: TileIterator)
        ensures
            it.position() == 0,
    {
        TileIterator { position: 0 }
    }

    /// Rank 1 or 9 of a numbered suit.
    pub open spec fn spec_is_terminal(self) -> bool {
        self == Tile::M1 || self == Tile::M9 || self == Tile::P1 || self == Tile::P9
            || self == Tile::S1 || self == Tile::S9
    }

    #[verifier::when_used_as_spec(spec_is_terminal)]
    pub fn is_terminal(self) -> (b: bool)
        ensures
            b == self.spec_is_terminal(),
    {
        self == Tile::M1 || self == Tile::M9 || self == Tile::P1 || self == Tile::P9
            || self == Tile::S1 || self == Tile::S9
    }

    /// A wind or a dragon.
    pub open spec fn spec_is_honor(self) -> bool {
        self.index() >= 27
    }

    #[verifier::when_used_as_spec(spec_is_honor)]
    pub fn is_honor(self) -> (b: bool)
        ensures
            b == self.spec_is_honor(),
    {
        self.index() >= 27
    }

    /// Terminal or honor.
    pub open spec fn spec_is_yaochu(self) -> bool {
        self.is_terminal() || self.is_honor()
    }

    #[verifier::when_used_as_spec(spec_is_yaochu)]
    pub fn is_yaochu(self) -> (b: bool)
        ensures
            b == self.spec_is_yaochu(),
    {
        self.is_terminal() || self.is_honor()
    }

    /// One of the six faces of the all-green pattern.
    pub open spec fn spec_is_green(self) -> bool {
        self == Tile::S2 || self == Tile::S3 || self == Tile::S4 || self == Tile::S6
            || self == Tile::S8 || self == Tile::X6
    }

    #[verifier::when_used_as_spec(spec_is_green)]
    pub fn is_green(self) -> (b: bool)
        ensures
            b == self.spec_is_green(),
    {
        self == Tile::S2 || self == Tile::S3 || self == Tile::S4 || self == Tile::S6
            || self == Tile::S8 || self == Tile::X6
    }

    /// A dragon, or the wind of the given seat.
    pub open spec fn spec_is_yakuhai(self, player_wind: Tile) -> bool {
        self == Tile::X5 || self == Tile::X6 || self == Tile::X7 || self == player_wind
    }

    #[verifier::when_used_as_spec(spec_is_yakuhai)]
    pub fn is_yakuhai(self, player_wind: Tile) -> (b: bool)
        ensures
            b == self.spec_is_yakuhai(player_wind),
    {
        self == Tile::X5 || self == Tile::X6 || self == Tile::X7 || self == player_wind
    }

    /// The suit of the face.
    pub open spec fn spec_suit(self) -> Suit {
        if self.index() < 9 {
            Suit::Man
        } else if self.index() < 18 {
            Suit::Pin
        } else if self.index() < 27 {
            Suit::Sou
        } else {
            Suit::Honor
        }
    }

    #[verifier::when_used_as_spec(spec_suit)]
    pub fn suit(self) -> (s: Suit)
        ensures
            s == self.spec_suit(),
    {
        let i: usize = self.index();
        if i < 9 {
            Suit::Man
        } else if i < 18 {
            Suit::Pin
        } else if i < 27 {
            Suit::Sou
        } else {
            Suit::Honor
        }
    }

    /// Whether the face has a successor in its suit: ranks 1 to 8 of a
    /// numbered suit.
    pub open spec fn spec_has_next(self) -> bool {
        self.index() < 27 && self.index() % 9 != 8
    }

    #[verifier::when_used_as_spec(spec_has_next)]
    pub fn has_next(self) -> (b: bool)
        ensures
            b == self.spec_has_next(),
    {
        let i: usize = self.index();
        i < 27 && i % 9 != 8
    }

    /// The face that follows in the total order.
    pub open spec fn spec_next(self) -> Tile {
        Tile::of_index(self.index() + 1)
    }

    /// The next rank of the same suit.
    #[verifier::when_used_as_spec(spec_next)]
    pub fn next(self) -> (t: Tile)
        requires
            self.has_next(),
        ensures
            t == self.spec_next(),
            t.index() == self.index() + 1,
            t.suit() == self.suit(),
    {
        match Tile::from_index(self.index() + 1) {
            Some(t) => t,
            None => self,
        }
    }

    /// The face whose indicator this face is: the next rank, wind or
    /// dragon, going round from the last of each to the first.
    pub open spec fn spec_next_wrap(self) -> Tile {
        match self {
            Tile::M9 => Tile::M1,
            Tile::P9 => Tile::P1,
            Tile::S9 => Tile::S1,
            Tile::X4 => Tile::X1,
            Tile::X7 => Tile::X5,
            _ => self.spec_next(),
        }
    }

    #[verifier::when_used_as_spec(spec_next_wrap)]
    pub fn next_wrap(self) -> (t: Tile)
        ensures
            t == self.spec_next_wrap(),
    {
        match self {
            Tile::M9 => Tile::M1,
            Tile::P9 => Tile::P1,
            Tile::S9 => Tile::S1,
            Tile::X4 => Tile::X1,
            Tile::X7 => Tile::X5,
            _ => match Tile::from_index(self.index() + 1) {
                Some(t) => t,
                None => self,
            },
        }
    }

    /// The same rank in man, pin and sou, in that order.
    pub open spec fn spec_sanshoku(t1: Tile, t2: Tile, t3: Tile) -> bool {
        t1.index() < 9 && t1.index() + 9 == t2.index() && t1.index() + 18 == t3.index()
    }

    #[verifier::when_used_as_spec(spec_sanshoku)]
    pub fn sanshoku(t1: Tile, t2: Tile, t3: Tile) -> (b: bool)
        ensures
            b == Tile::spec_sanshoku(t1, t2, t3),
    {
        t1.index() < 9 && t1.index() + 9 == t2.index() && t1.index() + 18 == t3.index()
    }

    /// Ranks 1, 4 and 7 of one numbered suit, in that order.
    pub open spec fn spec_itsuu(t1: Tile, t2: Tile, t3: Tile) -> bool {
        (t1 == Tile::M1 || t1 == Tile::P1 || t1 == Tile::S1) && t1.index() + 3 == t2.index()
            && t1.index() + 6 == t3.index()
    }

    #[verifier::when_used_as_spec(spec_itsuu)]
    pub fn itsuu(t1: Tile, t2: Tile, t3: Tile) -> (b: bool)
        ensures
            b == Tile::spec_itsuu(t1, t2, t3),
    {
        (t1 == Tile::M1 || t1 == Tile::P1 || t1 == Tile::S1) && t1.index() + 3 == t2.index()
            && t1.index() + 6 == t3.index()
    }
}

/// Walks the 34 faces in ascending order.
pub struct TileIterator {
    position: usize,
}

impl TileIterator {
    /// Number of faces already handed out.
    pub closed spec fn position(&self) -> int {
        self.position as int
    }

    /// The next face, if any is left.
    pub fn next(&mut self) -> (r: Option<Tile>)
        ensures
            old(self).position() < NUM_TILES ==> r == Some(Tile::of_index(old(self).position()))
                && final(self).position() == old(self).position() + 1,
            old(self).position() >= NUM_TILES ==> r is None && *final(self) == *old(self),
            r matches Some(t) ==> t.index() == old(self).position(),
    {
        let result = Tile::from_index(self.position);
        if result.is_some() {
            self.position = self.position + 1;
        }
        result
    }
}

/// A multiset of tiles: how many of each face.
pub struct TileSet {
    counts: [isize; 34],
}

/// All 34 faces form a finite set.
pub proof fn lemma_faces_finite()
    ensures
        Set::<Tile>::new(|t: Tile| true).finite(),
{
    let s = set![
        Tile::M1, Tile::M2, Tile::M3, Tile::M4, Tile::M5, Tile::M6, Tile::M7, Tile::M8, Tile::M9,
        Tile::P1, Tile::P2, Tile::P3, Tile::P4, Tile::P5, Tile::P6, Tile::P7, Tile::P8, Tile::P9,
        Tile::S1, Tile::S2, Tile::S3, Tile::S4, Tile::S5, Tile::S6, Tile::S7, Tile::S8, Tile::S9,
        Tile::X1, Tile::X2, Tile::X3, Tile::X4, Tile::X5, Tile::X6, Tile::X7
    ];
    assert(s.finite());
    assert(s =~= Set::<Tile>::new(|t: Tile| true));
}

/// What a stored count stands for.
pub open spec fn spec_count(stored: isize) -> nat {
    if stored >= 0 {
        stored as nat
    } else {
        0
    }
}

impl View for TileSet {
    type V = Multiset<Tile>;

    closed spec fn view(&self) -> Multiset<Tile> {
        Multiset::from_map(Map::new(|t: Tile| true, |t: Tile| spec_count(self.counts[t.index() as int])))
    }
}

impl TileSet {
    #[verifier::type_invariant]
    spec fn no_negative_count(&self) -> bool {
        forall|i: int| 0 <= i < 34 ==> self.counts[i] >= 0
    }

    proof fn lemma_count(&self, tile: Tile)
        ensures
            self@.count(tile) == spec_count(self.counts[tile.index() as int]),
    {
        lemma_faces_finite();
        let m = Map::new(|t: Tile| true, |t: Tile| spec_count(self.counts[t.index() as int]));
        assert(m.dom() =~= Set::<Tile>::new(|t: Tile| true));
        assert(m.dom().contains(tile));
    }

    /// No face is held more often than a count can say.
    pub proof fn lemma_bounded(&self, tile: Tile)
        ensures
            self@.count(tile) <= isize::MAX,
    {
        self.lemma_count(tile);
    }

    /// The empty multiset.
    pub fn empty() -> (ts: TileSet)
        ensures
            ts@ == Multiset::<Tile>::empty(),
    {
        let ts = TileSet { counts: [0; 34] };
        proof {
            assert forall|t: Tile| ts@.count(t) == 0 by {
                ts.lemma_count(t);
            }
            assert(ts@ =~= Multiset::<Tile>::empty());
        }
        ts
    }

    /// The multiset that holds each tile of a list as often as the list does.
    pub fn make(tiles: &[Tile]) -> (ts: TileSet)
        requires
            tiles@.len() <= isize::MAX,
        ensures
            ts@ == tiles@.to_multiset(),
    {
        let mut ts = TileSet::empty();
        let mut i: usize = 0;
        proof {
            broadcast use vstd::seq_lib::group_to_multiset_ensures;
            vstd::multiset::lemma_multiset_empty_len(tiles@.subrange(0, 0).to_multiset());
        }
        while i < tiles.len()
            invariant
                i <= tiles@.len() <= isize::MAX,
                ts@ == tiles@.subrange(0, i as int).to_multiset(),
            decreases tiles@.len() - i,
        {
            proof {
                broadcast use vstd::seq_lib::group_to_multiset_ensures;
                let prefix = tiles@.subrange(0, i as int);
                assert(tiles@.subrange(0, i + 1) =~= prefix.push(tiles@[i as int]));
                assert(ts@.count(tiles@[i as int]) <= ts@.len());
            }
            ts.add(tiles[i], 1);
            i = i + 1;
        }
        proof {
            assert(tiles@.subrange(0, i as int) =~= tiles@);
        }
        ts
    }

    /// How many of a face the multiset holds.
    pub fn get(&self, tile: Tile) -> (n: isize)
        ensures
            n == self@.count(tile),
    {
        proof {
            use_type_invariant(self);
            self.lemma_count(tile);
        }
        self.counts[tile.index()]
    }

    /// Adds `n` copies of a face, or takes `-n` copies out.
    pub fn add(&mut self, tile: Tile, n: isize)
        requires
            0 <= old(self)@.count(tile) + n <= isize::MAX,
        ensures
            final(self)@.count(tile) == old(self)@.count(tile) + n,
            forall|t: Tile| t != tile ==> final(self)@.count(t) == old(self)@.count(t),
    {
        proof {
            use_type_invariant(&*self);
            self.lemma_count(tile);
            Tile::index_bijection();
        }
        let ghost before = *self;
        let m: isize = self.counts[tile.index()] + n;
        self.counts[tile.index()] = m;
        proof {
            assert forall|t: Tile| #[trigger] self@.count(t) == (if t == tile {
                before@.count(tile) + n
            } else {
                before@.count(t) as int
            }) by {
                self.lemma_count(t);
                before.lemma_count(t);
            }
        }
    }

    /// Adds `n` copies of each tile of a list, or takes `-n` copies of each out.
    pub fn add_all(&mut self, tiles: &[Tile], n: isize)
        requires
            forall|t: Tile| 0 <= #[trigger] old(self)@.count(t) + n * tiles@.to_multiset().count(t) <= isize::MAX,
        ensures
            forall|t: Tile| #[trigger] final(self)@.count(t) == old(self)@.count(t) + n * tiles@.to_multiset().count(t),
    {
        let ghost start = *self;
        proof {
            use_type_invariant(&*self);
            assert forall|t: Tile| #[trigger] start@.count(t) <= isize::MAX by {
                start.lemma_count(t);
            }
            broadcast use vstd::seq_lib::group_to_multiset_ensures;
            vstd::multiset::lemma_multiset_empty_len(tiles@.subrange(0, 0).to_multiset());
        }
        let mut i: usize = 0;
        while i < tiles.len()
            invariant
                i <= tiles@.len(),
                start == *old(self),
                forall|t: Tile| #[trigger] start@.count(t) <= isize::MAX,
                forall|t: Tile|
                    0 <= #[trigger] start@.count(t) + n * tiles@.to_multiset().count(t)
                        <= isize::MAX,
                forall|t: Tile| #[trigger]
                    self@.count(t) == start@.count(t) + n * tiles@.subrange(
                        0,
                        i as int,
                    ).to_multiset().count(t),
            decreases tiles@.len() - i,
        {
            let tile = tiles[i];
            proof {
                broadcast use vstd::seq_lib::group_to_multiset_ensures;
                let prefix = tiles@.subrange(0, i as int);
                let next = tiles@.subrange(0, i + 1);
                assert(next =~= prefix.push(tile));
                lemma_prefix_count(tiles@, i + 1, tile);
                let full: int = tiles@.to_multiset().count(tile) as int;
                let part: int = next.to_multiset().count(tile) as int;
                let c: int = start@.count(tile) as int;
                let m: int = n as int;
                let top: int = isize::MAX as int;
                assert(part == prefix.to_multiset().count(tile) + 1);
                assert(1 <= part <= full);
                assert(0 <= c + m * full <= top);
                assert(0 <= c + m * part <= top) by (nonlinear_arith)
                    requires
                        1 <= part <= full,
                        0 <= c <= top,
                        0 <= c + m * full <= top,
                ;
                assert(m * part == m * (part - 1) + m) by (nonlinear_arith);
                assert forall|t: Tile| t != tile implies prefix.to_multiset().count(t)
                    == next.to_multiset().count(t) by {}
            }
            self.add(tile, n);
            i = i + 1;
        }
        proof {
            assert(tiles@.subrange(0, i as int) =~= tiles@);
        }
    }

    /// The faces that occur at least once, in ascending order.
    pub fn distinct(&self) -> (it: TileSetIterator<'_>)
        ensures
            it.tiles() == self,
            it.position() == 0,
    {
        TileSetIterator { tiles: self, current: 0 }
    }

    /// Whether `other` is a sub-multiset of this one.
    pub fn contains(&self, other: &TileSet) -> (b: bool)
        ensures
            b == other@.subset_of(self@),
    {
        let mut i: usize = 0;
        while i < NUM_TILES
            invariant
                i <= NUM_TILES,
                forall|t: Tile| t.index() < i ==> #[trigger] other@.count(t) <= self@.count(t),
            decreases NUM_TILES - i,
        {
            match Tile::from_index(i) {
                Some(tile) => {
                    if self.get(tile) < other.get(tile) {
                        assert(!(other@.count(tile) <= self@.count(tile)));
                        return false;
                    }
                    proof {
                        Tile::index_bijection();
                    }
                },
                None => {},
            }
            i = i + 1;
        }
        true
    }
}

/// A prefix of a list holds a face at most as often as the list.
pub proof fn lemma_prefix_count(s: Seq<Tile>, k: int, t: Tile)
    requires
        0 <= k <= s.len(),
    ensures
        s.subrange(0, k).to_multiset().count(t) <= s.to_multiset().count(t),
    decreases s.len() - k,
{
    broadcast use vstd::seq_lib::group_to_multiset_ensures;
    if k < s.len() {
        lemma_prefix_count(s, k + 1, t);
        assert(s.subrange(0, k + 1) =~= s.subrange(0, k).push(s[k]));
    } else {
        assert(s.subrange(0, k) =~= s);
    }
}

/// Walks the faces of a multiset that occur at least once, in ascending order.
pub struct TileSetIterator<'a> {
    tiles: &'a TileSet,
    current: usize,
}

impl<'a> TileSetIterator<'a> {
    /// The multiset that is walked.
    pub closed spec fn tiles(&self) -> &TileSet {
        self.tiles
    }

    /// Every face before this position has been passed.
    pub closed spec fn position(&self) -> int {
        self.current as int
    }

    /// The least face at or after the position that the multiset holds.
    pub fn next(&mut self) -> (r: Option<Tile>)
        ensures
            final(self).tiles() == old(self).tiles(),
            old(self).position() <= final(self).position(),
            forall|t: Tile| old(self).position() <= t.index() < final(self).position() && Some(t) != r
                ==> old(self).tiles()@.count(t) == 0,
            r matches Some(t) ==> old(self).tiles()@.count(t) > 0
                && old(self).position() <= t.index()
                && final(self).position() == t.index() + 1,
            r is None ==> final(self).position() >= NUM_TILES,
    {
        while self.current < NUM_TILES
            invariant
                self.tiles == old(self).tiles,
                old(self).current <= self.current,
                forall|t: Tile| old(self).current <= t.index() < self.current
                    ==> old(self).tiles@.count(t) == 0,
            decreases NUM_TILES - self.current,
        {
            match Tile::from_index(self.current) {
                Some(tile) => {
                    proof {
                        Tile::index_bijection();
                    }
                    if self.tiles.get(tile) > 0 {
                        self.current = self.current + 1;
                        return Some(tile);
                    }
                },
                None => {},
            }
            self.current = self.current + 1;
        }
        None
    }
}

/// Whether a list of tiles is in ascending order.
pub open spec fn ascending(s: Seq<Tile>) -> bool {
    forall|i: int, j: int| 0 <= i < j < s.len() ==> s[i].index() <= s[j].index()
}

/// Two ascending lists that hold the same tiles are the same list.
pub proof fn lemma_ascending_unique(a: Seq<Tile>, b: Seq<Tile>)
    requires
        ascending(a),
        ascending(b),
        a.to_multiset() == b.to_multiset(),
    ensures
        a == b,
{
    let leq = |x: Tile, y: Tile| x.index() <= y.index();
    Tile::index_bijection();
    assert(vstd::relations::total_ordering(leq));
    assert(vstd::relations::sorted_by(a, leq));
    assert(vstd::relations::sorted_by(b, leq));
    vstd::seq_lib::lemma_sorted_unique(a, b, leq);
}

/// The ascending list of the tiles of a multiset.
pub open spec fn sorted_of(m: Multiset<Tile>) -> Seq<Tile> {
    choose|s: Seq<Tile>| ascending(s) && s.to_multiset() == m
}

/// An ascending list is the ascending list of its own tiles.
pub proof fn lemma_sorted_of(s: Seq<Tile>)
    requires
        ascending(s),
    ensures
        sorted_of(s.to_multiset()) == s,
{
    let c = sorted_of(s.to_multiset());
    assert(ascending(c) && c.to_multiset() == s.to_multiset());
    lemma_ascending_unique(c, s);
}

/// The tiles of a list in ascending order.
pub fn sort_tiles(tiles: &[Tile]) -> (sorted: Vec<Tile>)
    ensures
        sorted@ == sorted_of(tiles@.to_multiset()),
        ascending(sorted@),
        sorted@.to_multiset() == tiles@.to_multiset(),
        sorted@.len() == tiles@.len(),
{
    let mut sorted: Vec<Tile> = Vec::new();
    let mut i: usize = 0;
    proof {
        broadcast use vstd::seq_lib::group_to_multiset_ensures;
        assert(tiles@.subrange(0, 0) =~= sorted@);
    }
    while i < tiles.len()
        invariant
            i <= tiles@.len(),
            sorted@.len() == i,
            ascending(sorted@),
            sorted@.to_multiset() == tiles@.subrange(0, i as int).to_multiset(),
        decreases tiles@.len() - i,
    {
        let tile = tiles[i];
        let mut at: usize = 0;
        while at < sorted.len() && sorted[at].index() <= tile.index()
            invariant
                at <= sorted@.len(),
                forall|k: int| 0 <= k < at ==> sorted@[k].index() <= tile.index(),
            decreases sorted@.len() - at,
        {
            at = at + 1;
        }
        proof {
            broadcast use vstd::seq_lib::group_to_multiset_ensures;
            assert(tiles@.subrange(0, i + 1) =~= tiles@.subrange(0, i as int).push(tile));
        }
        sorted.insert(at, tile);
        i = i + 1;
    }
    proof {
        assert(tiles@.subrange(0, i as int) =~= tiles@);
        lemma_sorted_of(sorted@);
    }
    sorted
}

} // verus!
