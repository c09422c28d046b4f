//! A computer player: which thirteen tiles to keep, and which tile to
//! discard.

use crate::backtrack::{
    is_kind, items_view, lemma_branches_contains, lemma_filter, lemma_group_fits,
    lemma_incomplete_fits, lemma_kind_parts, lemma_pair_fits, lemma_single_fits, part_le,
    parts_view, spec_child, spec_filter, spec_find_groups, spec_find_incomplete_groups,
    spec_find_pairs, spec_find_single, spec_kind_parts, spec_search, Backtrack,
    BacktrackStrategy, PartKind,
};
use crate::fu::spec_fu;
use crate::hand::Hand;
use crate::random::{seeded, shuffle, spec_seeded};
use crate::score::{spec_counted_fan, spec_tier, Score};
use crate::search::{
    find_all_waits, lemma_stack_tiles_front, search, spec_waits_for, spec_wins, stack_tiles,
};
use crate::tiles::{ascending, lemma_prefix_count, sort_tiles, sorted_of, NUM_TILES, Tile, TileSet};
use crate::yaku::{spec_total_fan, Yaku};
use rand::rngs::StdRng;
use vstd::multiset::Multiset;
use vstd::prelude::*;

verus! {

/// The four shapes of thirteen tiles that wait for one tile: four groups
/// and a single tile; three groups, an incomplete group and a pair; six
/// pairs and a single tile; thirteen orphans.
pub enum BotSearch {
    Normal4,
    Normal3,
    Pairs,
    Kokushi,
}

/// The terminals and honors among the first `n` faces that a multiset
/// holds, in ascending order.
pub open spec fn held_orphans(tiles: Multiset<Tile>, n: nat) -> Seq<Tile>
    decreases n,
{
    if n == 0 {
        Seq::empty()
    } else if Tile::of_index(n - 1).spec_is_yaochu() && tiles.count(Tile::of_index(n - 1)) >= 1 {
        held_orphans(tiles, (n - 1) as nat).push(Tile::of_index(n - 1))
    } else {
        held_orphans(tiles, (n - 1) as nat)
    }
}

/// Twelve faces and a second tile of one of them, for each of the first
/// `n` of the faces that the multiset holds twice.
pub open spec fn orphan_doubles(tiles: Multiset<Tile>, faces: Seq<Tile>, n: nat) -> Seq<Seq<Tile>>
    decreases n,
{
    if n == 0 {
        Seq::empty()
    } else if tiles.count(faces[n - 1]) > 1 {
        orphan_doubles(tiles, faces, (n - 1) as nat).push(faces.push(faces[n - 1]))
    } else {
        orphan_doubles(tiles, faces, (n - 1) as nat)
    }
}

/// The thirteen tiles that wait for thirteen orphans: all thirteen
/// terminals and honors; or, where one of them is missing, the other
/// twelve and a second tile of one of them.
pub open spec fn spec_orphan_parts(tiles: Multiset<Tile>) -> Seq<Seq<Tile>> {
    let faces = held_orphans(tiles, 34);
    if faces.len() == 13 {
        seq![faces]
    } else if faces.len() == 12 {
        orphan_doubles(tiles, faces, 12)
    } else {
        Seq::empty()
    }
}

/// The held terminals and honors go strictly upwards and are held.
pub proof fn lemma_held_orphans(tiles: Multiset<Tile>, n: nat)
    requires
        n <= 34,
    ensures
        held_orphans(tiles, n).len() <= n,
        forall|i: int| 0 <= i < held_orphans(tiles, n).len() ==> (#[trigger] held_orphans(tiles, n)[i]).index() < n && tiles.count(held_orphans(tiles, n)[i]) >= 1,
        forall|i: int, j: int| 0 <= i < j < held_orphans(tiles, n).len() ==> held_orphans(tiles, n)[i].index() < held_orphans(tiles, n)[j].index(),
    decreases n,
{
    if n > 0 {
        lemma_held_orphans(tiles, (n - 1) as nat);
        Tile::index_bijection();
    }
}

/// A list of faces that go strictly upwards, and the list with a second
/// tile of one of its faces, are among the tiles of a multiset that
/// holds each face, and holds the second tile too.
pub proof fn lemma_faces_fit(tiles: Multiset<Tile>, faces: Seq<Tile>, double: Option<int>)
    requires
        forall|i: int, j: int| 0 <= i < j < faces.len() ==> faces[i].index() < faces[j].index(),
        forall|i: int| 0 <= i < faces.len() ==> tiles.count(#[trigger] faces[i]) >= 1,
        double matches Some(k) ==> 0 <= k < faces.len() && tiles.count(faces[k]) > 1,
    ensures
        double is None ==> faces.to_multiset().subset_of(tiles),
        double matches Some(k) ==> faces.push(faces[k]).to_multiset().subset_of(tiles),
{
    broadcast use vstd::seq_lib::group_to_multiset_ensures;
    Tile::index_bijection();
    assert(faces.no_duplicates());
    faces.lemma_multiset_has_no_duplicates();
    assert forall|x: Tile| faces.to_multiset().count(x) <= (if faces.contains(x) { 1nat } else { 0 }) by {}
    assert forall|x: Tile| faces.contains(x) implies tiles.count(x) >= 1 by {
        let i = choose|i: int| 0 <= i < faces.len() && faces[i] == x;
        assert(tiles.count(faces[i]) >= 1);
    }
    assert forall|x: Tile| faces.to_multiset().count(x) <= tiles.count(x) by {
        assert(faces.to_multiset().count(x) <= (if faces.contains(x) { 1nat } else { 0 }));
    }
    if double is Some {
        let k = double->0;
        assert forall|x: Tile| faces.push(faces[k]).to_multiset().count(x) <= tiles.count(x) by {
            assert(faces.to_multiset().count(x) <= (if faces.contains(x) { 1nat } else { 0 }));
        }
    }
}

/// Each part of `orphan_doubles` is the list of faces and a second tile
/// of one of them that the multiset holds twice.
pub proof fn lemma_orphan_doubles(tiles: Multiset<Tile>, faces: Seq<Tile>, n: nat, i: int)
    requires
        n <= faces.len(),
        0 <= i < orphan_doubles(tiles, faces, n).len(),
    ensures
        exists|k: int| 0 <= k < n && tiles.count(faces[k]) > 1 && orphan_doubles(tiles, faces, n)[i] == faces.push(#[trigger] faces[k]),
    decreases n,
{
    if n > 0 {
        let rest = orphan_doubles(tiles, faces, (n - 1) as nat);
        if i < rest.len() {
            lemma_orphan_doubles(tiles, faces, (n - 1) as nat, i);
            let k = choose|k: int| 0 <= k < n - 1 && tiles.count(faces[k]) > 1 && rest[i] == faces.push(#[trigger] faces[k]);
            assert(0 <= k < n && tiles.count(faces[k]) > 1 && orphan_doubles(tiles, faces, n)[i] == faces.push(faces[k]));
        } else {
            assert(orphan_doubles(tiles, faces, n)[i] == faces.push(faces[n - 1]));
        }
    }
}

/// The thirteen-tile parts that wait for thirteen orphans, among the
/// tiles of a multiset.
fn find_kokushi(tiles: &TileSet) -> (parts: Vec<Vec<Tile>>)
    ensures
        parts_view(parts@) == spec_orphan_parts(tiles@),
{
    let mut yaochu: Vec<Tile> = Vec::new();
    let mut i: usize = 0;
    while i < NUM_TILES
        invariant
            i <= NUM_TILES,
            yaochu@ == held_orphans(tiles@, i as nat),
        decreases NUM_TILES - i,
    {
        if let Some(tile) = Tile::from_index(i) {
            if tile.is_yaochu() && tiles.get(tile) >= 1 {
                yaochu.push(tile);
            }
        }
        i = i + 1;
    }
    let mut result: Vec<Vec<Tile>> = Vec::new();
    if yaochu.len() == 13 {
        result.push(yaochu);
        proof {
            assert(parts_view(result@) =~= spec_orphan_parts(tiles@));
        }
    } else if yaochu.len() == 12 {
        let mut k: usize = 0;
        proof {
            assert(parts_view(result@) =~= orphan_doubles(tiles@, yaochu@, 0));
        }
        while k < 12
            invariant
                k <= 12,
                yaochu@.len() == 12,
                parts_view(result@) == orphan_doubles(tiles@, yaochu@, k as nat),
            decreases 12 - k,
        {
            let tile = yaochu[k];
            if tiles.get(tile) > 1 {
                let mut tenpai = yaochu.clone();
                tenpai.push(tile);
                let ghost before = parts_view(result@);
                proof {
                    assert(tenpai@ =~= yaochu@.push(tile));
                }
                result.push(tenpai);
                proof {
                    assert(parts_view(result@) =~= before.push(yaochu@.push(tile)));
                }
            }
            k = k + 1;
        }
    } else {
        proof {
            assert(parts_view(result@) =~= spec_orphan_parts(tiles@));
        }
    }
    result
}

impl BotSearch {
    /// The numbers of tiles still to take that the search of a shape,
    /// begun with thirteen, passes through.
    pub open spec fn spec_budget(self, remaining: nat) -> bool {
        match self {
            BotSearch::Normal4 => remaining % 3 == 1 || remaining == 0,
            BotSearch::Normal3 => remaining == 13 || remaining == 10 || remaining == 7 || remaining == 4 || remaining == 2
                || remaining == 0,
            BotSearch::Pairs => remaining % 2 == 1 || remaining == 0,
            BotSearch::Kokushi => remaining == 13 || remaining == 0,
        }
    }
}

impl BacktrackStrategy for BotSearch {
    type Item = Vec<Tile>;

    open spec fn admits(&self, tiles: Multiset<Tile>, stack: Seq<Seq<Tile>>, remaining: nat) -> bool {
        self.spec_budget(remaining)
    }

    open spec fn proposals(&self, tiles: Multiset<Tile>, stack: Seq<Seq<Tile>>, remaining: nat) -> Seq<Seq<Tile>> {
        match self {
            BotSearch::Normal4 => if remaining > 1 {
                spec_filter(stack, spec_find_groups(tiles))
            } else {
                spec_find_single(tiles)
            },
            BotSearch::Normal3 => if remaining > 4 {
                spec_filter(stack, spec_find_groups(tiles))
            } else if remaining > 2 {
                spec_find_incomplete_groups(tiles)
            } else {
                spec_find_pairs(tiles)
            },
            BotSearch::Pairs => if remaining > 1 {
                spec_filter(stack, spec_find_pairs(tiles))
            } else {
                spec_find_single(tiles)
            },
            BotSearch::Kokushi => spec_orphan_parts(tiles),
        }
    }

    open spec fn outcome(&self, tiles: Multiset<Tile>, stack: Seq<Seq<Tile>>) -> Seq<Seq<Tile>> {
        seq![stack.flatten()]
    }

    proof fn lemma_proposals(&self, tiles: Multiset<Tile>, stack: Seq<Seq<Tile>>, remaining: nat, i: int) {
        let parts = self.proposals(tiles, stack, remaining);
        let part = parts[i];
        assert(parts.contains(part));
        match self {
            BotSearch::Normal4 => {
                if remaining > 1 {
                    lemma_filter(stack, spec_find_groups(tiles), part);
                    lemma_group_fits(tiles, part);
                } else {
                    lemma_single_fits(tiles, part);
                }
            },
            BotSearch::Normal3 => {
                if remaining > 4 {
                    lemma_filter(stack, spec_find_groups(tiles), part);
                    lemma_group_fits(tiles, part);
                } else if remaining > 2 {
                    lemma_incomplete_fits(tiles, part);
                } else {
                    lemma_pair_fits(tiles, part);
                }
            },
            BotSearch::Pairs => {
                if remaining > 1 {
                    lemma_filter(stack, spec_find_pairs(tiles), part);
                    lemma_pair_fits(tiles, part);
                } else {
                    lemma_single_fits(tiles, part);
                }
            },
            BotSearch::Kokushi => {
                let faces = held_orphans(tiles, 34);
                lemma_held_orphans(tiles, 34);
                if faces.len() == 13 {
                    assert(part == faces);
                    lemma_faces_fit(tiles, faces, None);
                } else {
                    lemma_orphan_doubles(tiles, faces, 12, i);
                    let k = choose|k: int| 0 <= k < 12 && tiles.count(faces[k]) > 1 && orphan_doubles(tiles, faces, 12)[i] == faces.push(#[trigger] faces[k]);
                    lemma_faces_fit(tiles, faces, Some(k));
                }
            },
        }
    }

    fn generate(&self, bt: &Backtrack) -> (parts: Vec<Vec<Tile>>) {
        match self {
            BotSearch::Normal4 => if bt.remaining > 1 {
                bt.filter(bt.find_groups())
            } else {
                bt.find_single()
            },
            BotSearch::Normal3 => if bt.remaining > 4 {
                bt.filter(bt.find_groups())
            } else if bt.remaining > 2 {
                bt.find_incomplete_groups()
            } else {
                bt.find_pairs()
            },
            BotSearch::Pairs => if bt.remaining > 1 {
                bt.filter(bt.find_pairs())
            } else {
                bt.find_single()
            },
            BotSearch::Kokushi => find_kokushi(&bt.tiles),
        }
    }

    fn check(&self, bt: &Backtrack) -> (items: Vec<Vec<Tile>>) {
        let mut all: Vec<Tile> = Vec::new();
        let mut i: usize = 0;
        proof {
            assert(bt.spec_stack().subrange(0, 0) =~= Seq::<Seq<Tile>>::empty());
        }
        while i < bt.stack.len()
            invariant
                i <= bt.stack@.len(),
                all@ == bt.spec_stack().subrange(0, i as int).flatten(),
            decreases bt.stack@.len() - i,
        {
            let part = &bt.stack[i];
            let ghost before = all@;
            let mut k: usize = 0;
            while k < part.len()
                invariant
                    k <= part@.len(),
                    all@ == before + part@.subrange(0, k as int),
                decreases part@.len() - k,
            {
                all.push(part[k]);
                proof {
                    assert(all@ =~= before + part@.subrange(0, k + 1));
                }
                k = k + 1;
            }
            proof {
                assert(part@.subrange(0, k as int) =~= part@);
                assert(bt.spec_stack().subrange(0, i + 1) =~= bt.spec_stack().subrange(0, i as int).push(part@));
                bt.spec_stack().subrange(0, i as int).lemma_flatten_push(part@);
            }
            i = i + 1;
        }
        proof {
            assert(bt.spec_stack().subrange(0, i as int) =~= bt.spec_stack());
        }
        let mut items: Vec<Vec<Tile>> = Vec::new();
        items.push(all);
        proof {
            assert(items_view::<Vec<Tile>>(items@) =~= seq![bt.spec_stack().flatten()]);
        }
        items
    }
}

/// All thirteen-tile parts of the given tiles that have one of the four
/// waiting shapes, shape after shape. A part may be found more than once.
pub open spec fn spec_all_tenpai(tiles: Multiset<Tile>) -> Seq<Seq<Tile>> {
    let none = Seq::<Seq<Tile>>::empty();
    spec_search(&BotSearch::Normal4, tiles, none, 13) + spec_search(&BotSearch::Normal3, tiles, none, 13) + spec_search(&BotSearch::Pairs, tiles, none, 13)
        + spec_search(&BotSearch::Kokushi, tiles, none, 13)
}

/// All ways to take thirteen tiles in a waiting shape from the given tiles.
pub fn find_all_tenpai(tiles: &[Tile]) -> (found: Vec<Vec<Tile>>)
    requires
        tiles@.len() <= isize::MAX,
    ensures
        parts_view(found@) == spec_all_tenpai(tiles@.to_multiset()),
{
    let mut bt = Backtrack::from_tiles(tiles, 13);
    let ghost all = tiles@.to_multiset();
    let ghost none = Seq::<Seq<Tile>>::empty();
    let mut result = bt.run(&BotSearch::Normal4);
    let ghost r1 = parts_view(result@);
    let mut more = bt.run(&BotSearch::Normal3);
    let ghost r2 = parts_view(more@);
    result.append(&mut more);
    let mut more = bt.run(&BotSearch::Pairs);
    let ghost r3 = parts_view(more@);
    result.append(&mut more);
    let mut more = bt.run(&BotSearch::Kokushi);
    let ghost r4 = parts_view(more@);
    result.append(&mut more);
    proof {
        assert(r1 =~= spec_search(&BotSearch::Normal4, all, none, 13));
        assert(r2 =~= spec_search(&BotSearch::Normal3, all, none, 13));
        assert(r3 =~= spec_search(&BotSearch::Pairs, all, none, 13));
        assert(r4 =~= spec_search(&BotSearch::Kokushi, all, none, 13));
        assert(parts_view(result@) =~= r1 + r2 + r3 + r4);
    }
    result
}

/// Each part that is found has the tiles of the stack and as many more
/// as were still to take, all of them among the tiles of the stack and
/// the tiles left.
pub proof fn lemma_tenpai_fits(shape: BotSearch, tiles: Multiset<Tile>, stack: Seq<Seq<Tile>>, remaining: nat, found: Seq<Tile>)
    requires
        shape.spec_budget(remaining),
        spec_search(&shape, tiles, stack, remaining).contains(found),
    ensures
        found.len() == stack.flatten().len() + remaining,
        found.to_multiset().subset_of(tiles.add(stack.flatten().to_multiset())),
    decreases remaining,
{
    if remaining == 0 {
        assert(seq![stack.flatten()][0] == found);
    } else {
        let parts = shape.proposals(tiles, stack, remaining);
        lemma_branches_contains(&shape, tiles, stack, remaining, parts, parts.len(), found);
        let i = choose|i: int| 0 <= i < parts.len() && (#[trigger] spec_child(&shape, tiles, stack, remaining, parts[i])).contains(found);
        let part = parts[i];
        shape.lemma_proposals(tiles, stack, remaining, i);
        lemma_tenpai_fits(shape, tiles.sub(part.to_multiset()), stack.push(part), (remaining - part.len()) as nat, found);
        stack.lemma_flatten_push(part);
        vstd::seq_lib::lemma_multiset_commutative(stack.flatten(), part);
        assert(tiles.sub(part.to_multiset()).add(stack.push(part).flatten().to_multiset()) =~= tiles.add(stack.flatten().to_multiset()));
    }
}

impl BotSearch {
    /// The kind of part that the search of a shape takes where there
    /// are `remaining` tiles to take.
    pub open spec fn spec_kind(self, remaining: nat) -> PartKind {
        match self {
            BotSearch::Normal4 => if remaining > 1 {
                PartKind::Group
            } else {
                PartKind::Single
            },
            BotSearch::Normal3 => if remaining > 4 {
                PartKind::Group
            } else if remaining > 2 {
                PartKind::Incomplete
            } else {
                PartKind::Pair
            },
            BotSearch::Pairs => if remaining > 1 {
                PartKind::Pair
            } else {
                PartKind::Single
            },
            BotSearch::Kokushi => PartKind::Single,
        }
    }

    /// Whether the part that is taken where there are `remaining` tiles
    /// to take must not come before the part taken last.
    pub open spec fn spec_ordered(self, remaining: nat) -> bool {
        match self {
            BotSearch::Normal4 => remaining > 1,
            BotSearch::Normal3 => remaining > 4,
            BotSearch::Pairs => remaining > 1,
            BotSearch::Kokushi => false,
        }
    }
}

/// Whether the parts of a stack from a position on are those of a shape
/// with `remaining` tiles: each of the kind that the shape has at its
/// place, each that has to be in order not before the part before it,
/// and all together of `remaining` tiles.
pub open spec fn spec_follows(shape: BotSearch, stack: Seq<Seq<Tile>>, from: int, remaining: nat) -> bool
    decreases remaining,
{
    if remaining == 0 {
        from == stack.len()
    } else if 0 <= from < stack.len() && 0 < stack[from].len() <= remaining {
        &&& is_kind(shape.spec_kind(remaining), stack[from])
        &&& shape.spec_ordered(remaining) && from > 0 ==> part_le(stack[from - 1], stack[from])
        &&& spec_follows(shape, stack, from + 1, (remaining - stack[from].len()) as nat)
    } else {
        false
    }
}

/// Whether a stack is a stack that the search of a shape comes to from a
/// state: it begins with the parts of the state's stack, goes on with
/// parts of the shape, and these are made of the tiles that are left.
pub open spec fn spec_grown(shape: BotSearch, tiles: Multiset<Tile>, begun: Seq<Seq<Tile>>, remaining: nat, stack: Seq<Seq<Tile>>) -> bool {
    &&& begun.len() <= stack.len()
    &&& stack.subrange(0, begun.len() as int) == begun
    &&& spec_follows(shape, stack, begun.len() as int, remaining)
    &&& stack_tiles(stack.subrange(begun.len() as int, stack.len() as int)).subset_of(tiles)
}

/// The tiles of the parts of a stack from a position on are those of
/// the part at the position and those of the parts behind it.
proof fn lemma_rest_tiles(stack: Seq<Seq<Tile>>, from: int)
    requires
        0 <= from < stack.len(),
    ensures
        stack_tiles(stack.subrange(from, stack.len() as int)) == stack[from].to_multiset().add(stack_tiles(stack.subrange(from + 1, stack.len() as int))),
{
    let rest = stack.subrange(from, stack.len() as int);
    lemma_stack_tiles_front(rest);
    assert(rest.drop_first() =~= stack.subrange(from + 1, stack.len() as int));
}

/// What the search of a shape proposes in a state: the parts of the kind
/// that the shape has there, made of the tiles that are left, and not
/// before the part taken last where that is asked.
proof fn lemma_shape_proposals(shape: BotSearch, tiles: Multiset<Tile>, stack: Seq<Seq<Tile>>, remaining: nat, part: Seq<Tile>)
    requires
        !(shape is Kokushi),
        remaining > 0,
    ensures
        shape.proposals(tiles, stack, remaining).contains(part) <==> {
            &&& is_kind(shape.spec_kind(remaining), part)
            &&& part.to_multiset().subset_of(tiles)
            &&& shape.spec_ordered(remaining) && stack.len() > 0 ==> part_le(stack.last(), part)
        },
{
    let kind = shape.spec_kind(remaining);
    lemma_kind_parts(kind, tiles, part);
    if shape.spec_ordered(remaining) {
        assert(shape.proposals(tiles, stack, remaining) == spec_filter(stack, spec_kind_parts(kind, tiles)));
        lemma_filter(stack, spec_kind_parts(kind, tiles), part);
    } else {
        assert(shape.proposals(tiles, stack, remaining) == spec_kind_parts(kind, tiles));
    }
}

/// A stack that the search comes to from the state behind a part is a
/// stack that it comes to from the state before the part.
proof fn lemma_grown_back(shape: BotSearch, tiles: Multiset<Tile>, begun: Seq<Seq<Tile>>, remaining: nat, part: Seq<Tile>, stack: Seq<Seq<Tile>>)
    requires
        !(shape is Kokushi),
        0 < part.len() <= remaining,
        shape.proposals(tiles, begun, remaining).contains(part),
        spec_grown(shape, tiles.sub(part.to_multiset()), begun.push(part), (remaining - part.len()) as nat, stack),
    ensures
        spec_grown(shape, tiles, begun, remaining, stack),
{
    let k = begun.len() as int;
    lemma_shape_proposals(shape, tiles, begun, remaining, part);
    assert(stack.subrange(0, k + 1)[k] == begun.push(part)[k]);
    assert(stack[k] == part);
    assert(stack.subrange(0, k) =~= begun) by {
        assert forall|i: int| 0 <= i < k implies stack.subrange(0, k)[i] == begun[i] by {
            assert(stack.subrange(0, k + 1)[i] == begun.push(part)[i]);
        }
    }
    if k > 0 {
        assert(stack.subrange(0, k + 1)[k - 1] == begun.push(part)[k - 1]);
        assert(stack[k - 1] == begun.last());
    }
    lemma_rest_tiles(stack, k);
    let behind = stack_tiles(stack.subrange(k + 1, stack.len() as int));
    assert forall|x: Tile| part.to_multiset().add(behind).count(x) <= tiles.count(x) by {
        assert(behind.count(x) <= tiles.sub(part.to_multiset()).count(x));
        assert(part.to_multiset().count(x) <= tiles.count(x));
    }
}

/// A stack that the search comes to from a state with tiles to take is
/// a stack that it comes to from the state behind the next part.
proof fn lemma_grown_on(shape: BotSearch, tiles: Multiset<Tile>, begun: Seq<Seq<Tile>>, remaining: nat, stack: Seq<Seq<Tile>>)
    requires
        !(shape is Kokushi),
        remaining > 0,
        spec_grown(shape, tiles, begun, remaining, stack),
    ensures
        ({
            let part = stack[begun.len() as int];
            &&& 0 < part.len() <= remaining
            &&& shape.proposals(tiles, begun, remaining).contains(part)
            &&& spec_grown(shape, tiles.sub(part.to_multiset()), begun.push(part), (remaining - part.len()) as nat, stack)
        }),
{
    let k = begun.len() as int;
    let part = stack[k];
    lemma_rest_tiles(stack, k);
    let behind = stack_tiles(stack.subrange(k + 1, stack.len() as int));
    assert forall|x: Tile| part.to_multiset().count(x) <= tiles.count(x) by {
        assert(part.to_multiset().add(behind).count(x) <= tiles.count(x));
    }
    if k > 0 {
        assert(stack.subrange(0, k)[k - 1] == begun[k - 1]);
    }
    lemma_shape_proposals(shape, tiles, begun, remaining, part);
    assert(stack.subrange(0, k + 1) =~= begun.push(part)) by {
        assert forall|i: int| 0 <= i < k implies stack.subrange(0, k + 1)[i] == begun.push(part)[i] by {
            assert(stack.subrange(0, k)[i] == begun[i]);
        }
    }
    assert forall|x: Tile| behind.count(x) <= tiles.sub(part.to_multiset()).count(x) by {
        assert(part.to_multiset().add(behind).count(x) <= tiles.count(x));
    }
}

/// The search of a shape from a state finds the tiles of the stacks that
/// begin with the state's stack and go on with parts of the shape, made
/// of the tiles that are left.
pub proof fn lemma_shape_search(shape: BotSearch, tiles: Multiset<Tile>, begun: Seq<Seq<Tile>>, remaining: nat, found: Seq<Tile>)
    requires
        !(shape is Kokushi),
        shape.spec_budget(remaining),
    ensures
        spec_search(&shape, tiles, begun, remaining).contains(found) <==> exists|stack: Seq<Seq<Tile>>| #[trigger] spec_grown(shape, tiles, begun, remaining, stack) && found == stack.flatten(),
    decreases remaining,
{
    let results = spec_search(&shape, tiles, begun, remaining);
    if remaining == 0 {
        if results.contains(found) {
            assert(seq![begun.flatten()][0] == found);
            assert(begun.subrange(0, begun.len() as int) =~= begun);
            assert(begun.subrange(begun.len() as int, begun.len() as int) =~= Seq::<Seq<Tile>>::empty());
            assert(spec_grown(shape, tiles, begun, remaining, begun));
        }
        if exists|stack: Seq<Seq<Tile>>| #[trigger] spec_grown(shape, tiles, begun, remaining, stack) && found == stack.flatten() {
            let stack = choose|stack: Seq<Seq<Tile>>| #[trigger] spec_grown(shape, tiles, begun, remaining, stack) && found == stack.flatten();
            assert(stack =~= stack.subrange(0, begun.len() as int));
            assert(seq![begun.flatten()][0] == found);
        }
    } else {
        let parts = shape.proposals(tiles, begun, remaining);
        lemma_branches_contains(&shape, tiles, begun, remaining, parts, parts.len(), found);
        if results.contains(found) {
            let i = choose|i: int| 0 <= i < parts.len() && (#[trigger] spec_child(&shape, tiles, begun, remaining, parts[i])).contains(found);
            let part = parts[i];
            shape.lemma_proposals(tiles, begun, remaining, i);
            lemma_shape_search(shape, tiles.sub(part.to_multiset()), begun.push(part), (remaining - part.len()) as nat, found);
            let stack = choose|stack: Seq<Seq<Tile>>| #[trigger] spec_grown(shape, tiles.sub(part.to_multiset()), begun.push(part), (remaining - part.len()) as nat, stack) && found == stack.flatten();
            assert(parts.contains(part));
            lemma_grown_back(shape, tiles, begun, remaining, part, stack);
        }
        if exists|stack: Seq<Seq<Tile>>| #[trigger] spec_grown(shape, tiles, begun, remaining, stack) && found == stack.flatten() {
            let stack = choose|stack: Seq<Seq<Tile>>| #[trigger] spec_grown(shape, tiles, begun, remaining, stack) && found == stack.flatten();
            lemma_grown_on(shape, tiles, begun, remaining, stack);
            let part = stack[begun.len() as int];
            let i = choose|i: int| 0 <= i < parts.len() && parts[i] == part;
            shape.lemma_proposals(tiles, begun, remaining, i);
            lemma_shape_search(shape, tiles.sub(part.to_multiset()), begun.push(part), (remaining - part.len()) as nat, found);
            assert(spec_grown(shape, tiles.sub(part.to_multiset()), begun.push(part), (remaining - part.len()) as nat, stack));
            assert(spec_child(&shape, tiles, begun, remaining, parts[i]).contains(found));
        }
    }
}

/// The thirteen tiles that the search of a shape finds in a deal are the
/// tiles of the stacks of parts of the shape that are made of tiles of
/// the deal.
pub proof fn lemma_tenpai_shapes(shape: BotSearch, deal: Multiset<Tile>, found: Seq<Tile>)
    requires
        !(shape is Kokushi),
    ensures
        spec_search(&shape, deal, Seq::empty(), 13).contains(found) <==> exists|stack: Seq<Seq<Tile>>|
            #[trigger] spec_follows(shape, stack, 0, 13) && stack_tiles(stack).subset_of(deal) && found == stack.flatten(),
{
    let none = Seq::<Seq<Tile>>::empty();
    lemma_shape_search(shape, deal, none, 13, found);
    if spec_search(&shape, deal, none, 13).contains(found) {
        let stack = choose|stack: Seq<Seq<Tile>>| #[trigger] spec_grown(shape, deal, none, 13, stack) && found == stack.flatten();
        assert(stack.subrange(0, stack.len() as int) =~= stack);
        assert(spec_follows(shape, stack, 0, 13) && stack_tiles(stack).subset_of(deal) && found == stack.flatten());
    }
    if exists|stack: Seq<Seq<Tile>>| #[trigger] spec_follows(shape, stack, 0, 13) && stack_tiles(stack).subset_of(deal) && found == stack.flatten() {
        let stack = choose|stack: Seq<Seq<Tile>>| #[trigger] spec_follows(shape, stack, 0, 13) && stack_tiles(stack).subset_of(deal) && found == stack.flatten();
        assert(stack.subrange(0, stack.len() as int) =~= stack);
        assert(stack.subrange(0, 0) =~= none);
        assert(spec_grown(shape, deal, none, 13, stack));
    }
}

/// Each waiting part of thirteen tiles is made of thirteen of the given tiles.
pub proof fn lemma_all_tenpai(tiles: Multiset<Tile>, i: int)
    requires
        0 <= i < spec_all_tenpai(tiles).len(),
    ensures
        spec_all_tenpai(tiles)[i].len() == 13,
        spec_all_tenpai(tiles)[i].to_multiset().subset_of(tiles),
{
    let none = Seq::<Seq<Tile>>::empty();
    let a = spec_search(&BotSearch::Normal4, tiles, none, 13);
    let b = spec_search(&BotSearch::Normal3, tiles, none, 13);
    let c = spec_search(&BotSearch::Pairs, tiles, none, 13);
    let d = spec_search(&BotSearch::Kokushi, tiles, none, 13);
    let found = spec_all_tenpai(tiles)[i];
    broadcast use vstd::seq_lib::group_to_multiset_ensures;
    assert(none.flatten() =~= Seq::<Tile>::empty());
    assert(tiles.add(none.flatten().to_multiset()) =~= tiles);
    if i < a.len() {
        assert(a.contains(found));
        lemma_tenpai_fits(BotSearch::Normal4, tiles, none, 13, found);
    } else if i < a.len() + b.len() {
        assert(b[i - a.len()] == found);
        lemma_tenpai_fits(BotSearch::Normal3, tiles, none, 13, found);
    } else if i < a.len() + b.len() + c.len() {
        assert(c[i - a.len() - b.len()] == found);
        lemma_tenpai_fits(BotSearch::Pairs, tiles, none, 13, found);
    } else {
        assert(d[i - a.len() - b.len() - c.len()] == found);
        lemma_tenpai_fits(BotSearch::Kokushi, tiles, none, 13, found);
    }
}

/// The limit tier of a winning hand that was declared ready, for a
/// player with the given seat wind, with the given dora.
pub open spec fn spec_hand_limit(hand: Hand, player_wind: Tile, dora: Tile) -> int {
    spec_tier(
        spec_counted_fan(spec_total_fan(hand, player_wind, seq![Yaku::Riichi]) as int, hand.spec_tiles().to_multiset().count(dora) as int),
        spec_fu(hand, player_wind),
    )
}

/// Whether `best` is the highest limit tier among the winning hands that
/// fourteen tiles form around a winning tile, or 0 where they form none.
pub open spec fn is_best_limit(tiles: Multiset<Tile>, wait: Tile, player_wind: Tile, dora: Tile, best: int) -> bool {
    &&& forall|hand: Hand| spec_wins(tiles, wait, hand) ==> #[trigger] spec_hand_limit(hand, player_wind, dora) <= best
    &&& best == 0 || exists|hand: Hand| spec_wins(tiles, wait, hand) && #[trigger] spec_hand_limit(hand, player_wind, dora) == best
}

/// The highest limit tier among the winning hands that fourteen tiles
/// form around a winning tile.
pub open spec fn spec_best_limit(tiles: Multiset<Tile>, wait: Tile, player_wind: Tile, dora: Tile) -> int {
    choose|best: int| is_best_limit(tiles, wait, player_wind, dora, best)
}

/// There is one highest limit tier.
pub proof fn lemma_best_limit(tiles: Multiset<Tile>, wait: Tile, player_wind: Tile, dora: Tile, best: int)
    requires
        0 <= best,
        is_best_limit(tiles, wait, player_wind, dora, best),
    ensures
        spec_best_limit(tiles, wait, player_wind, dora) == best,
{
    let other = spec_best_limit(tiles, wait, player_wind, dora);
    assert(is_best_limit(tiles, wait, player_wind, dora, other));
    if other != best {
        if best != 0 {
            let hand = choose|hand: Hand| spec_wins(tiles, wait, hand) && #[trigger] spec_hand_limit(hand, player_wind, dora) == best;
            assert(spec_hand_limit(hand, player_wind, dora) <= other);
        }
        if other != 0 {
            let hand = choose|hand: Hand| spec_wins(tiles, wait, hand) && #[trigger] spec_hand_limit(hand, player_wind, dora) == other;
            assert(spec_hand_limit(hand, player_wind, dora) <= best);
        }
        assert(0 <= spec_tier(0, 0));
    }
}

/// The highest limit tier among the given hands, each taken as declared
/// ready and with the given dora; 0 for no hands.
pub fn best_limit(hands: &Vec<Hand>, player_wind: Tile, dora: Tile) -> (best: usize)
    requires
        forall|i: int| 0 <= i < hands@.len() ==> (#[trigger] hands@[i]).wf(),
    ensures
        best <= 6,
        forall|i: int| 0 <= i < hands@.len() ==> #[trigger] spec_hand_limit(hands@[i], player_wind, dora) <= best,
        best == 0 || exists|i: int| 0 <= i < hands@.len() && #[trigger] spec_hand_limit(hands@[i], player_wind, dora) == best,
{
    let mut best: usize = 0;
    let mut i: usize = 0;
    while i < hands.len()
        invariant
            i <= hands@.len(),
            best <= 6,
            forall|k: int| 0 <= k < hands@.len() ==> (#[trigger] hands@[k]).wf(),
            forall|k: int| 0 <= k < i ==> #[trigger] spec_hand_limit(hands@[k], player_wind, dora) <= best,
            best == 0 || exists|k: int| 0 <= k < i && #[trigger] spec_hand_limit(hands@[k], player_wind, dora) == best,
        decreases hands@.len() - i,
    {
        let special = [Yaku::Riichi];
        proof {
            assert(special@ =~= seq![Yaku::Riichi]);
        }
        let mut score = Score::from_hand(&hands[i], player_wind, &special);
        score.add_dora(dora);
        let limit = score.limit();
        assert(limit == spec_hand_limit(hands@[i as int], player_wind, dora));
        if limit > best {
            best = limit;
        }
        i = i + 1;
    }
    best
}

/// One in the fixed-point numbers that stand for chances: 2 to the power 64.
pub const CHANCE_ONE: u128 = 18446744073709551616;

/// The chance, as a fixed-point number, that none of `n` tiles is among
/// 17 tiles drawn from 101: the product of (84 - i) / 101 for i below
/// `n`, rounded down at each step.
pub open spec fn spec_chance_none(n: nat) -> int
    decreases n,
{
    if n == 0 {
        CHANCE_ONE as int
    } else {
        spec_chance_none((n - 1) as nat) * (if n <= 84 { 85 - n } else { 0 }) / 101
    }
}

/// What the faces up to a position add up to for thirteen tiles that
/// wait: the tiles that complete them (`all`), those of them that win
/// with a limit tier above 0 (`good`), and the limit tiers of the latter
/// (`weighted`).
pub struct Tally {
    pub all: int,
    pub good: int,
    pub weighted: int,
}

/// How many tiles of a face the player has not seen: four, less those
/// that it holds, less the dora indicator.
pub open spec fn spec_unseen(held: Multiset<Tile>, dora_ind: Tile, wait: Tile) -> int {
    4 - held.count(wait) - (if wait == dora_ind { 1int } else { 0 })
}

/// The tally of thirteen tiles over the first `n` faces.
pub open spec fn spec_tally(tiles: Seq<Tile>, held: Multiset<Tile>, dora_ind: Tile, dora: Tile, player_wind: Tile, n: nat) -> Tally
    decreases n,
{
    if n == 0 {
        Tally { all: 0, good: 0, weighted: 0 }
    } else {
        let before = spec_tally(tiles, held, dora_ind, dora, player_wind, (n - 1) as nat);
        let wait = Tile::of_index(n - 1);
        let unseen = spec_unseen(held, dora_ind, wait);
        let best = spec_best_limit(tiles.push(wait).to_multiset(), wait, player_wind, dora);
        if unseen > 0 && spec_waits_for(tiles, wait) {
            if best > 0 {
                Tally { all: before.all + unseen, good: before.good + unseen, weighted: before.weighted + unseen * best }
            } else {
                Tally { all: before.all + unseen, good: before.good, weighted: before.weighted }
            }
        } else {
            before
        }
    }
}

/// The value of a tally, as a fixed-point number: the chance that one of
/// the completing tiles comes, times the mean limit tier of a completing
/// tile, times the share of completing tiles that win with a limit tier
/// above 0. Nothing where no tile does.
pub open spec fn spec_tally_value(tally: Tally) -> int {
    if tally.good <= 0 {
        0
    } else {
        (CHANCE_ONE - spec_chance_none(tally.all as nat)) * tally.weighted * tally.good / (tally.all * tally.all)
    }
}

/// The chance that none of `n` tiles is drawn, as a fixed-point number.
pub fn chance_none(n: usize) -> (chance: u128)
    ensures
        chance == spec_chance_none(n as nat),
        chance <= CHANCE_ONE,
{
    let mut chance: u128 = CHANCE_ONE;
    let mut i: usize = 0;
    while i < n
        invariant
            i <= n,
            chance == spec_chance_none(i as nat),
            chance <= CHANCE_ONE,
        decreases n - i,
    {
        let factor: u128 = if i < 84 {
            (84 - i) as u128
        } else {
            0
        };
        assert(chance * factor <= CHANCE_ONE * 84) by (nonlinear_arith)
            requires
                chance <= CHANCE_ONE,
                factor <= 84,
        ;
        assert(chance * factor / 101 <= chance) by (nonlinear_arith)
            requires
                factor <= 84,
                0 <= chance,
        ;
        chance = chance * factor / 101;
        i = i + 1;
    }
    chance
}

/// The computer player of one match.
pub struct Bot {
    initial_tiles: Vec<Tile>,
    tile_set: TileSet,
    safe_tiles: TileSet,
    waits: TileSet,
    dora_ind: Tile,
    dora: Tile,
    player_wind: Tile,
    rng: StdRng,
}

impl Bot {
    /// The tiles that were dealt, in the order of the deal.
    pub closed spec fn spec_initial(&self) -> Seq<Tile> {
        self.initial_tiles@
    }

    /// The tiles that the player holds and has neither kept for its hand
    /// nor discarded.
    pub closed spec fn spec_held(&self) -> Multiset<Tile> {
        self.tile_set@
    }

    /// The faces that the opponent has discarded.
    pub closed spec fn spec_safe(&self) -> Set<Tile> {
        Set::new(|t: Tile| self.safe_tiles@.count(t) > 0)
    }

    /// The faces that would complete the hand that was kept.
    pub closed spec fn spec_waits(&self) -> Set<Tile> {
        Set::new(|t: Tile| self.waits@.count(t) > 0)
    }

    /// The dora indicator.
    pub closed spec fn spec_dora_ind(&self) -> Tile {
        self.dora_ind
    }

    /// The dora: the face that follows the indicator.
    pub closed spec fn spec_dora(&self) -> Tile {
        self.dora
    }

    /// The seat wind of the player.
    pub closed spec fn spec_player_wind(&self) -> Tile {
        self.player_wind
    }

    /// The generator of the random numbers that break ties between
    /// discards.
    pub closed spec fn spec_rng(&self) -> StdRng {
        self.rng
    }

    /// A player with the given deal. Its random numbers come from a fixed
    /// seed until `reseed` is called.
    pub fn new(initial_tiles: &[Tile], dora_ind: Tile, player_wind: Tile) -> (bot: Bot)
        requires
            initial_tiles@.len() <= isize::MAX,
        ensures
            bot.wf(),
            bot.spec_initial() == initial_tiles@,
            bot.spec_held() == initial_tiles@.to_multiset(),
            bot.spec_safe() == Set::<Tile>::empty(),
            bot.spec_waits() == Set::<Tile>::empty(),
            bot.spec_dora_ind() == dora_ind,
            bot.spec_dora() == dora_ind.spec_next_wrap(),
            bot.spec_player_wind() == player_wind,
    {
        let mut tiles: Vec<Tile> = Vec::new();
        let mut i: usize = 0;
        while i < initial_tiles.len()
            invariant
                i <= initial_tiles@.len(),
                tiles@ == initial_tiles@.subrange(0, i as int),
            decreases initial_tiles@.len() - i,
        {
            tiles.push(initial_tiles[i]);
            proof {
                assert(tiles@ =~= initial_tiles@.subrange(0, i + 1));
            }
            i = i + 1;
        }
        proof {
            assert(initial_tiles@.subrange(0, i as int) =~= initial_tiles@);
        }
        let bot = Bot {
            initial_tiles: tiles,
            tile_set: TileSet::make(initial_tiles),
            safe_tiles: TileSet::empty(),
            waits: TileSet::empty(),
            dora_ind,
            dora: dora_ind.next_wrap(),
            player_wind,
            rng: seeded(0),
        };
        proof {
            assert(bot.spec_safe() =~= Set::<Tile>::empty());
            assert(bot.spec_waits() =~= Set::<Tile>::empty());
        }
        bot
    }

    /// Takes the seed of the random numbers that break ties between
    /// discards: the generator is from now on the one that the seed
    /// makes.
    pub fn reseed(&mut self, seed: u64)
        ensures
            final(self).spec_rng() == spec_seeded(seed),
            final(self).wf() == old(self).wf(),
            final(self).spec_initial() == old(self).spec_initial(),
            final(self).spec_held() == old(self).spec_held(),
            final(self).spec_safe() == old(self).spec_safe(),
            final(self).spec_waits() == old(self).spec_waits(),
            final(self).spec_dora_ind() == old(self).spec_dora_ind(),
            final(self).spec_dora() == old(self).spec_dora(),
            final(self).spec_player_wind() == old(self).spec_player_wind(),
    {
        self.rng = seeded(seed);
    }

    /// Notes a discard of the opponent: the face is safe from now on.
    pub fn opponent_discard(&mut self, tile: Tile)
        ensures
            final(self).wf() == old(self).wf(),
            final(self).spec_safe() == old(self).spec_safe().insert(tile),
            final(self).spec_initial() == old(self).spec_initial(),
            final(self).spec_held() == old(self).spec_held(),
            final(self).spec_waits() == old(self).spec_waits(),
            final(self).spec_dora_ind() == old(self).spec_dora_ind(),
            final(self).spec_dora() == old(self).spec_dora(),
            final(self).spec_player_wind() == old(self).spec_player_wind(),
    {
        if self.safe_tiles.get(tile) == 0 {
            self.safe_tiles.add(tile, 1);
        }
        proof {
            assert(self.spec_safe() =~= old(self).spec_safe().insert(tile));
        }
    }

    /// The deal is no longer than a count of tiles can say.
    pub closed spec fn wf(&self) -> bool {
        self.initial_tiles@.len() <= isize::MAX
    }

    /// The tally of thirteen tiles for this player, over all faces.
    pub open spec fn spec_tally_of(&self, tiles: Seq<Tile>) -> Tally {
        spec_tally(tiles, self.spec_held(), self.spec_dora_ind(), self.spec_dora(), self.spec_player_wind(), 34)
    }

    /// The value, as a fixed-point number, of keeping thirteen tiles.
    pub open spec fn spec_value(&self, tiles: Seq<Tile>) -> int {
        spec_tally_value(self.spec_tally_of(tiles))
    }

    /// Whether a face completes thirteen tiles, and the highest limit
    /// tier of the hands that it completes them to.
    fn try_wait(&self, hand: &mut Vec<Tile>, wait: Tile) -> (tried: (bool, usize))
        requires
            old(hand)@.len() == 13,
        ensures
            final(hand)@ == old(hand)@,
            tried.0 == spec_waits_for(old(hand)@, wait),
            tried.1 == spec_best_limit(old(hand)@.push(wait).to_multiset(), wait, self.spec_player_wind(), self.spec_dora()),
            tried.1 <= 6,
    {
        let ghost tiles = hand@;
        hand.push(wait);
        let hands = search(hand.as_slice(), wait);
        let max_score = best_limit(&hands, self.player_wind, self.dora);
        hand.pop();
        proof {
            assert(hand@ =~= tiles);
            let all = tiles.push(wait).to_multiset();
            assert forall|h: Hand| spec_wins(all, wait, h) implies #[trigger] spec_hand_limit(h, self.player_wind, self.dora) <= max_score by {
                assert(hands@.contains(h));
                let k = choose|k: int| 0 <= k < hands@.len() && hands@[k] == h;
                assert(spec_hand_limit(hands@[k], self.player_wind, self.dora) <= max_score);
            }
            if max_score != 0 {
                let k = choose|k: int| 0 <= k < hands@.len() && #[trigger] spec_hand_limit(hands@[k], self.player_wind, self.dora) == max_score;
                assert(hands@.contains(hands@[k]));
            }
            lemma_best_limit(all, wait, self.player_wind, self.dora, max_score as int);
            if hands@.len() > 0 {
                assert(hands@.contains(hands@[0]));
            } else {
                assert forall|h: Hand| !spec_wins(all, wait, h) by {
                    if spec_wins(all, wait, h) {
                        assert(hands@.contains(h));
                    }
                }
            }
        }
        (hands.len() > 0, max_score)
    }

    /// The value of keeping thirteen tiles, or nothing where no tile
    /// completes them to a hand with a limit tier above 0.
    pub fn eval_tenpai(&self, tiles: &[Tile]) -> (value: Option<u128>)
        requires
            tiles@.len() == 13,
        ensures
            value is None <==> self.spec_tally_of(tiles@).good == 0,
            value is None ==> self.spec_value(tiles@) == 0,
            value matches Some(v) ==> v == self.spec_value(tiles@),
    {
        let mut hand = vstd::slice::slice_to_vec(tiles);
        let mut all_count: usize = 0;
        let mut good_count: usize = 0;
        let mut weighted: usize = 0;
        let mut i: usize = 0;
        let ghost held = self.spec_held();
        while i < NUM_TILES
            invariant
                i <= NUM_TILES,
                hand@ == tiles@,
                tiles@.len() == 13,
                held == self.spec_held(),
                good_count <= all_count <= 4 * i,
                weighted <= 24 * i,
                spec_tally(tiles@, held, self.spec_dora_ind(), self.spec_dora(), self.spec_player_wind(), i as nat) == (Tally {
                    all: all_count as int,
                    good: good_count as int,
                    weighted: weighted as int,
                }),
            decreases NUM_TILES - i,
        {
            if let Some(wait) = Tile::from_index(i) {
                let (wins, max_score) = self.try_wait(&mut hand, wait);
                let mut count: isize = 4 - self.tile_set.get(wait);
                if wait == self.dora_ind {
                    count = count - 1;
                }
                if count > 0 && wins {
                    all_count = all_count + count as usize;
                    if max_score > 0 {
                        good_count = good_count + count as usize;
                        assert(count * max_score <= 24) by (nonlinear_arith)
                            requires
                                0 < count <= 4,
                                0 < max_score <= 6,
                        ;
                        weighted = weighted + count as usize * max_score;
                    }
                }
            }
            i = i + 1;
        }
        if good_count == 0 {
            return None;
        }
        let none = chance_none(all_count);
        let some: u128 = CHANCE_ONE - none;
        let points: u128 = weighted as u128;
        let good: u128 = good_count as u128;
        let all: u128 = all_count as u128;
        assert(some * points <= CHANCE_ONE * 816) by (nonlinear_arith)
            requires
                some <= CHANCE_ONE,
                points <= 816,
        ;
        assert(some * points * good <= CHANCE_ONE * 816 * 136) by (nonlinear_arith)
            requires
                some * points <= CHANCE_ONE * 816,
                good <= 136,
        ;
        assert(0 < all * all <= 136 * 136) by (nonlinear_arith)
            requires
                0 < all <= 136,
        ;
        Some(some * points * good / (all * all))
    }

    /// The thirteen tiles of highest value among the waiting parts of
    /// the deal, in ascending order; the first such part where several
    /// have the highest value; nothing where no part has a value above 0.
    pub open spec fn spec_best(&self, best: Option<Seq<Tile>>) -> bool {
        let parts = spec_all_tenpai(self.spec_initial().to_multiset());
        match best {
            None => forall|i: int| 0 <= i < parts.len() ==> self.spec_value(sorted_of(#[trigger] parts[i].to_multiset())) <= 0,
            Some(tiles) => exists|i: int|
                {
                    &&& 0 <= i < parts.len()
                    &&& tiles == sorted_of(#[trigger] parts[i].to_multiset())
                    &&& self.spec_value(tiles) > 0
                    &&& forall|j: int| 0 <= j < parts.len() ==> self.spec_value(sorted_of(#[trigger] parts[j].to_multiset())) <= self.spec_value(tiles)
                    &&& forall|j: int| 0 <= j < i ==> self.spec_value(sorted_of(#[trigger] parts[j].to_multiset())) < self.spec_value(tiles)
                },
        }
    }

    /// The waiting part of the deal that is worth most, if any is worth
    /// anything.
    pub fn find_best_tenpai(&self) -> (best: Option<Vec<Tile>>)
        requires
            self.wf(),
        ensures
            self.spec_best(match best { Some(tiles) => Some(tiles@), None => None }),
            best matches Some(tiles) ==> tiles@.len() == 13 && tiles@.to_multiset().subset_of(self.spec_initial().to_multiset()),
    {
        let tenpais = find_all_tenpai(self.initial_tiles.as_slice());
        let ghost parts = spec_all_tenpai(self.spec_initial().to_multiset());
        let mut best: Option<Vec<Tile>> = None;
        let mut best_value: u128 = 0;
        let ghost mut at: int = 0;
        let mut seen: Vec<Vec<Tile>> = Vec::new();
        let mut i: usize = 0;
        while i < tenpais.len()
            invariant
                i <= tenpais@.len(),
                parts == spec_all_tenpai(self.spec_initial().to_multiset()),
                parts_view(tenpais@) == parts,
                forall|k: int| 0 <= k < seen@.len() ==> self.spec_value((#[trigger] seen@[k])@) <= best_value,
                forall|j: int| 0 <= j < i ==> self.spec_value(sorted_of(#[trigger] parts[j].to_multiset())) <= best_value,
                best is None ==> best_value == 0,
                best matches Some(tiles) ==> {
                    &&& 0 <= at < i
                    &&& tiles@ == sorted_of(parts[at].to_multiset())
                    &&& tiles@.len() == 13
                    &&& tiles@.to_multiset() == parts[at].to_multiset()
                    &&& best_value == self.spec_value(tiles@)
                    &&& best_value > 0
                    &&& forall|j: int| 0 <= j < at ==> self.spec_value(sorted_of(#[trigger] parts[j].to_multiset())) < best_value
                },
            decreases tenpais@.len() - i,
        {
            let sorted = sort_tiles(tenpais[i].as_slice());
            proof {
                assert(parts[i as int] == tenpais@[i as int]@);
                lemma_all_tenpai(self.spec_initial().to_multiset(), i as int);
            }
            if !holds_list(&seen, &sorted) {
                let value = self.eval_tenpai(sorted.as_slice());
                seen.push(sorted.clone());
                proof {
                    assert(seen@.last()@ =~= sorted@);
                }
                match value {
                    Some(v) => {
                        if v > best_value {
                            best = Some(sorted);
                            best_value = v;
                            proof {
                                at = i as int;
                            }
                        }
                    },
                    None => {},
                }
            }
            i = i + 1;
        }
        proof {
            if best is Some {
                let tiles = best->0;
                assert(0 <= at < parts.len() && tiles@ == sorted_of(parts[at].to_multiset()));
                lemma_all_tenpai(self.spec_initial().to_multiset(), at);
            }
        }
        best
    }

    /// Chooses the thirteen tiles to keep: the waiting part of the deal
    /// that is worth most, or the first thirteen tiles of the deal where
    /// no part is worth anything. The tiles are taken out of those held,
    /// and the faces that complete them are awaited from now on.
    pub fn choose_hand(&mut self) -> (hand: Vec<Tile>)
        requires
            old(self).wf(),
            old(self).spec_initial().len() >= 13,
            old(self).spec_held() == old(self).spec_initial().to_multiset(),
        ensures
            final(self).wf(),
            hand@.len() == 13,
            old(self).spec_best(None) ==> hand@ == old(self).spec_initial().subrange(0, 13),
            !old(self).spec_best(None) ==> old(self).spec_best(Some(hand@)),
            hand@.to_multiset().subset_of(old(self).spec_held()),
            final(self).spec_held() == old(self).spec_held().sub(hand@.to_multiset()),
            final(self).spec_waits() == old(self).spec_waits().union(Set::new(|wait: Tile| spec_waits_for(hand@, wait))),
            final(self).spec_initial() == old(self).spec_initial(),
            final(self).spec_safe() == old(self).spec_safe(),
            final(self).spec_dora_ind() == old(self).spec_dora_ind(),
            final(self).spec_dora() == old(self).spec_dora(),
            final(self).spec_player_wind() == old(self).spec_player_wind(),
    {
        let hand: Vec<Tile> = match self.find_best_tenpai() {
            Some(hand) => {
                proof {
                    self.lemma_one_best(hand@);
                }
                hand
            },
            None => {
                let first = vstd::slice::slice_to_vec(vstd::slice::slice_subrange(self.initial_tiles.as_slice(), 0, 13));
                proof {
                    broadcast use vstd::seq_lib::group_to_multiset_ensures;
                    assert forall|t: Tile| first@.to_multiset().count(t) <= self.spec_initial().to_multiset().count(t) by {
                        lemma_prefix_count(self.spec_initial(), 13, t);
                    }
                }
                first
            },
        };
        proof {
            assert forall|t: Tile| 0 <= #[trigger] self.tile_set@.count(t) + (-1) * hand@.to_multiset().count(t) <= isize::MAX by {
                assert(hand@.to_multiset().count(t) <= self.tile_set@.count(t));
                self.tile_set.lemma_bounded(t);
            }
        }
        self.tile_set.add_all(hand.as_slice(), -1);
        proof {
            assert(self.tile_set@ =~= old(self).tile_set@.sub(hand@.to_multiset()));
        }
        let waits = find_all_waits(hand.as_slice());
        let ghost wanted = Set::new(|wait: Tile| spec_waits_for(hand@, wait));
        let mut i: usize = 0;
        while i < waits.len()
            invariant
                i <= waits@.len(),
                self.initial_tiles == old(self).initial_tiles,
                self.tile_set == old(self).tile_set || self.tile_set@ == old(self).tile_set@.sub(hand@.to_multiset()),
                self.tile_set@ == old(self).tile_set@.sub(hand@.to_multiset()),
                self.safe_tiles == old(self).safe_tiles,
                self.dora_ind == old(self).dora_ind,
                self.dora == old(self).dora,
                self.player_wind == old(self).player_wind,
                self.initial_tiles@.len() <= isize::MAX,
                forall|t: Tile| self.spec_waits().contains(t) <==> old(self).spec_waits().contains(t) || exists|k: int| 0 <= k < i && waits@[k] == t,
            decreases waits@.len() - i,
        {
            let wait = waits[i];
            let ghost before = self.spec_waits();
            if self.waits.get(wait) == 0 {
                self.waits.add(wait, 1);
            }
            proof {
                assert forall|t: Tile| self.spec_waits().contains(t) <==> before.contains(t) || t == wait by {}
                assert forall|t: Tile| self.spec_waits().contains(t) <==> old(self).spec_waits().contains(t) || exists|k: int| 0 <= k < i + 1 && waits@[k] == t by {
                    if t == wait {
                        assert(waits@[i as int] == t);
                    }
                    if before.contains(t) && !old(self).spec_waits().contains(t) {
                        let k = choose|k: int| 0 <= k < i && waits@[k] == t;
                        assert(0 <= k < i + 1 && waits@[k] == t);
                    }
                }
            }
            i = i + 1;
        }
        proof {
            assert forall|t: Tile| self.spec_waits().contains(t) <==> old(self).spec_waits().union(wanted).contains(t) by {
                assert(waits@.contains(t) <==> spec_waits_for(hand@, t));
                if waits@.contains(t) {
                    let k = choose|k: int| 0 <= k < waits@.len() && waits@[k] == t;
                }
            }
            assert(self.spec_waits() =~= old(self).spec_waits().union(wanted));
        }
        hand
    }

    /// The number of tiles that were dealt.
    pub fn deal_len(&self) -> (len: usize)
        ensures
            len == self.spec_initial().len(),
    {
        self.initial_tiles.len()
    }

    /// Whether the player holds a tile that it has neither kept nor
    /// discarded.
    pub fn has_tiles(&self) -> (any: bool)
        ensures
            any == (self.spec_held().len() > 0),
    {
        let mut i: usize = 0;
        while i < NUM_TILES
            invariant
                i <= NUM_TILES,
                forall|t: Tile| t.index() < i ==> #[trigger] self.tile_set@.count(t) == 0,
            decreases NUM_TILES - i,
        {
            if let Some(tile) = Tile::from_index(i) {
                proof {
                    Tile::index_bijection();
                }
                if self.tile_set.get(tile) > 0 {
                    proof {
                        assert(self.tile_set@.count(tile) <= self.tile_set@.len());
                    }
                    return true;
                }
            }
            i = i + 1;
        }
        proof {
            if self.tile_set@.len() > 0 {
                let some = self.tile_set@.choose();
                assert(self.tile_set@.count(some) > 0);
            }
        }
        false
    }

    /// Chooses the tile to discard and takes it out of the tiles held.
    /// A face that the opponent has discarded comes first: the lowest
    /// such face held. Else the face that is held most often among those
    /// that are not awaited; else, where every face held is awaited, the
    /// face that is held most often. Which of several faces that are held
    /// equally often is taken depends on the random numbers.
    pub fn choose_discard(&mut self) -> (tile: Tile)
        requires
            old(self).spec_held().len() > 0,
        ensures
            old(self).spec_held().count(tile) > 0,
            final(self).spec_held() == old(self).spec_held().remove(tile),
            spec_discard(old(self).spec_held(), old(self).spec_safe(), old(self).spec_waits(), tile),
            final(self).wf() == old(self).wf(),
            final(self).spec_initial() == old(self).spec_initial(),
            final(self).spec_safe() == old(self).spec_safe(),
            final(self).spec_waits() == old(self).spec_waits(),
            final(self).spec_dora_ind() == old(self).spec_dora_ind(),
            final(self).spec_dora() == old(self).spec_dora(),
            final(self).spec_player_wind() == old(self).spec_player_wind(),
    {
        let discard = self.find_discard();
        proof {
            self.tile_set.lemma_bounded(discard);
        }
        self.tile_set.add(discard, -1);
        proof {
            assert(self.tile_set@ =~= old(self).tile_set@.remove(discard));
        }
        discard
    }

    /// The tile to discard.
    fn find_discard(&mut self) -> (tile: Tile)
        requires
            old(self).spec_held().len() > 0,
        ensures
            old(self).spec_held().count(tile) > 0,
            spec_discard(old(self).spec_held(), old(self).spec_safe(), old(self).spec_waits(), tile),
            final(self).initial_tiles == old(self).initial_tiles,
            final(self).tile_set == old(self).tile_set,
            final(self).safe_tiles == old(self).safe_tiles,
            final(self).waits == old(self).waits,
            final(self).dora_ind == old(self).dora_ind,
            final(self).dora == old(self).dora,
            final(self).player_wind == old(self).player_wind,
    {
        // a safe tile, if any
        let mut i: usize = 0;
        while i < NUM_TILES
            invariant
                i <= NUM_TILES,
                *self == *old(self),
                forall|t: Tile| t.index() < i ==> !(#[trigger] self.tile_set@.count(t) > 0 && self.safe_tiles@.count(t) > 0),
            decreases NUM_TILES - i,
        {
            if let Some(tile) = Tile::from_index(i) {
                proof {
                    Tile::index_bijection();
                }
                if self.tile_set.get(tile) > 0 && self.safe_tiles.get(tile) > 0 {
                    proof {
                        let held = self.spec_held();
                        let safe = self.spec_safe();
                        assert(held.count(tile) > 0 && safe.contains(tile));
                        assert forall|t: Tile| held.count(t) > 0 && safe.contains(t) implies tile.index() <= t.index() by {
                            if t.index() < i {
                                assert(!(self.tile_set@.count(t) > 0 && self.safe_tiles@.count(t) > 0));
                            }
                        }
                    }
                    return tile;
                }
            }
            i = i + 1;
        }
        // the faces held, in an order of chance
        let mut held: Vec<Tile> = Vec::new();
        let mut faces = self.tile_set.distinct();
        loop
            invariant
                *self == *old(self),
                faces.tiles() == &self.tile_set,
                0 <= faces.position(),
                forall|t: Tile| t.index() < faces.position() && self.tile_set@.count(t) > 0 ==> held@.contains(t),
                forall|k: int| 0 <= k < held@.len() ==> self.tile_set@.count(#[trigger] held@[k]) > 0,
            ensures
                forall|t: Tile| self.tile_set@.count(t) > 0 ==> held@.contains(t),
                forall|k: int| 0 <= k < held@.len() ==> self.tile_set@.count(#[trigger] held@[k]) > 0,
                *self == *old(self),
            decreases NUM_TILES + 1 - faces.position(),
        {
            let ghost before = held@;
            let ghost from = faces.position();
            match faces.next() {
                Some(tile) => {
                    held.push(tile);
                    proof {
                        assert forall|t: Tile| t.index() < faces.position() && self.tile_set@.count(t) > 0 implies held@.contains(t) by {
                            if t == tile {
                                assert(held@[before.len() as int] == t);
                            } else if t.index() < from {
                                assert(before.contains(t));
                                let k = choose|k: int| 0 <= k < before.len() && before[k] == t;
                                assert(held@[k] == t);
                            } else {
                                assert(Some(t) != Some(tile));
                                assert(self.tile_set@.count(t) == 0);
                            }
                        }
                    }
                },
                None => {
                    break;
                },
            }
        }
        proof {
            let some = self.tile_set@.choose();
            assert(self.tile_set@.count(some) > 0);
            assert(held@.contains(some));
        }
        let ghost plain = held@;
        shuffle(&mut held, &mut self.rng);
        proof {
            broadcast use vstd::seq_lib::group_to_multiset_ensures;
            assert forall|t: Tile| held@.contains(t) <==> plain.contains(t) by {
                assert(held@.contains(t) <==> held@.to_multiset().count(t) > 0);
                assert(plain.contains(t) <==> plain.to_multiset().count(t) > 0);
            }
            assert(held@.len() == held@.to_multiset().len());
            assert(plain.len() == plain.to_multiset().len());
            assert forall|k: int| 0 <= k < held@.len() implies self.tile_set@.count(#[trigger] held@[k]) > 0 by {
                assert(held@.contains(held@[k]));
                assert(plain.contains(held@[k]));
            }
        }
        let tile = pick_discard(&held, &self.tile_set, &self.waits);
        proof {
            assert forall|t: Tile| self.tile_set@.count(t) > 0 implies held@.contains(t) by {
                assert(plain.contains(t));
            }
            self.lemma_picked(held@, tile);
        }
        tile
    }

    /// The tile picked from the faces held, where none of them is safe,
    /// is the tile that a discard is to be.
    proof fn lemma_picked(&self, order: Seq<Tile>, tile: Tile)
        requires
            spec_picked(order, self.tile_set@, self.waits@, tile),
            forall|t: Tile| self.tile_set@.count(t) > 0 ==> order.contains(t),
            forall|k: int| 0 <= k < order.len() ==> self.tile_set@.count(#[trigger] order[k]) > 0,
            forall|t: Tile| !(self.tile_set@.count(t) > 0 && self.safe_tiles@.count(t) > 0),
        ensures
            spec_discard(self.spec_held(), self.spec_safe(), self.spec_waits(), tile),
    {
        let held = self.spec_held();
        let safe = self.spec_safe();
        let waits = self.spec_waits();
        assert(!any_safe(held, safe)) by {
            assert forall|t: Tile| !(#[trigger] held.count(t) > 0 && safe.contains(t)) by {
                assert(!(self.tile_set@.count(t) > 0 && self.safe_tiles@.count(t) > 0));
            }
        }
        if exists|j: int| 0 <= j < order.len() && self.waits@.count(#[trigger] order[j]) == 0 {
            let j = choose|j: int| 0 <= j < order.len() && self.waits@.count(#[trigger] order[j]) == 0;
            assert(any_free(held, waits)) by {
                assert(held.count(order[j]) > 0 && !waits.contains(order[j]));
            }
            lemma_first_most(order, held, self.waits@, true, tile);
            let k = choose|k: int| 0 <= k < order.len() && order[k] == tile;
            assert(held.count(order[k]) > 0);
            assert(most_free(held, waits, tile)) by {
                assert forall|t: Tile| #[trigger] held.count(t) > 0 && !waits.contains(t) implies held.count(t) <= held.count(tile) by {
                    assert(order.contains(t));
                    assert(spec_counts(self.waits@, true, t));
                }
            }
        } else {
            assert(!any_free(held, waits)) by {
                assert forall|t: Tile| !(#[trigger] held.count(t) > 0 && !waits.contains(t)) by {
                    if held.count(t) > 0 {
                        assert(order.contains(t));
                        let k = choose|k: int| 0 <= k < order.len() && order[k] == t;
                        assert(self.waits@.count(order[k]) != 0);
                    }
                }
            }
            lemma_first_most(order, held, self.waits@, false, tile);
            let k = choose|k: int| 0 <= k < order.len() && order[k] == tile;
            assert(held.count(order[k]) > 0);
            assert(most_held(held, tile)) by {
                assert forall|t: Tile| #[trigger] held.count(t) <= held.count(tile) by {
                    if held.count(t) > 0 {
                        assert(order.contains(t));
                        assert(spec_counts(self.waits@, false, t));
                    }
                }
            }
        }
    }

    /// Where a part is the best, no part is worth nothing only.
    proof fn lemma_one_best(&self, tiles: Seq<Tile>)
        requires
            self.spec_best(Some(tiles)),
        ensures
            !self.spec_best(None),
    {
        let parts = spec_all_tenpai(self.spec_initial().to_multiset());
        let i = choose|i: int|
            {
                &&& 0 <= i < parts.len()
                &&& tiles == sorted_of(#[trigger] parts[i].to_multiset())
                &&& self.spec_value(tiles) > 0
                &&& forall|j: int| 0 <= j < parts.len() ==> self.spec_value(sorted_of(#[trigger] parts[j].to_multiset())) <= self.spec_value(tiles)
                &&& forall|j: int| 0 <= j < i ==> self.spec_value(sorted_of(#[trigger] parts[j].to_multiset())) < self.spec_value(tiles)
            };
        assert(self.spec_value(sorted_of(parts[i].to_multiset())) > 0);
    }
}

/// Whether a face counts where only faces that are not awaited count
/// (`free_only`), or where all count.
pub open spec fn spec_counts(waits: Multiset<Tile>, free_only: bool, tile: Tile) -> bool {
    !free_only || waits.count(tile) == 0
}

/// Whether a face is the first in a list among the faces that count and
/// are held most often.
pub open spec fn spec_first_most(order: Seq<Tile>, held: Multiset<Tile>, waits: Multiset<Tile>, free_only: bool, tile: Tile) -> bool {
    exists|at: int|
        {
            &&& 0 <= at < order.len()
            &&& #[trigger] order[at] == tile
            &&& spec_counts(waits, free_only, tile)
            &&& forall|j: int| 0 <= j < order.len() && spec_counts(waits, free_only, #[trigger] order[j]) ==> held.count(order[j]) <= held.count(tile)
            &&& forall|j: int| 0 <= j < at && spec_counts(waits, free_only, #[trigger] order[j]) ==> held.count(order[j]) < held.count(tile)
        }
}

/// The first of the faces that count and are held most often is in the
/// list, counts, and is held as often as any face of the list that counts.
pub proof fn lemma_first_most(order: Seq<Tile>, held: Multiset<Tile>, waits: Multiset<Tile>, free_only: bool, tile: Tile)
    requires
        spec_first_most(order, held, waits, free_only, tile),
    ensures
        order.contains(tile),
        spec_counts(waits, free_only, tile),
        forall|t: Tile| order.contains(t) && spec_counts(waits, free_only, t) ==> held.count(t) <= held.count(tile),
{
    let at = choose|at: int|
        {
            &&& 0 <= at < order.len()
            &&& #[trigger] order[at] == tile
            &&& spec_counts(waits, free_only, tile)
            &&& forall|j: int| 0 <= j < order.len() && spec_counts(waits, free_only, #[trigger] order[j]) ==> held.count(order[j]) <= held.count(tile)
            &&& forall|j: int| 0 <= j < at && spec_counts(waits, free_only, #[trigger] order[j]) ==> held.count(order[j]) < held.count(tile)
        };
    assert forall|t: Tile| order.contains(t) && spec_counts(waits, free_only, t) implies held.count(t) <= held.count(tile) by {
        let k = choose|k: int| 0 <= k < order.len() && order[k] == t;
        assert(spec_counts(waits, free_only, order[k]));
    }
}

/// The tile that `pick_discard` takes from a list of faces in an order:
/// the first of the faces held most often among those that are not
/// awaited, or among all where all are awaited.
pub open spec fn spec_picked(order: Seq<Tile>, held: Multiset<Tile>, waits: Multiset<Tile>, tile: Tile) -> bool {
    if exists|j: int| 0 <= j < order.len() && waits.count(#[trigger] order[j]) == 0 {
        spec_first_most(order, held, waits, true, tile)
    } else {
        spec_first_most(order, held, waits, false, tile)
    }
}

/// The faces held in some order, and from them the tile to discard where
/// none of them is safe.
pub fn pick_discard(order: &Vec<Tile>, held: &TileSet, waits: &TileSet) -> (tile: Tile)
    requires
        order@.len() > 0,
    ensures
        spec_picked(order@, held@, waits@, tile),
{
    match first_most(order, held, waits, true) {
        Some(tile) => {
            proof {
                lemma_first_most(order@, held@, waits@, true, tile);
                let k = choose|k: int| 0 <= k < order@.len() && order@[k] == tile;
                assert(waits@.count(order@[k]) == 0);
            }
            tile
        },
        None => {
            proof {
                assert forall|j: int| 0 <= j < order@.len() implies waits@.count(#[trigger] order@[j]) != 0 by {
                    assert(!spec_counts(waits@, true, order@[j]));
                }
            }
            match first_most(order, held, waits, false) {
                Some(tile) => tile,
                None => {
                    proof {
                        assert(spec_counts(waits@, false, order@[0]));
                    }
                    order[0]
                },
            }
        },
    }
}

/// The first of the faces of a list that are held most often, among
/// those that are not awaited (`free_only`) or among all.
fn first_most(order: &Vec<Tile>, held: &TileSet, waits: &TileSet, free_only: bool) -> (found: Option<Tile>)
    ensures
        found matches Some(tile) ==> spec_first_most(order@, held@, waits@, free_only, tile),
        found is None ==> forall|j: int| 0 <= j < order@.len() ==> !spec_counts(waits@, free_only, #[trigger] order@[j]),
{
    let mut best: Option<Tile> = None;
    let mut best_count: isize = 0;
    let ghost mut at: int = 0;
    let mut i: usize = 0;
    while i < order.len()
        invariant
            i <= order@.len(),
            best is None ==> forall|j: int| 0 <= j < i ==> !spec_counts(waits@, free_only, #[trigger] order@[j]),
            best matches Some(tile) ==> {
                &&& 0 <= at < i
                &&& order@[at] == tile
                &&& spec_counts(waits@, free_only, tile)
                &&& best_count == held@.count(tile)
                &&& forall|j: int| 0 <= j < i && spec_counts(waits@, free_only, #[trigger] order@[j]) ==> held@.count(order@[j]) <= best_count
                &&& forall|j: int| 0 <= j < at && spec_counts(waits@, free_only, #[trigger] order@[j]) ==> held@.count(order@[j]) < best_count
            },
        decreases order@.len() - i,
    {
        let tile = order[i];
        if !free_only || waits.get(tile) == 0 {
            let count = held.get(tile);
            if best.is_none() || count > best_count {
                best = Some(tile);
                best_count = count;
                proof {
                    at = i as int;
                }
            }
        }
        i = i + 1;
    }
    best
}

/// Whether a safe face is held.
pub open spec fn any_safe(held: Multiset<Tile>, safe: Set<Tile>) -> bool {
    exists|t: Tile| #[trigger] held.count(t) > 0 && safe.contains(t)
}

/// Whether a face is held that is not awaited.
pub open spec fn any_free(held: Multiset<Tile>, waits: Set<Tile>) -> bool {
    exists|t: Tile| #[trigger] held.count(t) > 0 && !waits.contains(t)
}

/// Whether a face is the lowest safe face held.
pub open spec fn lowest_safe(held: Multiset<Tile>, safe: Set<Tile>, tile: Tile) -> bool {
    safe.contains(tile) && forall|t: Tile| #[trigger] held.count(t) > 0 && safe.contains(t) ==> tile.index() <= t.index()
}

/// Whether a face is not awaited and held as often as any face that is
/// not awaited.
pub open spec fn most_free(held: Multiset<Tile>, waits: Set<Tile>, tile: Tile) -> bool {
    !waits.contains(tile) && forall|t: Tile| #[trigger] held.count(t) > 0 && !waits.contains(t) ==> held.count(t) <= held.count(tile)
}

/// Whether a face is held as often as any.
pub open spec fn most_held(held: Multiset<Tile>, tile: Tile) -> bool {
    forall|t: Tile| #[trigger] held.count(t) <= held.count(tile)
}

/// What `choose_discard` promises of the tile that it takes, whatever the
/// random numbers: it is held; it is the lowest safe face held, if a safe
/// face is held; else it is held most often among the faces that are not
/// awaited, or among all where all are awaited.
pub open spec fn spec_discard(held: Multiset<Tile>, safe: Set<Tile>, waits: Set<Tile>, tile: Tile) -> bool {
    &&& held.count(tile) > 0
    &&& if any_safe(held, safe) {
        lowest_safe(held, safe, tile)
    } else if any_free(held, waits) {
        most_free(held, waits, tile)
    } else {
        most_held(held, tile)
    }
}

/// Whether a list of tile lists holds a tile list.
fn holds_list(lists: &Vec<Vec<Tile>>, tiles: &Vec<Tile>) -> (found: bool)
    ensures
        found == exists|k: int| 0 <= k < lists@.len() && (#[trigger] lists@[k])@ == tiles@,
{
    let mut i: usize = 0;
    while i < lists.len()
        invariant
            i <= lists@.len(),
            forall|k: int| 0 <= k < i ==> (#[trigger] lists@[k])@ != tiles@,
        decreases lists@.len() - i,
    {
        if same_tiles(&lists[i], tiles) {
            return true;
        }
        i = i + 1;
    }
    false
}

/// Whether two tile lists are the same.
fn same_tiles(a: &Vec<Tile>, b: &Vec<Tile>) -> (same: bool)
    ensures
        same == (a@ == b@),
{
    if a.len() != b.len() {
        return false;
    }
    let mut i: usize = 0;
    while i < a.len()
        invariant
            i <= a@.len(),
            a@.len() == b@.len(),
            forall|k: int| 0 <= k < i ==> a@[k] == b@[k],
        decreases a@.len() - i,
    {
        if a[i] != b[i] {
            return false;
        }
        i = i + 1;
    }
    proof {
        assert(a@ =~= b@);
    }
    true
}

} // verus!
