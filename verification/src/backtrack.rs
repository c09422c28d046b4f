//! Exhaustive search over the ways to take a multiset of tiles apart.

use crate::tiles::{NUM_TILES, Tile, TileSet};
use vstd::multiset::Multiset;
use vstd::prelude::*;

verus! {

/// The parts of a list of tile lists, each as a sequence.
pub open spec fn parts_view(parts: Seq<Vec<Tile>>) -> Seq<Seq<Tile>> {
    Seq::new(parts.len(), |i: int| parts[i]@)
}

/// The order of parts: tile by tile, a part before its extensions.
pub open spec fn part_le(a: Seq<Tile>, b: Seq<Tile>) -> bool
    decreases a.len(),
{
    if a.len() == 0 {
        true
    } else if b.len() == 0 {
        false
    } else if a[0].index() != b[0].index() {
        a[0].index() < b[0].index()
    } else {
        part_le(a.drop_first(), b.drop_first())
    }
}

/// Whether part `a` comes before part `b` or is the same part.
pub fn part_before(a: &Vec<Tile>, b: &Vec<Tile>) -> (le: bool)
    ensures
        le == part_le(a@, b@),
{
    let mut i: usize = 0;
    proof {
        assert(a@.subrange(0, a@.len() as int) =~= a@);
        assert(b@.subrange(0, b@.len() as int) =~= b@);
    }
    while i < a.len() && i < b.len()
        invariant
            i <= a@.len(),
            i <= b@.len(),
            part_le(a@, b@) == part_le(a@.subrange(i as int, a@.len() as int), b@.subrange(i as int, b@.len() as int)),
        decreases a@.len() - i,
    {
        let ghost ra = a@.subrange(i as int, a@.len() as int);
        let ghost rb = b@.subrange(i as int, b@.len() as int);
        if a[i].index() != b[i].index() {
            return a[i].index() < b[i].index();
        }
        proof {
            assert(ra.drop_first() =~= a@.subrange(i + 1, a@.len() as int));
            assert(rb.drop_first() =~= b@.subrange(i + 1, b@.len() as int));
        }
        i = i + 1;
    }
    i == a.len()
}

/// The parts that a rule finds at each face, face after face in ascending
/// order, for the first `n` faces.
pub open spec fn collect(at: spec_fn(Tile) -> Seq<Seq<Tile>>, n: nat) -> Seq<Seq<Tile>>
    decreases n,
{
    if n == 0 {
        Seq::empty()
    } else {
        collect(at, (n - 1) as nat) + at(Tile::of_index(n - 1))
    }
}

/// Three of one face.
pub open spec fn triplet(t: Tile) -> Seq<Tile> {
    seq![t, t, t]
}

/// Three consecutive ranks from `t` on.
pub open spec fn run(t: Tile) -> Seq<Tile> {
    seq![t, t.spec_next(), t.spec_next().spec_next()]
}

/// Two of one face.
pub open spec fn pair(t: Tile) -> Seq<Tile> {
    seq![t, t]
}

/// Whether face `t` and the face `gap` ranks above it are of one numbered
/// suit and both in the multiset.
pub open spec fn has_neighbour(tiles: Multiset<Tile>, t: Tile, gap: int) -> bool {
    t.index() < 27 && t.index() % 9 + gap <= 8 && tiles.count(t) >= 1 && tiles.count(Tile::of_index(t.index() + gap)) >= 1
}

/// Whether the run from `t` on can be taken from the multiset.
pub open spec fn has_run(tiles: Multiset<Tile>, t: Tile) -> bool {
    has_neighbour(tiles, t, 1) && has_neighbour(tiles, t, 2)
}

/// One part where a condition holds, none where it does not.
pub open spec fn when(condition: bool, part: Seq<Tile>) -> Seq<Seq<Tile>> {
    if condition {
        seq![part]
    } else {
        Seq::empty()
    }
}

/// The complete groups that start at face `t`.
pub open spec fn groups_at(tiles: Multiset<Tile>, t: Tile) -> Seq<Seq<Tile>> {
    when(tiles.count(t) >= 3, triplet(t)) + when(has_run(tiles, t), run(t))
}

/// The pair of face `t`, if there is one.
pub open spec fn pairs_at(tiles: Multiset<Tile>, t: Tile) -> Seq<Seq<Tile>> {
    when(tiles.count(t) >= 2, pair(t))
}

/// Face `t` alone, if it is there.
pub open spec fn single_at(tiles: Multiset<Tile>, t: Tile) -> Seq<Seq<Tile>> {
    when(tiles.count(t) >= 1, seq![t])
}

/// The two-tile shapes that start at face `t` and lack one tile of a
/// group: a pair, two neighbours, two tiles one rank apart.
pub open spec fn incomplete_at(tiles: Multiset<Tile>, t: Tile) -> Seq<Seq<Tile>> {
    when(tiles.count(t) >= 2, pair(t)) + when(has_neighbour(tiles, t, 1), seq![t, Tile::of_index(t.index() + 1)])
        + when(has_neighbour(tiles, t, 2), seq![t, Tile::of_index(t.index() + 2)])
}

/// All complete groups that can be taken from a multiset, in ascending order.
pub open spec fn spec_find_groups(tiles: Multiset<Tile>) -> Seq<Seq<Tile>> {
    collect(|t: Tile| groups_at(tiles, t), 34)
}

/// All pairs that can be taken from a multiset, in ascending order.
pub open spec fn spec_find_pairs(tiles: Multiset<Tile>) -> Seq<Seq<Tile>> {
    collect(|t: Tile| pairs_at(tiles, t), 34)
}

/// All single tiles that can be taken from a multiset, in ascending order.
pub open spec fn spec_find_single(tiles: Multiset<Tile>) -> Seq<Seq<Tile>> {
    collect(|t: Tile| single_at(tiles, t), 34)
}

/// All incomplete groups that can be taken from a multiset, in ascending order.
pub open spec fn spec_find_incomplete_groups(tiles: Multiset<Tile>) -> Seq<Seq<Tile>> {
    collect(|t: Tile| incomplete_at(tiles, t), 34)
}

/// The parts of a list that do not come before the last part taken.
pub open spec fn spec_filter(stack: Seq<Seq<Tile>>, parts: Seq<Seq<Tile>>) -> Seq<Seq<Tile>> {
    if stack.len() == 0 {
        parts
    } else {
        parts.filter(|p: Seq<Tile>| part_le(stack.last(), p))
    }
}

/// A list made of two holds what either of them holds.
pub proof fn lemma_concat_contains<A>(a: Seq<A>, b: Seq<A>, x: A)
    ensures
        (a + b).contains(x) <==> a.contains(x) || b.contains(x),
{
    if a.contains(x) {
        let i = choose|i: int| 0 <= i < a.len() && a[i] == x;
        assert((a + b)[i] == x);
    }
    if b.contains(x) {
        let i = choose|i: int| 0 <= i < b.len() && b[i] == x;
        assert((a + b)[a.len() + i] == x);
    }
    if (a + b).contains(x) {
        let i = choose|i: int| 0 <= i < (a + b).len() && (a + b)[i] == x;
        if i < a.len() {
            assert(a[i] == x);
        } else {
            assert(b[i - a.len()] == x);
        }
    }
}

/// What is collected over the first `n` faces is what the rule finds at
/// one of them.
pub proof fn lemma_collect_contains(at: spec_fn(Tile) -> Seq<Seq<Tile>>, n: nat, p: Seq<Tile>)
    ensures
        collect(at, n).contains(p) <==> exists|k: int| 0 <= k < n && #[trigger] at(Tile::of_index(k)).contains(p),
    decreases n,
{
    if n > 0 {
        lemma_collect_contains(at, (n - 1) as nat, p);
        lemma_concat_contains(collect(at, (n - 1) as nat), at(Tile::of_index(n - 1)), p);
        if collect(at, n).contains(p) {
            if collect(at, (n - 1) as nat).contains(p) {
                let k = choose|k: int| 0 <= k < n - 1 && #[trigger] at(Tile::of_index(k)).contains(p);
                assert(0 <= k < n && at(Tile::of_index(k)).contains(p));
            } else {
                assert(at(Tile::of_index(n - 1)).contains(p));
            }
        }
        if exists|k: int| 0 <= k < n && #[trigger] at(Tile::of_index(k)).contains(p) {
            let k = choose|k: int| 0 <= k < n && #[trigger] at(Tile::of_index(k)).contains(p);
            if k < n - 1 {
                assert(collect(at, (n - 1) as nat).contains(p));
            }
        }
    }
}

/// The groups found are the triplets and runs that the multiset holds.
pub proof fn lemma_find_groups(tiles: Multiset<Tile>, p: Seq<Tile>)
    ensures
        spec_find_groups(tiles).contains(p) <==> (exists|t: Tile| tiles.count(t) >= 3 && p == #[trigger] triplet(t)) || (exists|t: Tile| has_run(tiles, t) && p == #[trigger] run(t)),
{
    let at = |t: Tile| groups_at(tiles, t);
    lemma_collect_contains(at, 34, p);
    Tile::index_bijection();
    if spec_find_groups(tiles).contains(p) {
        let k = choose|k: int| 0 <= k < 34 && #[trigger] at(Tile::of_index(k)).contains(p);
        let t = Tile::of_index(k);
        lemma_concat_contains(when(tiles.count(t) >= 3, triplet(t)), when(has_run(tiles, t), run(t)), p);
        if when(tiles.count(t) >= 3, triplet(t)).contains(p) {
            assert(tiles.count(t) >= 3 && p == triplet(t));
        } else {
            assert(has_run(tiles, t) && p == run(t));
        }
    }
    if exists|t: Tile| tiles.count(t) >= 3 && p == #[trigger] triplet(t) {
        let t = choose|t: Tile| tiles.count(t) >= 3 && p == #[trigger] triplet(t);
        lemma_concat_contains(when(tiles.count(t) >= 3, triplet(t)), when(has_run(tiles, t), run(t)), p);
        assert(when(tiles.count(t) >= 3, triplet(t))[0] == p);
        assert(at(Tile::of_index(t.index() as int)).contains(p));
    }
    if exists|t: Tile| has_run(tiles, t) && p == #[trigger] run(t) {
        let t = choose|t: Tile| has_run(tiles, t) && p == #[trigger] run(t);
        lemma_concat_contains(when(tiles.count(t) >= 3, triplet(t)), when(has_run(tiles, t), run(t)), p);
        assert(when(has_run(tiles, t), run(t))[0] == p);
        assert(at(Tile::of_index(t.index() as int)).contains(p));
    }
}

/// The pairs found are the pairs that the multiset holds.
pub proof fn lemma_find_pairs(tiles: Multiset<Tile>, p: Seq<Tile>)
    ensures
        spec_find_pairs(tiles).contains(p) <==> exists|t: Tile| tiles.count(t) >= 2 && p == #[trigger] pair(t),
{
    let at = |t: Tile| pairs_at(tiles, t);
    lemma_collect_contains(at, 34, p);
    Tile::index_bijection();
    if spec_find_pairs(tiles).contains(p) {
        let k = choose|k: int| 0 <= k < 34 && #[trigger] at(Tile::of_index(k)).contains(p);
        let t = Tile::of_index(k);
        assert(tiles.count(t) >= 2 && p == pair(t));
    }
    if exists|t: Tile| tiles.count(t) >= 2 && p == #[trigger] pair(t) {
        let t = choose|t: Tile| tiles.count(t) >= 2 && p == #[trigger] pair(t);
        assert(when(tiles.count(t) >= 2, pair(t))[0] == p);
        assert(at(Tile::of_index(t.index() as int)).contains(p));
    }
}

/// How often a face occurs in a part of one tile and of two tiles.
pub proof fn lemma_small_counts(a: Tile, b: Tile, x: Tile)
    ensures
        seq![a].to_multiset().count(x) == (if x == a { 1nat } else { 0 }),
        seq![a, b].to_multiset().count(x) == (if x == a { 1nat } else { 0 }) + (if x == b { 1nat } else { 0 }),
        seq![a].to_multiset().len() == 1,
        seq![a, b].to_multiset().len() == 2,
{
    broadcast use vstd::seq_lib::group_to_multiset_ensures;
    let e = Seq::<Tile>::empty();
    assert(seq![a] =~= e.push(a));
    assert(seq![a, b] =~= e.push(a).push(b));
    assert(e.to_multiset().count(x) <= e.to_multiset().len());
}

/// Each single tile that is found is a part of one tile among the tiles.
pub proof fn lemma_single_fits(tiles: Multiset<Tile>, p: Seq<Tile>)
    requires
        spec_find_single(tiles).contains(p),
    ensures
        p.len() == 1,
        p.to_multiset().subset_of(tiles),
        tiles.sub(p.to_multiset()).len() == tiles.len() - 1,
{
    let at = |t: Tile| single_at(tiles, t);
    lemma_collect_contains(at, 34, p);
    let k = choose|k: int| 0 <= k < 34 && #[trigger] at(Tile::of_index(k)).contains(p);
    let t = Tile::of_index(k);
    assert(tiles.count(t) >= 1 && p == seq![t]);
    assert forall|x: Tile| p.to_multiset().count(x) <= tiles.count(x) by {
        lemma_small_counts(t, t, x);
    }
    lemma_small_counts(t, t, t);
}

/// Each pair that is found is a part of two tiles among the tiles.
pub proof fn lemma_pair_fits(tiles: Multiset<Tile>, p: Seq<Tile>)
    requires
        spec_find_pairs(tiles).contains(p),
    ensures
        p.len() == 2,
        p.to_multiset().subset_of(tiles),
        tiles.sub(p.to_multiset()).len() == tiles.len() - 2,
{
    lemma_find_pairs(tiles, p);
    let t = choose|t: Tile| tiles.count(t) >= 2 && p == #[trigger] pair(t);
    assert forall|x: Tile| p.to_multiset().count(x) <= tiles.count(x) by {
        lemma_small_counts(t, t, x);
    }
    lemma_small_counts(t, t, t);
}

/// Each incomplete group that is found is a part of two tiles among the tiles.
pub proof fn lemma_incomplete_fits(tiles: Multiset<Tile>, p: Seq<Tile>)
    requires
        spec_find_incomplete_groups(tiles).contains(p),
    ensures
        p.len() == 2,
        p.to_multiset().subset_of(tiles),
        tiles.sub(p.to_multiset()).len() == tiles.len() - 2,
{
    let at = |t: Tile| incomplete_at(tiles, t);
    lemma_collect_contains(at, 34, p);
    Tile::index_bijection();
    let k = choose|k: int| 0 <= k < 34 && #[trigger] at(Tile::of_index(k)).contains(p);
    let t = Tile::of_index(k);
    let a = when(tiles.count(t) >= 2, pair(t));
    let b = when(has_neighbour(tiles, t, 1), seq![t, Tile::of_index(t.index() + 1)]);
    let c = when(has_neighbour(tiles, t, 2), seq![t, Tile::of_index(t.index() + 2)]);
    lemma_concat_contains(a + b, c, p);
    lemma_concat_contains(a, b, p);
    let second = p[1];
    assert(p =~= seq![t, second]);
    assert forall|x: Tile| p.to_multiset().count(x) <= tiles.count(x) by {
        lemma_small_counts(t, second, x);
    }
    lemma_small_counts(t, second, t);
}

/// Each group that is found is a part of three tiles among the tiles.
pub proof fn lemma_group_fits(tiles: Multiset<Tile>, p: Seq<Tile>)
    requires
        spec_find_groups(tiles).contains(p),
    ensures
        p.len() == 3,
        p.to_multiset().subset_of(tiles),
        tiles.sub(p.to_multiset()).len() == tiles.len() - 3,
{
    broadcast use vstd::seq_lib::group_to_multiset_ensures;
    lemma_find_groups(tiles, p);
    Tile::index_bijection();
    let e = Seq::<Tile>::empty();
    assert(e.to_multiset() =~= Multiset::<Tile>::empty());
    if exists|t: Tile| tiles.count(t) >= 3 && p == #[trigger] triplet(t) {
        let t = choose|t: Tile| tiles.count(t) >= 3 && p == #[trigger] triplet(t);
        assert(p =~= e.push(t).push(t).push(t));
        assert forall|x: Tile| p.to_multiset().count(x) <= tiles.count(x) by {}
    } else {
        let t = choose|t: Tile| has_run(tiles, t) && p == #[trigger] run(t);
        assert(p =~= e.push(t).push(t.spec_next()).push(t.spec_next().spec_next()));
        assert forall|x: Tile| p.to_multiset().count(x) <= tiles.count(x) by {}
    }
}

/// How often a face occurs in a part of three tiles.
pub proof fn lemma_three_counts(a: Tile, b: Tile, c: Tile, x: Tile)
    ensures
        seq![a, b, c].to_multiset().count(x) == (if x == a { 1nat } else { 0 }) + (if x == b { 1nat } else { 0 }) + (if x == c { 1nat } else { 0 }),
        seq![a, b, c].to_multiset().len() == 3,
{
    broadcast use vstd::seq_lib::group_to_multiset_ensures;
    let e = Seq::<Tile>::empty();
    assert(seq![a, b, c] =~= e.push(a).push(b).push(c));
    assert(e.to_multiset().count(x) <= e.to_multiset().len());
}

/// The kinds of parts that the search takes.
pub enum PartKind {
    Group,
    Pair,
    Single,
    Incomplete,
}

/// All parts of a kind that can be taken from a multiset, in ascending order.
pub open spec fn spec_kind_parts(kind: PartKind, tiles: Multiset<Tile>) -> Seq<Seq<Tile>> {
    match kind {
        PartKind::Group => spec_find_groups(tiles),
        PartKind::Pair => spec_find_pairs(tiles),
        PartKind::Single => spec_find_single(tiles),
        PartKind::Incomplete => spec_find_incomplete_groups(tiles),
    }
}

/// Whether face `t` and the face `gap` ranks above it are of one numbered suit.
pub open spec fn neighbours(t: Tile, gap: int) -> bool {
    t.index() < 27 && t.index() % 9 + gap <= 8
}

/// Whether a list of tiles is a part of a kind: a triplet or a run; a
/// pair; one tile; a pair or two tiles of one numbered suit that are one
/// or two ranks apart.
pub open spec fn is_kind(kind: PartKind, part: Seq<Tile>) -> bool {
    match kind {
        PartKind::Group => part == triplet(part[0]) || (neighbours(part[0], 2) && part == run(part[0])),
        PartKind::Pair => part == pair(part[0]),
        PartKind::Single => part == seq![part[0]],
        PartKind::Incomplete => part == pair(part[0]) || (neighbours(part[0], 1) && part == seq![part[0], Tile::of_index(part[0].index() + 1)])
            || (neighbours(part[0], 2) && part == seq![part[0], Tile::of_index(part[0].index() + 2)]),
    }
}

/// The groups found are the groups among the tiles.
proof fn lemma_kind_group(tiles: Multiset<Tile>, part: Seq<Tile>)
    ensures
        spec_kind_parts(PartKind::Group, tiles).contains(part) <==> is_kind(PartKind::Group, part) && part.to_multiset().subset_of(tiles),
{
    Tile::index_bijection();
    let kind = PartKind::Group;
    let t = part[0];
    let up1 = Tile::of_index(t.index() + 1);
    let up2 = Tile::of_index(t.index() + 2);
    lemma_find_groups(tiles, part);
    if spec_find_groups(tiles).contains(part) {
        lemma_group_fits(tiles, part);
        if exists|f: Tile| tiles.count(f) >= 3 && part == #[trigger] triplet(f) {
            let f = choose|f: Tile| tiles.count(f) >= 3 && part == #[trigger] triplet(f);
            assert(triplet(f)[0] == f);
        } else {
            let f = choose|f: Tile| has_run(tiles, f) && part == #[trigger] run(f);
            assert(run(f)[0] == f);
        }
    }
    if is_kind(kind, part) && part.to_multiset().subset_of(tiles) {
        if part == triplet(t) {
            lemma_three_counts(t, t, t, t);
            assert(part.to_multiset().count(t) <= tiles.count(t));
        } else {
            assert(t.spec_next() == up1 && t.spec_next().spec_next() == up2);
            lemma_three_counts(t, up1, up2, t);
            lemma_three_counts(t, up1, up2, up1);
            lemma_three_counts(t, up1, up2, up2);
            assert(part.to_multiset().count(t) <= tiles.count(t));
            assert(part.to_multiset().count(up1) <= tiles.count(up1));
            assert(part.to_multiset().count(up2) <= tiles.count(up2));
            assert(has_run(tiles, t));
        }
    }
}

/// The pairs found are the pairs among the tiles.
proof fn lemma_kind_pair(tiles: Multiset<Tile>, part: Seq<Tile>)
    ensures
        spec_kind_parts(PartKind::Pair, tiles).contains(part) <==> is_kind(PartKind::Pair, part) && part.to_multiset().subset_of(tiles),
{
    Tile::index_bijection();
    let kind = PartKind::Pair;
    let t = part[0];
    let up1 = Tile::of_index(t.index() + 1);
    let up2 = Tile::of_index(t.index() + 2);
    lemma_find_pairs(tiles, part);
    if spec_find_pairs(tiles).contains(part) {
        lemma_pair_fits(tiles, part);
        let f = choose|f: Tile| tiles.count(f) >= 2 && part == #[trigger] pair(f);
        assert(pair(f)[0] == f);
    }
    if is_kind(kind, part) && part.to_multiset().subset_of(tiles) {
        lemma_small_counts(t, t, t);
        assert(part.to_multiset().count(t) <= tiles.count(t));
    }
}

/// The single tiles found are the tiles.
proof fn lemma_kind_single(tiles: Multiset<Tile>, part: Seq<Tile>)
    ensures
        spec_kind_parts(PartKind::Single, tiles).contains(part) <==> is_kind(PartKind::Single, part) && part.to_multiset().subset_of(tiles),
{
    Tile::index_bijection();
    let kind = PartKind::Single;
    let t = part[0];
    let up1 = Tile::of_index(t.index() + 1);
    let up2 = Tile::of_index(t.index() + 2);
    let at = |f: Tile| single_at(tiles, f);
    lemma_collect_contains(at, 34, part);
    if spec_find_single(tiles).contains(part) {
        lemma_single_fits(tiles, part);
        let k = choose|k: int| 0 <= k < 34 && #[trigger] at(Tile::of_index(k)).contains(part);
        assert(part == seq![Tile::of_index(k)]);
        assert(seq![Tile::of_index(k)][0] == Tile::of_index(k));
    }
    if is_kind(kind, part) && part.to_multiset().subset_of(tiles) {
        lemma_small_counts(t, t, t);
        assert(part.to_multiset().count(t) <= tiles.count(t));
        assert(when(tiles.count(t) >= 1, seq![t])[0] == part);
        assert(at(Tile::of_index(t.index() as int)).contains(part));
    }
}

/// The incomplete groups found are the incomplete groups among the tiles.
proof fn lemma_kind_incomplete(tiles: Multiset<Tile>, part: Seq<Tile>)
    ensures
        spec_kind_parts(PartKind::Incomplete, tiles).contains(part) <==> is_kind(PartKind::Incomplete, part) && part.to_multiset().subset_of(tiles),
{
    Tile::index_bijection();
    let kind = PartKind::Incomplete;
    let t = part[0];
    let up1 = Tile::of_index(t.index() + 1);
    let up2 = Tile::of_index(t.index() + 2);
    let at = |f: Tile| incomplete_at(tiles, f);
    lemma_collect_contains(at, 34, part);
    if spec_find_incomplete_groups(tiles).contains(part) {
        lemma_incomplete_fits(tiles, part);
        let k = choose|k: int| 0 <= k < 34 && #[trigger] at(Tile::of_index(k)).contains(part);
        let f = Tile::of_index(k);
        let a = when(tiles.count(f) >= 2, pair(f));
        let b = when(has_neighbour(tiles, f, 1), seq![f, Tile::of_index(f.index() + 1)]);
        let c = when(has_neighbour(tiles, f, 2), seq![f, Tile::of_index(f.index() + 2)]);
        lemma_concat_contains(a + b, c, part);
        lemma_concat_contains(a, b, part);
        assert(part[0] == f);
    }
    if is_kind(kind, part) && part.to_multiset().subset_of(tiles) {
        let a = when(tiles.count(t) >= 2, pair(t));
        let b = when(has_neighbour(tiles, t, 1), seq![t, up1]);
        let c = when(has_neighbour(tiles, t, 2), seq![t, up2]);
        lemma_concat_contains(a + b, c, part);
        lemma_concat_contains(a, b, part);
        let second = part[1];
        assert(part =~= seq![t, second]);
        lemma_small_counts(t, second, t);
        lemma_small_counts(t, second, second);
        assert(part.to_multiset().count(t) <= tiles.count(t));
        assert(part.to_multiset().count(second) <= tiles.count(second));
        if part == pair(t) {
            assert(a[0] == part);
        } else if neighbours(t, 1) && part == seq![t, up1] {
            assert(b[0] == part);
        } else {
            assert(c[0] == part);
        }
        assert(at(Tile::of_index(t.index() as int)).contains(part));
    }
}

/// The parts of a kind that are found in a multiset are the parts of the
/// kind whose tiles are among those of the multiset.
pub proof fn lemma_kind_parts(kind: PartKind, tiles: Multiset<Tile>, part: Seq<Tile>)
    ensures
        spec_kind_parts(kind, tiles).contains(part) <==> is_kind(kind, part) && part.to_multiset().subset_of(tiles),
        is_kind(kind, part) ==> 1 <= part.len() <= 3,
        is_kind(kind, part) && part.to_multiset().subset_of(tiles) ==> tiles.sub(part.to_multiset()).len() == tiles.len() - part.len(),
{
    match kind {
        PartKind::Group => lemma_kind_group(tiles, part),
        PartKind::Pair => lemma_kind_pair(tiles, part),
        PartKind::Single => lemma_kind_single(tiles, part),
        PartKind::Incomplete => lemma_kind_incomplete(tiles, part),
    }
    if is_kind(kind, part) && part.to_multiset().subset_of(tiles) {
        broadcast use vstd::seq_lib::group_to_multiset_ensures;
        assert(part.to_multiset().len() == part.len());
    }
}

/// What the filter keeps.
pub proof fn lemma_filter(stack: Seq<Seq<Tile>>, parts: Seq<Seq<Tile>>, p: Seq<Tile>)
    ensures
        spec_filter(stack, parts).contains(p) <==> parts.contains(p) && (stack.len() == 0 || part_le(stack.last(), p)),
{
    if stack.len() > 0 {
        let keep = |q: Seq<Tile>| part_le(stack.last(), q);
        if parts.filter(keep).contains(p) {
            parts.lemma_filter_contains_rev(keep, p);
            let i = choose|i: int| 0 <= i < parts.filter(keep).len() && parts.filter(keep)[i] == p;
            parts.lemma_filter_pred(keep, i);
        }
        if parts.contains(p) && keep(p) {
            let i = choose|i: int| 0 <= i < parts.len() && parts[i] == p;
            parts.lemma_filter_contains(keep, i);
        }
    }
}

/// What is collected holds no part twice, where the rule finds no part
/// twice at a face and each part that it finds there starts with the face.
pub proof fn lemma_collect_distinct(at: spec_fn(Tile) -> Seq<Seq<Tile>>, n: nat)
    requires
        n <= 34,
        forall|k: int| 0 <= k < 34 ==> (#[trigger] at(Tile::of_index(k))).no_duplicates(),
        forall|k: int, i: int| 0 <= k < 34 && 0 <= i < at(Tile::of_index(k)).len() ==> (#[trigger] at(Tile::of_index(k))[i]).len() > 0 && at(Tile::of_index(k))[i][0] == Tile::of_index(k),
    ensures
        collect(at, n).no_duplicates(),
        forall|i: int| 0 <= i < collect(at, n).len() ==> (#[trigger] collect(at, n)[i]).len() > 0 && collect(at, n)[i][0].index() < n,
    decreases n,
{
    if n > 0 {
        lemma_collect_distinct(at, (n - 1) as nat);
        Tile::index_bijection();
        let before = collect(at, (n - 1) as nat);
        let here = at(Tile::of_index(n - 1));
        assert forall|i: int, j: int| 0 <= i < before.len() && 0 <= j < here.len() implies before[i] != here[j] by {
            assert(before[i][0].index() < n - 1);
            assert(here[j][0] == Tile::of_index(n - 1));
        }
        vstd::seq_lib::lemma_no_dup_in_concat(before, here);
        assert forall|i: int| 0 <= i < collect(at, n).len() implies (#[trigger] collect(at, n)[i]).len() > 0 && collect(at, n)[i][0].index() < n by {
            if i < before.len() {
                assert(collect(at, n)[i] == before[i]);
            } else {
                assert(collect(at, n)[i] == here[i - before.len()]);
            }
        }
    }
}

/// No group and no pair is found twice.
pub proof fn lemma_found_distinct(tiles: Multiset<Tile>)
    ensures
        spec_find_groups(tiles).no_duplicates(),
        spec_find_pairs(tiles).no_duplicates(),
{
    Tile::index_bijection();
    let groups = |t: Tile| groups_at(tiles, t);
    assert forall|k: int| 0 <= k < 34 implies (#[trigger] groups(Tile::of_index(k))).no_duplicates() by {
        let t = Tile::of_index(k);
        if tiles.count(t) >= 3 && has_run(tiles, t) {
            assert(triplet(t)[1] != run(t)[1]);
        }
    }
    lemma_collect_distinct(groups, 34);
    let pairs = |t: Tile| pairs_at(tiles, t);
    lemma_collect_distinct(pairs, 34);
}

/// What is kept of a list that holds nothing twice holds nothing twice.
pub proof fn lemma_filter_distinct<A>(s: Seq<A>, keep: spec_fn(A) -> bool)
    requires
        s.no_duplicates(),
    ensures
        s.filter(keep).no_duplicates(),
    decreases s.len(),
{
    reveal(Seq::filter);
    if s.len() > 0 {
        let rest = s.drop_last();
        lemma_filter_distinct(rest, keep);
        if keep(s.last()) {
            let kept = rest.filter(keep);
            assert forall|i: int, j: int| 0 <= i < kept.len() && 0 <= j < 1 implies kept[i] != seq![s.last()][j] by {
                if kept[i] == s.last() {
                    assert(kept.contains(s.last()));
                    rest.lemma_filter_contains_rev(keep, s.last());
                    let k = choose|k: int| 0 <= k < rest.len() && rest[k] == s.last();
                    assert(s[k] == s[s.len() - 1]);
                }
            }
            vstd::seq_lib::lemma_no_dup_in_concat(kept, seq![s.last()]);
            assert(s.filter(keep) =~= kept + seq![s.last()]);
        }
    }
}

/// The state of a search: the tiles not yet taken, the parts taken so far,
/// and the number of tiles still to take.
pub struct Backtrack {
    pub tiles: TileSet,
    pub stack: Vec<Vec<Tile>>,
    pub remaining: usize,
}

/// Appends a part of one, two or three tiles to a list of parts.
fn push_part(parts: &mut Vec<Vec<Tile>>, tiles: &[Tile])
    requires
        tiles@.len() <= 3,
    ensures
        parts_view(final(parts)@) == parts_view(old(parts)@).push(tiles@),
{
    let mut part: Vec<Tile> = Vec::new();
    let mut i: usize = 0;
    while i < tiles.len()
        invariant
            i <= tiles@.len(),
            part@ == tiles@.subrange(0, i as int),
        decreases tiles@.len() - i,
    {
        part.push(tiles[i]);
        proof {
            assert(part@ =~= tiles@.subrange(0, i + 1));
        }
        i = i + 1;
    }
    proof {
        assert(tiles@.subrange(0, i as int) =~= tiles@);
    }
    parts.push(part);
    proof {
        assert(parts_view(parts@) =~= parts_view(old(parts)@).push(tiles@));
    }
}

impl Backtrack {
    /// The parts taken so far, each as a sequence.
    pub open spec fn spec_stack(&self) -> Seq<Seq<Tile>> {
        parts_view(self.stack@)
    }

    /// A search that has `remaining` tiles to take from the given tiles.
    pub fn from_tiles(tiles: &[Tile], remaining: usize) -> (bt: Backtrack)
        requires
            tiles@.len() <= isize::MAX,
        ensures
            bt.tiles@ == tiles@.to_multiset(),
            bt.spec_stack() == Seq::<Seq<Tile>>::empty(),
            bt.remaining == remaining,
    {
        let bt = Backtrack { tiles: TileSet::make(tiles), stack: Vec::new(), remaining };
        proof {
            assert(bt.spec_stack() =~= Seq::<Seq<Tile>>::empty());
        }
        bt
    }

    /// The triplets and runs that the remaining tiles hold, in ascending order.
    pub fn find_groups(&self) -> (parts: Vec<Vec<Tile>>)
        ensures
            parts_view(parts@) == spec_find_groups(self.tiles@),
    {
        let mut result: Vec<Vec<Tile>> = Vec::new();
        let ghost at = |t: Tile| groups_at(self.tiles@, t);
        let mut i: usize = 0;
        proof {
            assert(parts_view(result@) =~= collect(at, 0));
        }
        while i < NUM_TILES
            invariant
                i <= NUM_TILES,
                at == |t: Tile| groups_at(self.tiles@, t),
                parts_view(result@) == collect(at, i as nat),
            decreases NUM_TILES - i,
        {
            let ghost before = parts_view(result@);
            if let Some(t) = Tile::from_index(i) {
                proof {
                    Tile::index_bijection();
                }
                if self.tiles.get(t) >= 3 {
                    push_part(&mut result, &[t, t, t]);
                }
                if self.tiles.get(t) >= 1 && t.has_next() && t.next().has_next() {
                    let t2 = t.next();
                    let t3 = t2.next();
                    if self.tiles.get(t2) >= 1 && self.tiles.get(t3) >= 1 {
                        push_part(&mut result, &[t, t2, t3]);
                    }
                }
                proof {
                    assert([t, t, t]@ =~= triplet(t));
                    assert(t.spec_has_next() && t.spec_next().spec_has_next() ==> [t, t.spec_next(), t.spec_next().spec_next()]@ =~= run(t));
                    assert(parts_view(result@) =~= before + at(t));
                }
            }
            i = i + 1;
        }
        result
    }

    /// The pairs that the remaining tiles hold, in ascending order.
    pub fn find_pairs(&self) -> (parts: Vec<Vec<Tile>>)
        ensures
            parts_view(parts@) == spec_find_pairs(self.tiles@),
    {
        let mut result: Vec<Vec<Tile>> = Vec::new();
        let ghost at = |t: Tile| pairs_at(self.tiles@, t);
        let mut i: usize = 0;
        proof {
            assert(parts_view(result@) =~= collect(at, 0));
        }
        while i < NUM_TILES
            invariant
                i <= NUM_TILES,
                at == |t: Tile| pairs_at(self.tiles@, t),
                parts_view(result@) == collect(at, i as nat),
            decreases NUM_TILES - i,
        {
            let ghost before = parts_view(result@);
            if let Some(t) = Tile::from_index(i) {
                if self.tiles.get(t) >= 2 {
                    push_part(&mut result, &[t, t]);
                }
                proof {
                    assert([t, t]@ =~= pair(t));
                    assert(parts_view(result@) =~= before + at(t));
                }
            }
            i = i + 1;
        }
        result
    }

    /// The faces that the remaining tiles hold, each as a part of one tile,
    /// in ascending order.
    pub fn find_single(&self) -> (parts: Vec<Vec<Tile>>)
        ensures
            parts_view(parts@) == spec_find_single(self.tiles@),
    {
        let mut result: Vec<Vec<Tile>> = Vec::new();
        let ghost at = |t: Tile| single_at(self.tiles@, t);
        let mut i: usize = 0;
        proof {
            assert(parts_view(result@) =~= collect(at, 0));
        }
        while i < NUM_TILES
            invariant
                i <= NUM_TILES,
                at == |t: Tile| single_at(self.tiles@, t),
                parts_view(result@) == collect(at, i as nat),
            decreases NUM_TILES - i,
        {
            let ghost before = parts_view(result@);
            if let Some(t) = Tile::from_index(i) {
                if self.tiles.get(t) >= 1 {
                    push_part(&mut result, &[t]);
                }
                proof {
                    assert([t]@ =~= seq![t]);
                    assert(parts_view(result@) =~= before + at(t));
                }
            }
            i = i + 1;
        }
        result
    }

    /// The two-tile shapes that lack one tile of a group, in ascending order.
    pub fn find_incomplete_groups(&self) -> (parts: Vec<Vec<Tile>>)
        ensures
            parts_view(parts@) == spec_find_incomplete_groups(self.tiles@),
    {
        let mut result: Vec<Vec<Tile>> = Vec::new();
        let ghost at = |t: Tile| incomplete_at(self.tiles@, t);
        let mut i: usize = 0;
        proof {
            assert(parts_view(result@) =~= collect(at, 0));
        }
        while i < NUM_TILES
            invariant
                i <= NUM_TILES,
                at == |t: Tile| incomplete_at(self.tiles@, t),
                parts_view(result@) == collect(at, i as nat),
            decreases NUM_TILES - i,
        {
            let ghost before = parts_view(result@);
            if let Some(t) = Tile::from_index(i) {
                proof {
                    Tile::index_bijection();
                }
                if self.tiles.get(t) >= 2 {
                    push_part(&mut result, &[t, t]);
                }
                if self.tiles.get(t) >= 1 && t.has_next() {
                    let t2 = t.next();
                    if self.tiles.get(t2) >= 1 {
                        push_part(&mut result, &[t, t2]);
                    }
                    if t2.has_next() {
                        let t3 = t2.next();
                        if self.tiles.get(t3) >= 1 {
                            push_part(&mut result, &[t, t3]);
                        }
                    }
                }
                proof {
                    assert([t, t]@ =~= pair(t));
                    assert(t.spec_has_next() ==> [t, t.spec_next()]@ =~= seq![t, Tile::of_index(t.index() + 1)]);
                    assert(t.spec_has_next() && t.spec_next().spec_has_next() ==> [t, t.spec_next().spec_next()]@ =~= seq![t, Tile::of_index(t.index() + 2)]);
                    assert(parts_view(result@) =~= before + at(t));
                }
            }
            i = i + 1;
        }
        result
    }

    /// Keeps the parts that do not come before the part taken last, so
    /// that parts are only ever taken in ascending order.
    pub fn filter(&self, parts: Vec<Vec<Tile>>) -> (kept: Vec<Vec<Tile>>)
        ensures
            parts_view(kept@) == spec_filter(self.spec_stack(), parts_view(parts@)),
    {
        if self.stack.len() == 0 {
            return parts;
        }
        let last_part = &self.stack[self.stack.len() - 1];
        let ghost keep = |p: Seq<Tile>| part_le(self.spec_stack().last(), p);
        let mut kept: Vec<Vec<Tile>> = Vec::new();
        let mut parts = parts;
        let ghost all = parts_view(parts@);
        let n: usize = parts.len();
        let mut rest: Vec<Vec<Tile>> = Vec::new();
        // walk the parts from the back, so that each can be moved out
        while parts.len() > 0
            invariant
                parts@.len() <= n,
                all.len() == n,
                keep == |p: Seq<Tile>| part_le(self.spec_stack().last(), p),
                self.stack@.len() > 0,
                *last_part == self.stack@.last(),
                parts_view(parts@) == all.subrange(0, parts@.len() as int),
                parts_view(rest@).reverse() == all.subrange(parts@.len() as int, n as int).filter(keep),
            decreases parts@.len(),
        {
            let ghost m = parts@.len() as int;
            let ghost tail = all.subrange(m, n as int);
            let ghost whole = parts@;
            let part = parts.pop().unwrap();
            proof {
                assert(parts_view(whole)[m - 1] == all.subrange(0, m)[m - 1]);
                assert(part@ == all[m - 1]);
                assert(parts_view(parts@) =~= all.subrange(0, m - 1));
                let longer = all.subrange(m - 1, n as int);
                assert(longer =~= seq![all[m - 1]] + tail);
                tail.lemma_filter_prepend(all[m - 1], keep);
                assert(self.spec_stack().last() == last_part@);
            }
            if part_before(last_part, &part) {
                let ghost before = parts_view(rest@);
                rest.push(part);
                proof {
                    assert(parts_view(rest@) =~= before.push(all[m - 1]));
                    assert(parts_view(rest@).reverse() =~= seq![all[m - 1]] + before.reverse());
                }
            }
        }
        proof {
            assert(all.subrange(0, n as int) =~= all);
        }
        while rest.len() > 0
            invariant
                parts_view(kept@) + parts_view(rest@).reverse() == all.filter(keep),
            decreases rest@.len(),
        {
            let ghost r = parts_view(rest@);
            let ghost k = parts_view(kept@);
            let part = rest.pop().unwrap();
            kept.push(part);
            proof {
                assert(parts_view(rest@) =~= r.drop_last());
                assert(parts_view(kept@) =~= k.push(r.last()));
                assert(r.reverse() =~= seq![r.last()] + r.drop_last().reverse());
                assert(parts_view(kept@) + parts_view(rest@).reverse() =~= k + r.reverse());
            }
        }
        proof {
            assert(parts_view(rest@).reverse() =~= Seq::<Seq<Tile>>::empty());
            assert(parts_view(kept@) + Seq::<Seq<Tile>>::empty() =~= parts_view(kept@));
        }
        kept
    }
}

/// A rule that drives the search: which parts to try in a state, and
/// what a finished stack of parts amounts to.
pub trait BacktrackStrategy {
    /// What the search collects.
    type Item: View;

    /// The states in which the rule can be asked: those that it leads to
    /// from where its search starts.
    spec fn admits(&self, tiles: Multiset<Tile>, stack: Seq<Seq<Tile>>, remaining: nat) -> bool;

    /// The parts to try next, in the order in which they are tried.
    spec fn proposals(&self, tiles: Multiset<Tile>, stack: Seq<Seq<Tile>>, remaining: nat) -> Seq<Seq<Tile>>;

    /// What a finished stack of parts adds to the results.
    spec fn outcome(&self, tiles: Multiset<Tile>, stack: Seq<Seq<Tile>>) -> Seq<<Self::Item as View>::V>;

    /// Each proposed part is not empty, within the number of tiles still
    /// to take and among the tiles that are left, and taking it leads to a
    /// state in which the rule can be asked again.
    proof fn lemma_proposals(&self, tiles: Multiset<Tile>, stack: Seq<Seq<Tile>>, remaining: nat, i: int)
        requires
            self.admits(tiles, stack, remaining),
            remaining > 0,
            0 <= i < self.proposals(tiles, stack, remaining).len(),
        ensures
            ({
                let part = self.proposals(tiles, stack, remaining)[i];
                &&& 0 < part.len() <= remaining
                &&& part.to_multiset().subset_of(tiles)
                &&& self.admits(tiles.sub(part.to_multiset()), stack.push(part), (remaining - part.len()) as nat)
            }),
    ;

    /// The parts to try in a state that has tiles left to take.
    fn generate(&self, bt: &Backtrack) -> (parts: Vec<Vec<Tile>>)
        requires
            self.admits(bt.tiles@, bt.spec_stack(), bt.remaining as nat),
            bt.remaining > 0,
        ensures
            parts_view(parts@) == self.proposals(bt.tiles@, bt.spec_stack(), bt.remaining as nat),
    ;

    /// The results of a state that has no tiles left to take.
    fn check(&self, bt: &Backtrack) -> (items: Vec<Self::Item>)
        requires
            self.admits(bt.tiles@, bt.spec_stack(), bt.remaining as nat),
            bt.remaining == 0,
        ensures
            items_view::<Self::Item>(items@) == self.outcome(bt.tiles@, bt.spec_stack()),
    ;
}

/// The items of a list, each by its view.
pub open spec fn items_view<T: View>(items: Seq<T>) -> Seq<T::V> {
    Seq::new(items.len(), |i: int| items[i]@)
}

/// The results of the search from a state, in the order in which a
/// depth-first walk finds them.
pub open spec fn spec_search<S: BacktrackStrategy>(strategy: &S, tiles: Multiset<Tile>, stack: Seq<Seq<Tile>>, remaining: nat) -> Seq<<S::Item as View>::V>
    decreases remaining, 2nat, 0nat,
{
    if remaining == 0 {
        strategy.outcome(tiles, stack)
    } else {
        let parts = strategy.proposals(tiles, stack, remaining);
        spec_branches(strategy, tiles, stack, remaining, parts, parts.len())
    }
}

/// The results of the search from the state that taking one part leads to.
pub open spec fn spec_child<S: BacktrackStrategy>(strategy: &S, tiles: Multiset<Tile>, stack: Seq<Seq<Tile>>, remaining: nat, part: Seq<Tile>) -> Seq<<S::Item as View>::V>
    decreases remaining, 0nat, 0nat,
{
    if 0 < part.len() <= remaining {
        spec_search(strategy, tiles.sub(part.to_multiset()), stack.push(part), (remaining - part.len()) as nat)
    } else {
        Seq::empty()
    }
}

/// The results of the search from a state through the first `n` of the
/// given parts.
pub open spec fn spec_branches<S: BacktrackStrategy>(strategy: &S, tiles: Multiset<Tile>, stack: Seq<Seq<Tile>>, remaining: nat, parts: Seq<Seq<Tile>>, n: nat) -> Seq<<S::Item as View>::V>
    decreases remaining, 1nat, n,
{
    if n == 0 {
        Seq::empty()
    } else {
        spec_branches(strategy, tiles, stack, remaining, parts, (n - 1) as nat) + spec_child(strategy, tiles, stack, remaining, parts[n - 1])
    }
}

/// Whether two lists have nothing in common.
pub open spec fn disjoint<A>(a: Seq<A>, b: Seq<A>) -> bool {
    forall|x: A| !(#[trigger] a.contains(x) && b.contains(x))
}

/// A result is found through the first `n` parts where taking one of
/// them leads to it.
pub proof fn lemma_branches_contains<S: BacktrackStrategy>(strategy: &S, tiles: Multiset<Tile>, stack: Seq<Seq<Tile>>, remaining: nat, parts: Seq<Seq<Tile>>, n: nat, x: <S::Item as View>::V)
    ensures
        spec_branches(strategy, tiles, stack, remaining, parts, n).contains(x) <==> exists|i: int| 0 <= i < n && (#[trigger] spec_child(strategy, tiles, stack, remaining, parts[i])).contains(x),
    decreases n,
{
    if n > 0 {
        let before = spec_branches(strategy, tiles, stack, remaining, parts, (n - 1) as nat);
        let last = spec_child(strategy, tiles, stack, remaining, parts[n - 1]);
        lemma_branches_contains(strategy, tiles, stack, remaining, parts, (n - 1) as nat, x);
        lemma_concat_contains(before, last, x);
        if before.contains(x) {
            let i = choose|i: int| 0 <= i < n - 1 && (#[trigger] spec_child(strategy, tiles, stack, remaining, parts[i])).contains(x);
            assert(0 <= i < n && spec_child(strategy, tiles, stack, remaining, parts[i]).contains(x));
        }
        if exists|i: int| 0 <= i < n && (#[trigger] spec_child(strategy, tiles, stack, remaining, parts[i])).contains(x) {
            let i = choose|i: int| 0 <= i < n && (#[trigger] spec_child(strategy, tiles, stack, remaining, parts[i])).contains(x);
            if i < n - 1 {
                assert(before.contains(x));
            }
        }
    }
}

/// No result is found twice through the first `n` parts where none is
/// found twice behind one part and none behind two.
pub proof fn lemma_branches_distinct<S: BacktrackStrategy>(strategy: &S, tiles: Multiset<Tile>, stack: Seq<Seq<Tile>>, remaining: nat, parts: Seq<Seq<Tile>>, n: nat)
    requires
        forall|i: int| 0 <= i < n ==> (#[trigger] spec_child(strategy, tiles, stack, remaining, parts[i])).no_duplicates(),
        forall|i: int, j: int| 0 <= i < j < n ==> disjoint(#[trigger] spec_child(strategy, tiles, stack, remaining, parts[i]), #[trigger] spec_child(strategy, tiles, stack, remaining, parts[j])),
    ensures
        spec_branches(strategy, tiles, stack, remaining, parts, n).no_duplicates(),
    decreases n,
{
    if n > 0 {
        let before = spec_branches(strategy, tiles, stack, remaining, parts, (n - 1) as nat);
        let last = spec_child(strategy, tiles, stack, remaining, parts[n - 1]);
        lemma_branches_distinct(strategy, tiles, stack, remaining, parts, (n - 1) as nat);
        assert forall|i: int, j: int| 0 <= i < before.len() && 0 <= j < last.len() implies before[i] != last[j] by {
            if before[i] == last[j] {
                let x = before[i];
                assert(before.contains(x));
                assert(last.contains(x));
                lemma_branches_contains(strategy, tiles, stack, remaining, parts, (n - 1) as nat, x);
                let k = choose|k: int| 0 <= k < n - 1 && (#[trigger] spec_child(strategy, tiles, stack, remaining, parts[k])).contains(x);
                assert(disjoint(spec_child(strategy, tiles, stack, remaining, parts[k]), spec_child(strategy, tiles, stack, remaining, parts[n - 1])));
            }
        }
        vstd::seq_lib::lemma_no_dup_in_concat(before, last);
    }
}

impl Backtrack {
    /// All results of the search from this state.
    pub fn run<S: BacktrackStrategy>(&mut self, strategy: &S) -> (results: Vec<S::Item>)
        requires
            strategy.admits(old(self).tiles@, old(self).spec_stack(), old(self).remaining as nat),
        ensures
            items_view::<S::Item>(results@) == spec_search(strategy, old(self).tiles@, old(self).spec_stack(), old(self).remaining as nat),
            final(self).tiles@ == old(self).tiles@,
            final(self).spec_stack() == old(self).spec_stack(),
            final(self).remaining == old(self).remaining,
    {
        let mut results: Vec<S::Item> = Vec::new();
        assert(items_view::<S::Item>(results@) =~= Seq::empty());
        self.go(strategy, &mut results);
        results
    }

    /// Adds the results of the search from this state to a list. The
    /// state is the same afterwards as before.
    pub fn go<S: BacktrackStrategy>(&mut self, strategy: &S, results: &mut Vec<S::Item>)
        requires
            strategy.admits(old(self).tiles@, old(self).spec_stack(), old(self).remaining as nat),
        ensures
            items_view::<S::Item>(final(results)@) == items_view::<S::Item>(old(results)@) + spec_search(
                strategy,
                old(self).tiles@,
                old(self).spec_stack(),
                old(self).remaining as nat,
            ),
            final(self).tiles@ == old(self).tiles@,
            final(self).spec_stack() == old(self).spec_stack(),
            final(self).remaining == old(self).remaining,
        decreases old(self).remaining,
    {
        if self.remaining == 0 {
            let mut found = strategy.check(self);
            let ghost before = items_view::<S::Item>(results@);
            let ghost more = items_view::<S::Item>(found@);
            results.append(&mut found);
            proof {
                assert(items_view::<S::Item>(results@) =~= before + more);
            }
            return;
        }
        let parts = strategy.generate(self);
        let ghost tiles = self.tiles@;
        let ghost stack = self.spec_stack();
        let ghost remaining = self.remaining as nat;
        let ghost start = items_view::<S::Item>(results@);
        let ghost proposed = parts_view(parts@);
        let mut i: usize = 0;
        proof {
            assert(start + spec_branches(strategy, tiles, stack, remaining, proposed, 0) =~= start);
        }
        while i < parts.len()
            invariant
                i <= parts@.len(),
                remaining > 0,
                remaining == old(self).remaining,
                tiles == old(self).tiles@,
                strategy.admits(tiles, stack, remaining),
                proposed == parts_view(parts@),
                proposed == strategy.proposals(tiles, stack, remaining),
                self.tiles@ == tiles,
                self.spec_stack() == stack,
                self.remaining == remaining,
                items_view::<S::Item>(results@) == start + spec_branches(strategy, tiles, stack, remaining, proposed, i as nat),
            decreases parts@.len() - i,
        {
            let part = &parts[i];
            let ghost taken = part@;
            let ghost before = items_view::<S::Item>(results@);
            proof {
                assert(proposed[i as int] == taken);
                strategy.lemma_proposals(tiles, stack, remaining, i as int);
                assert forall|t: Tile| 0 <= #[trigger] self.tiles@.count(t) + (-1) * taken.to_multiset().count(t) <= isize::MAX by {
                    assert(taken.to_multiset().count(t) <= tiles.count(t));
                    self.tiles.lemma_bounded(t);
                }
            }
            self.tiles.add_all(part.as_slice(), -1);
            let ghost fewer = self.tiles@;
            proof {
                assert(fewer =~= tiles.sub(taken.to_multiset()));
            }
            self.stack.push(part.clone());
            proof {
                assert(self.stack@.last()@ =~= taken);
                assert(self.spec_stack() =~= stack.push(taken));
            }
            self.remaining = self.remaining - part.len();
            self.go(strategy, results);
            self.remaining = self.remaining + part.len();
            let ghost longer = self.stack@;
            self.stack.pop();
            proof {
                assert(parts_view(longer) == stack.push(taken));
                assert(parts_view(longer).len() == stack.len() + 1);
                assert(self.spec_stack() =~= parts_view(longer).drop_last());
                assert(self.spec_stack() =~= stack);
                assert(self.tiles@ == fewer);
                assert forall|t: Tile| 0 <= #[trigger] self.tiles@.count(t) + 1 * taken.to_multiset().count(t) <= isize::MAX by {
                    assert(taken.to_multiset().count(t) <= tiles.count(t));
                    old(self).tiles.lemma_bounded(t);
                }
            }
            self.tiles.add_all(part.as_slice(), 1);
            proof {
                assert(self.tiles@ =~= tiles);
                assert(items_view::<S::Item>(results@) == before + spec_child(strategy, tiles, stack, remaining, taken));
                assert(items_view::<S::Item>(results@) =~= start + spec_branches(strategy, tiles, stack, remaining, proposed, (i + 1) as nat));
            }
            i = i + 1;
        }
    }
}

} // verus!
