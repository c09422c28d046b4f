//! All the ways in which fourteen tiles form a winning hand.

use crate::backtrack::{
    disjoint, lemma_branches_contains, lemma_branches_distinct, lemma_concat_contains,
    lemma_filter, lemma_filter_distinct, lemma_find_groups, lemma_find_pairs,
    lemma_found_distinct, pair, part_le, run, spec_child, spec_filter, spec_find_groups,
    spec_find_pairs, spec_search, triplet, Backtrack, BacktrackStrategy,
};
use crate::hand::{yaochu_faces, Group, Hand};
use crate::tiles::{lemma_ascending_unique, sorted_of, NUM_TILES, Tile, TileSet};
use vstd::multiset::Multiset;
use vstd::prelude::*;

verus! {

/// The group that a part of three tiles is, read off its first two tiles.
pub open spec fn part_group(part: Seq<Tile>) -> Group {
    if part[1] == part[0] {
        Group::Pon(part[0])
    } else {
        Group::Chi(part[0])
    }
}

/// Whether a part is the three tiles of a group.
pub open spec fn is_group_part(part: Seq<Tile>) -> bool {
    part_group(part).wf() && part_group(part).spec_tiles() == part
}

/// A group is read back from its tiles.
pub proof fn lemma_group_part(g: Group)
    requires
        g.wf(),
    ensures
        is_group_part(g.spec_tiles()),
        part_group(g.spec_tiles()) == g,
        g.spec_tiles().len() == 3,
{
    Tile::index_bijection();
}

/// How often a face occurs in a triplet, a run and a pair.
pub proof fn lemma_part_counts(t: Tile, x: Tile)
    ensures
        triplet(t).to_multiset().count(x) == (if x == t { 3nat } else { 0 }),
        pair(t).to_multiset().count(x) == (if x == t { 2nat } else { 0 }),
        Group::Chi(t).wf() ==> run(t).to_multiset().count(x) == (if t.index() <= x.index() <= t.index() + 2 { 1nat } else { 0 }),
        triplet(t).to_multiset().len() == 3,
        run(t).to_multiset().len() == 3,
        pair(t).to_multiset().len() == 2,
{
    broadcast use vstd::seq_lib::group_to_multiset_ensures;
    Tile::index_bijection();
    let e = Seq::<Tile>::empty();
    assert(triplet(t) =~= e.push(t).push(t).push(t));
    assert(pair(t) =~= e.push(t).push(t));
    assert(run(t) =~= e.push(t).push(t.spec_next()).push(t.spec_next().spec_next()));
    assert(e.to_multiset().count(x) <= e.to_multiset().len());
}

/// The groups of a stack of five parts, in the order of the stack.
pub open spec fn stack_groups(stack: Seq<Seq<Tile>>) -> [Group; 4] {
    [part_group(stack[0]), part_group(stack[1]), part_group(stack[2]), part_group(stack[3])]
}

/// The hand of a stack of five parts in which the winning tile completed
/// the pair, if the pair is of the winning tile.
pub open spec fn pair_hand(stack: Seq<Seq<Tile>>, wait: Tile) -> Seq<Hand> {
    if stack[4][0] == wait {
        seq![Hand::Normal(stack[4][0], stack_groups(stack), wait, None)]
    } else {
        Seq::empty()
    }
}

/// The hand of a stack of five parts in which the winning tile completed
/// the group at position `i`, if that group holds the winning tile and is
/// the first of its kind.
pub open spec fn group_hand(stack: Seq<Seq<Tile>>, wait: Tile, i: int) -> Seq<Hand> {
    if (i == 0 || stack[i] != stack[i - 1]) && part_group(stack[i]).spec_holds(wait) {
        seq![Hand::Normal(stack[4][0], stack_groups(stack), wait, Some(i as u8))]
    } else {
        Seq::empty()
    }
}

/// The hands of a stack of four groups and a pair.
pub open spec fn stack_hands(stack: Seq<Seq<Tile>>, wait: Tile) -> Seq<Hand> {
    pair_hand(stack, wait) + group_hand(stack, wait, 0) + group_hand(stack, wait, 1) + group_hand(stack, wait, 2)
        + group_hand(stack, wait, 3)
}

/// The states of the search for four groups and a pair: up to four
/// groups in ascending order, then the pair, with as many tiles left as
/// are still to take.
pub open spec fn normal_admits(tiles: Multiset<Tile>, stack: Seq<Seq<Tile>>, remaining: nat) -> bool {
    &&& stack.len() <= 5
    &&& remaining == (if stack.len() == 5 { 0int } else { 14 - 3 * stack.len() })
    &&& tiles.len() == remaining
    &&& forall|i: int| 0 <= i < stack.len() && i < 4 ==> is_group_part(#[trigger] stack[i])
    &&& forall|i: int| 0 < i < stack.len() && i < 4 ==> part_le(stack[i - 1], #[trigger] stack[i])
    &&& stack.len() == 5 ==> stack[4] == pair(stack[4][0])
}

/// The search for four groups and a pair around a winning tile.
pub struct NormalSearch(pub Tile);

impl BacktrackStrategy for NormalSearch {
    type Item = Hand;

    open spec fn admits(&self, tiles: Multiset<Tile>, stack: Seq<Seq<Tile>>, remaining: nat) -> bool {
        normal_admits(tiles, stack, remaining)
    }

    open spec fn proposals(&self, tiles: Multiset<Tile>, stack: Seq<Seq<Tile>>, remaining: nat) -> Seq<Seq<Tile>> {
        if remaining > 2 {
            spec_filter(stack, spec_find_groups(tiles))
        } else {
            spec_find_pairs(tiles)
        }
    }

    open spec fn outcome(&self, tiles: Multiset<Tile>, stack: Seq<Seq<Tile>>) -> Seq<Hand> {
        stack_hands(stack, self.0)
    }

    proof fn lemma_proposals(&self, tiles: Multiset<Tile>, stack: Seq<Seq<Tile>>, remaining: nat, i: int) {
        let parts = self.proposals(tiles, stack, remaining);
        let part = parts[i];
        assert(parts.contains(part));
        if remaining > 2 {
            lemma_filter(stack, spec_find_groups(tiles), part);
            lemma_find_groups(tiles, part);
            lemma_group_shape(tiles, part);
        } else {
            lemma_find_pairs(tiles, part);
            let t = choose|t: Tile| tiles.count(t) >= 2 && part == #[trigger] pair(t);
            assert forall|x: Tile| part.to_multiset().count(x) <= tiles.count(x) by {
                lemma_part_counts(t, x);
            }
            lemma_part_counts(t, t);
        }
        let next = stack.push(part);
        assert(forall|k: int| 0 <= k < stack.len() ==> next[k] == stack[k]);
        assert(next[stack.len() as int] == part);
    }

    fn generate(&self, bt: &Backtrack) -> (parts: Vec<Vec<Tile>>) {
        if bt.remaining > 2 {
            bt.filter(bt.find_groups())
        } else {
            bt.find_pairs()
        }
    }

    fn check(&self, bt: &Backtrack) -> (items: Vec<Hand>) {
        assert(bt.stack@.len() == 5);
        let ghost stack = bt.spec_stack();
        let wait = self.0;
        proof {
            assert(stack.len() == 5);
            assert(is_group_part(stack[0]) && stack[0] == bt.stack@[0]@);
            assert(is_group_part(stack[1]) && stack[1] == bt.stack@[1]@);
            assert(is_group_part(stack[2]) && stack[2] == bt.stack@[2]@);
            assert(is_group_part(stack[3]) && stack[3] == bt.stack@[3]@);
            assert(stack[4] == bt.stack@[4]@);
            assert(stack[4].len() == 2);
        }
        let g0 = group_of(&bt.stack[0]);
        let g1 = group_of(&bt.stack[1]);
        let g2 = group_of(&bt.stack[2]);
        let g3 = group_of(&bt.stack[3]);
        let groups = [g0, g1, g2, g3];
        assert(groups =~= stack_groups(stack));
        assert(bt.stack[4]@ == stack[4]);
        let pair = bt.stack[4][0];
        let mut results: Vec<Hand> = Vec::new();
        if pair == wait {
            results.push(Hand::Normal(pair, groups, wait, None));
        }
        assert(results@ =~= pair_hand(stack, wait));
        let mut i: usize = 0;
        let ghost start = results@;
        while i < 4
            invariant
                i <= 4,
                groups == stack_groups(stack),
                pair == stack[4][0],
                stack.len() == 5,
                forall|k: int| 0 <= k < 4 ==> is_group_part(#[trigger] stack[k]),
                start == pair_hand(stack, wait),
                i == 0 ==> results@ == start,
                i == 1 ==> results@ == start + group_hand(stack, wait, 0),
                i == 2 ==> results@ == start + group_hand(stack, wait, 0) + group_hand(stack, wait, 1),
                i == 3 ==> results@ == start + group_hand(stack, wait, 0) + group_hand(stack, wait, 1) + group_hand(stack, wait, 2),
                i == 4 ==> results@ == stack_hands(stack, wait),
            decreases 4 - i,
        {
            let ghost before = results@;
            proof {
                assert(groups[i as int] == part_group(stack[i as int]));
                if i > 0 {
                    assert(is_group_part(stack[i as int]));
                    assert(is_group_part(stack[i - 1]));
                    assert(groups[i - 1] == part_group(stack[i - 1]));
                }
            }
            if (i == 0 || groups[i] != groups[i - 1]) && groups[i].holds(wait) {
                results.push(Hand::Normal(pair, groups, wait, Some(i as u8)));
            }
            proof {
                assert(results@ =~= before + group_hand(stack, wait, i as int));
            }
            i = i + 1;
        }
        proof {
            assert(crate::backtrack::items_view::<Hand>(results@) =~= results@);
        }
        results
    }
}

/// A group that can be taken from a multiset is not empty, is of three
/// tiles, and its tiles are among those of the multiset.
pub proof fn lemma_group_shape(tiles: Multiset<Tile>, part: Seq<Tile>)
    requires
        (exists|t: Tile| tiles.count(t) >= 3 && part == #[trigger] triplet(t)) || (exists|t: Tile| crate::backtrack::has_run(tiles, t) && part == #[trigger] run(t)),
    ensures
        is_group_part(part),
        part.len() == 3,
        part.to_multiset().subset_of(tiles),
        tiles.sub(part.to_multiset()).len() == tiles.len() - 3,
{
    Tile::index_bijection();
    if exists|t: Tile| tiles.count(t) >= 3 && part == #[trigger] triplet(t) {
        let t = choose|t: Tile| tiles.count(t) >= 3 && part == #[trigger] triplet(t);
        lemma_group_part(Group::Pon(t));
        assert forall|x: Tile| part.to_multiset().count(x) <= tiles.count(x) by {
            lemma_part_counts(t, x);
        }
        lemma_part_counts(t, t);
    } else {
        let t = choose|t: Tile| crate::backtrack::has_run(tiles, t) && part == #[trigger] run(t);
        lemma_group_part(Group::Chi(t));
        assert forall|x: Tile| part.to_multiset().count(x) <= tiles.count(x) by {
            lemma_part_counts(t, x);
        }
        lemma_part_counts(t, t);
    }
}

/// The group that a part of the stack is.
fn group_of(part: &Vec<Tile>) -> (g: Group)
    requires
        is_group_part(part@),
    ensures
        g == part_group(part@),
        g.wf(),
{
    let found = Group::from_tiles(part.as_slice());
    proof {
        if found is Some {
            lemma_group_part(found->0);
        }
    }
    found.unwrap()
}

/// The parts of a hand of four groups and a pair, in the order in which
/// the search takes them.
pub open spec fn hand_stack(hand: Hand) -> Seq<Seq<Tile>> {
    match hand {
        Hand::Normal(p, groups, _, _) => seq![
            groups[0].spec_tiles(),
            groups[1].spec_tiles(),
            groups[2].spec_tiles(),
            groups[3].spec_tiles(),
            pair(p),
        ],
        _ => Seq::empty(),
    }
}

/// The tiles of all parts of a stack.
pub open spec fn stack_tiles(stack: Seq<Seq<Tile>>) -> Multiset<Tile>
    decreases stack.len(),
{
    if stack.len() == 0 {
        Multiset::empty()
    } else {
        stack_tiles(stack.drop_last()).add(stack.last().to_multiset())
    }
}

/// What makes a hand of four groups and a pair a hand around a winning
/// tile, whatever its tiles: the groups are in ascending order, and the
/// winning tile completed the pair or the first of the equal groups that
/// hold it.
pub open spec fn standard_shape(hand: Hand, wait: Tile) -> bool {
    &&& hand matches Hand::Normal(p, groups, w, at)
    &&& w == wait
    &&& forall|i: int| 0 <= i < 4 ==> (#[trigger] groups[i]).wf()
    &&& forall|i: int| 0 < i < 4 ==> groups[i - 1].spec_rank() <= (#[trigger] groups[i]).spec_rank()
    &&& match at {
        None => p == wait,
        Some(n) => n < 4 && groups[n as int].spec_holds(wait) && (n == 0 || groups[n as int] != groups[n - 1]),
    }
}

/// Whether a hand is a way to read the given tiles as four groups and a
/// pair around the winning tile.
pub open spec fn spec_standard(tiles: Multiset<Tile>, wait: Tile, hand: Hand) -> bool {
    standard_shape(hand, wait) && hand.spec_parts().to_multiset() == tiles
}

/// Whether a hand of four groups and a pair starts with the parts of a
/// stack and is made of the tiles of the stack and the tiles left.
pub open spec fn extends(hand: Hand, wait: Tile, tiles: Multiset<Tile>, stack: Seq<Seq<Tile>>) -> bool {
    &&& standard_shape(hand, wait)
    &&& stack.len() <= 5
    &&& forall|i: int| 0 <= i < stack.len() ==> hand_stack(hand)[i] == #[trigger] stack[i]
    &&& stack_tiles(hand_stack(hand)) == tiles.add(stack_tiles(stack))
}

/// The tiles of a stack that grows by one part.
pub proof fn lemma_stack_tiles_push(stack: Seq<Seq<Tile>>, part: Seq<Tile>)
    ensures
        stack_tiles(stack.push(part)) == stack_tiles(stack).add(part.to_multiset()),
{
    assert(stack.push(part).drop_last() =~= stack);
}

/// The tiles of a stack are those of its first part and those of the rest.
pub proof fn lemma_stack_tiles_front(stack: Seq<Seq<Tile>>)
    requires
        stack.len() > 0,
    ensures
        stack_tiles(stack) == stack[0].to_multiset().add(stack_tiles(stack.drop_first())),
    decreases stack.len(),
{
    if stack.len() == 1 {
        assert(stack.drop_last() =~= Seq::<Seq<Tile>>::empty());
        assert(stack.drop_first() =~= Seq::<Seq<Tile>>::empty());
        assert(stack_tiles(stack) =~= stack[0].to_multiset().add(stack_tiles(stack.drop_first())));
    } else {
        lemma_stack_tiles_front(stack.drop_last());
        assert(stack.drop_first().drop_last() =~= stack.drop_last().drop_first());
        assert(stack.drop_last()[0] == stack[0]);
        assert(stack.drop_first().last() == stack.last());
        assert(stack_tiles(stack) =~= stack[0].to_multiset().add(stack_tiles(stack.drop_first())));
    }
}

/// The tiles of the first parts of a stack are among the tiles of the stack.
pub proof fn lemma_stack_tiles_prefix(stack: Seq<Seq<Tile>>, n: int)
    requires
        0 <= n <= stack.len(),
    ensures
        stack_tiles(stack.subrange(0, n)).subset_of(stack_tiles(stack)),
    decreases stack.len() - n,
{
    if n == stack.len() {
        assert(stack.subrange(0, n) =~= stack);
    } else {
        lemma_stack_tiles_prefix(stack, n + 1);
        assert(stack.subrange(0, n + 1) =~= stack.subrange(0, n).push(stack[n]));
        lemma_stack_tiles_push(stack.subrange(0, n), stack[n]);
    }
}

/// The tiles of a hand of four groups and a pair are the tiles of its parts.
pub proof fn lemma_hand_tiles(hand: Hand)
    requires
        hand is Normal,
    ensures
        hand.spec_parts().to_multiset() == stack_tiles(hand_stack(hand)),
        hand_stack(hand).len() == 5,
{
    let p = hand->Normal_0;
    let groups = hand->Normal_1;
    let a = groups[0].spec_tiles();
    let b = groups[1].spec_tiles();
    let c = groups[2].spec_tiles();
    let d = groups[3].spec_tiles();
    let e = pair(p);
    vstd::seq_lib::lemma_multiset_commutative(e, a);
    vstd::seq_lib::lemma_multiset_commutative(e + a, b);
    vstd::seq_lib::lemma_multiset_commutative(e + a + b, c);
    vstd::seq_lib::lemma_multiset_commutative(e + a + b + c, d);
    let s0 = Seq::<Seq<Tile>>::empty();
    lemma_stack_tiles_push(s0, a);
    lemma_stack_tiles_push(s0.push(a), b);
    lemma_stack_tiles_push(s0.push(a).push(b), c);
    lemma_stack_tiles_push(s0.push(a).push(b).push(c), d);
    lemma_stack_tiles_push(s0.push(a).push(b).push(c).push(d), e);
    assert(hand_stack(hand) =~= s0.push(a).push(b).push(c).push(d).push(e));
    assert(hand.spec_parts() =~= e + a + b + c + d);
    assert(hand.spec_parts().to_multiset() =~= stack_tiles(hand_stack(hand)));
}

/// Groups are in the order of their tiles as parts.
pub proof fn lemma_part_order(g1: Group, g2: Group)
    requires
        g1.wf(),
        g2.wf(),
    ensures
        part_le(g1.spec_tiles(), g2.spec_tiles()) == (g1.spec_rank() <= g2.spec_rank()),
        g1.spec_rank() == g2.spec_rank() ==> g1 == g2,
{
    Tile::index_bijection();
    reveal_with_fuel(part_le, 4);
    let a = g1.spec_tiles();
    let b = g2.spec_tiles();
    assert(a.drop_first()[0] == a[1]);
    assert(b.drop_first()[0] == b[1]);
    assert(a.drop_first().drop_first()[0] == a[2]);
    assert(b.drop_first().drop_first()[0] == b[2]);
    assert(a.drop_first().drop_first().drop_first().len() == 0);
}

/// The hand of a stack of five parts with the given place of the winning tile.
pub open spec fn leaf_hand(stack: Seq<Seq<Tile>>, wait: Tile, at: Option<u8>) -> Hand {
    Hand::Normal(stack[4][0], stack_groups(stack), wait, at)
}

/// Whether the winning tile can have its place in the pair (`None`) or in
/// the group at a position of a stack of five parts.
pub open spec fn leaf_at(stack: Seq<Seq<Tile>>, wait: Tile, at: Option<u8>) -> bool {
    match at {
        None => stack[4][0] == wait,
        Some(n) => n < 4 && (n == 0 || stack[n as int] != stack[n - 1]) && part_group(stack[n as int]).spec_holds(wait),
    }
}

/// The hands of a finished stack, one for each place that the winning
/// tile can have.
pub proof fn lemma_stack_hands(stack: Seq<Seq<Tile>>, wait: Tile, hand: Hand)
    ensures
        stack_hands(stack, wait).contains(hand) <==> hand is Normal && leaf_at(stack, wait, hand->Normal_3) && hand == leaf_hand(stack, wait, hand->Normal_3),
{
    let h0 = pair_hand(stack, wait);
    let h1 = group_hand(stack, wait, 0);
    let h2 = group_hand(stack, wait, 1);
    let h3 = group_hand(stack, wait, 2);
    let h4 = group_hand(stack, wait, 3);
    lemma_concat_contains(h0 + h1 + h2 + h3, h4, hand);
    lemma_concat_contains(h0 + h1 + h2, h3, hand);
    lemma_concat_contains(h0 + h1, h2, hand);
    lemma_concat_contains(h0, h1, hand);
    if h0.contains(hand) {
        assert(h0[0] == hand);
    }
    if h1.contains(hand) {
        assert(h1[0] == hand);
    }
    if h2.contains(hand) {
        assert(h2[0] == hand);
    }
    if h3.contains(hand) {
        assert(h3[0] == hand);
    }
    if h4.contains(hand) {
        assert(h4[0] == hand);
    }
    if hand is Normal && leaf_at(stack, wait, hand->Normal_3) && hand == leaf_hand(stack, wait, hand->Normal_3) {
        match hand->Normal_3 {
            None => {
                assert(h0[0] == hand);
            },
            Some(n) => {
                if n == 0 {
                    assert(h1[0] == hand);
                } else if n == 1 {
                    assert(h2[0] == hand);
                } else if n == 2 {
                    assert(h3[0] == hand);
                } else {
                    assert(h4[0] == hand);
                }
            },
        }
    }
}

/// The groups and the pair of a finished stack make a hand that starts
/// with all its parts.
pub proof fn lemma_leaf_shape(wait: Tile, tiles: Multiset<Tile>, stack: Seq<Seq<Tile>>, at: Option<u8>)
    requires
        normal_admits(tiles, stack, 0),
    ensures
        hand_stack(leaf_hand(stack, wait, at)) == stack,
        leaf_at(stack, wait, at) <==> standard_shape(leaf_hand(stack, wait, at), wait),
        tiles.add(stack_tiles(stack)) == stack_tiles(stack),
{
    let groups = stack_groups(stack);
    let hand = leaf_hand(stack, wait, at);
    vstd::multiset::lemma_multiset_empty_len(tiles);
    assert(is_group_part(stack[0]) && is_group_part(stack[1]) && is_group_part(stack[2]) && is_group_part(stack[3]));
    assert(part_le(stack[0], stack[1]) && part_le(stack[1], stack[2]) && part_le(stack[2], stack[3]));
    lemma_part_order(groups[0], groups[1]);
    lemma_part_order(groups[1], groups[2]);
    lemma_part_order(groups[2], groups[3]);
    assert(hand_stack(hand) =~= stack);
    assert(tiles.add(stack_tiles(stack)) =~= stack_tiles(stack));
    assert(forall|i: int| 0 <= i < 4 ==> (#[trigger] groups[i]).wf());
    assert(forall|i: int| 0 < i < 4 ==> groups[i - 1].spec_rank() <= (#[trigger] groups[i]).spec_rank());
}

/// A hand that starts with all five parts of a stack is the hand of the stack.
pub proof fn lemma_leaf_unique(wait: Tile, stack: Seq<Seq<Tile>>, hand: Hand)
    requires
        stack.len() == 5,
        standard_shape(hand, wait),
        forall|i: int| 0 <= i < 5 ==> hand_stack(hand)[i] == #[trigger] stack[i],
    ensures
        hand == leaf_hand(stack, wait, hand->Normal_3),
{
    let gs = hand->Normal_1;
    let hs = hand_stack(hand);
    assert(hs[0] == stack[0] && hs[1] == stack[1] && hs[2] == stack[2] && hs[3] == stack[3] && hs[4] == stack[4]);
    lemma_group_part(gs[0]);
    lemma_group_part(gs[1]);
    lemma_group_part(gs[2]);
    lemma_group_part(gs[3]);
    assert(gs =~= stack_groups(stack));
    assert(pair(hand->Normal_0)[0] == stack[4][0]);
}

/// A finished stack yields the hands that start with all its parts.
pub proof fn lemma_leaf(wait: Tile, tiles: Multiset<Tile>, stack: Seq<Seq<Tile>>, hand: Hand)
    requires
        normal_admits(tiles, stack, 0),
    ensures
        stack_hands(stack, wait).contains(hand) <==> extends(hand, wait, tiles, stack),
{
    lemma_stack_hands(stack, wait, hand);
    if hand is Normal {
        let at = hand->Normal_3;
        lemma_leaf_shape(wait, tiles, stack, at);
        if extends(hand, wait, tiles, stack) {
            lemma_leaf_unique(wait, stack, hand);
        }
    }
}

/// A hand that starts with the parts of a stack and one of the parts
/// that the search tries next starts with the parts of the stack.
proof fn lemma_step_back(wait: Tile, tiles: Multiset<Tile>, stack: Seq<Seq<Tile>>, remaining: nat, hand: Hand, i: int)
    requires
        normal_admits(tiles, stack, remaining),
        remaining > 0,
        0 <= i < NormalSearch(wait).proposals(tiles, stack, remaining).len(),
        extends(
            hand,
            wait,
            tiles.sub(NormalSearch(wait).proposals(tiles, stack, remaining)[i].to_multiset()),
            stack.push(NormalSearch(wait).proposals(tiles, stack, remaining)[i]),
        ),
    ensures
        extends(hand, wait, tiles, stack),
{
    let ns = NormalSearch(wait);
    let q = ns.proposals(tiles, stack, remaining)[i];
    ns.lemma_proposals(tiles, stack, remaining, i);
    lemma_stack_tiles_push(stack, q);
    assert(tiles.sub(q.to_multiset()).add(stack_tiles(stack.push(q))) =~= tiles.add(stack_tiles(stack)));
    assert forall|j: int| 0 <= j < stack.len() implies hand_stack(hand)[j] == #[trigger] stack[j] by {
        assert(stack.push(q)[j] == stack[j]);
    }
}

/// The part of a hand that follows the parts of an unfinished stack
/// that the hand starts with is one of the parts that the search tries
/// next.
proof fn lemma_step_part(wait: Tile, tiles: Multiset<Tile>, stack: Seq<Seq<Tile>>, remaining: nat, hand: Hand)
    requires
        normal_admits(tiles, stack, remaining),
        remaining > 0,
        extends(hand, wait, tiles, stack),
    ensures
        stack.len() < 5,
        NormalSearch(wait).proposals(tiles, stack, remaining).contains(hand_stack(hand)[stack.len() as int]),
        forall|x: Tile| hand_stack(hand)[stack.len() as int].to_multiset().count(x) <= tiles.count(x),
{
    let ns = NormalSearch(wait);
    let k = stack.len() as int;
    let hs = hand_stack(hand);
    let gs = hand->Normal_1;
    let p = hand->Normal_0;
    lemma_hand_tiles(hand);
    let q = hs[k];
    assert(stack.push(q) =~= hs.subrange(0, k + 1));
    lemma_stack_tiles_prefix(hs, k + 1);
    lemma_stack_tiles_push(stack, q);
    assert forall|x: Tile| q.to_multiset().count(x) <= tiles.count(x) by {
        assert(stack_tiles(stack.push(q)).count(x) <= stack_tiles(hs).count(x));
    }
    Tile::index_bijection();
    if remaining > 2 {
        assert(k < 4);
        let g = gs[k];
        assert(g.wf());
        assert(q == g.spec_tiles());
        match g {
            Group::Pon(t) => {
                lemma_part_counts(t, t);
                assert(tiles.count(t) >= 3 && q == triplet(t));
            },
            Group::Chi(t) => {
                lemma_part_counts(t, t);
                lemma_part_counts(t, Tile::of_index(t.index() + 1));
                lemma_part_counts(t, Tile::of_index(t.index() + 2));
                assert(crate::backtrack::has_run(tiles, t) && q == run(t));
            },
        }
        lemma_find_groups(tiles, q);
        if k > 0 {
            assert(hs[k - 1] == stack[k - 1]);
            assert(gs[k - 1].wf());
            lemma_part_order(gs[k - 1], g);
            assert(stack.last() == stack[k - 1]);
        }
        lemma_filter(stack, spec_find_groups(tiles), q);
    } else {
        assert(k == 4);
        lemma_part_counts(p, p);
        assert(tiles.count(p) >= 2 && q == pair(p));
        lemma_find_pairs(tiles, q);
    }
}

/// A hand starts with the parts of an unfinished stack exactly where it
/// starts with them and one of the parts that the search tries next.
pub proof fn lemma_step(wait: Tile, tiles: Multiset<Tile>, stack: Seq<Seq<Tile>>, remaining: nat, hand: Hand)
    requires
        normal_admits(tiles, stack, remaining),
        remaining > 0,
    ensures
        extends(hand, wait, tiles, stack) <==> exists|i: int|
            0 <= i < NormalSearch(wait).proposals(tiles, stack, remaining).len() && extends(
                hand,
                wait,
                tiles.sub((#[trigger] NormalSearch(wait).proposals(tiles, stack, remaining)[i]).to_multiset()),
                stack.push(NormalSearch(wait).proposals(tiles, stack, remaining)[i]),
            ),
{
    let ns = NormalSearch(wait);
    let parts = ns.proposals(tiles, stack, remaining);
    let k = stack.len() as int;
    if exists|i: int| 0 <= i < parts.len() && extends(hand, wait, tiles.sub((#[trigger] parts[i]).to_multiset()), stack.push(parts[i])) {
        let i = choose|i: int| 0 <= i < parts.len() && extends(hand, wait, tiles.sub((#[trigger] parts[i]).to_multiset()), stack.push(parts[i]));
        lemma_step_back(wait, tiles, stack, remaining, hand, i);
    }
    if extends(hand, wait, tiles, stack) {
        lemma_step_part(wait, tiles, stack, remaining, hand);
        let hs = hand_stack(hand);
        let q = hs[k];
        let i = choose|i: int| 0 <= i < parts.len() && parts[i] == q;
        lemma_stack_tiles_push(stack, q);
        assert(tiles.sub(q.to_multiset()).add(stack_tiles(stack.push(q))) =~= tiles.add(stack_tiles(stack)));
        assert forall|j: int| 0 <= j < stack.push(q).len() implies hs[j] == #[trigger] stack.push(q)[j] by {
            if j < k {
                assert(stack.push(q)[j] == stack[j]);
            }
        }
        assert(extends(hand, wait, tiles.sub(parts[i].to_multiset()), stack.push(parts[i])));
    }
}

/// The search from a state finds the hands that start with the parts of
/// its stack and are made of the tiles of the stack and the tiles left.
pub proof fn lemma_search_contains(wait: Tile, tiles: Multiset<Tile>, stack: Seq<Seq<Tile>>, remaining: nat, hand: Hand)
    requires
        normal_admits(tiles, stack, remaining),
    ensures
        spec_search(&NormalSearch(wait), tiles, stack, remaining).contains(hand) <==> extends(hand, wait, tiles, stack),
    decreases remaining,
{
    let ns = NormalSearch(wait);
    if remaining == 0 {
        lemma_leaf(wait, tiles, stack, hand);
    } else {
        let parts = ns.proposals(tiles, stack, remaining);
        lemma_branches_contains(&ns, tiles, stack, remaining, parts, parts.len(), hand);
        lemma_step(wait, tiles, stack, remaining, hand);
        assert forall|i: int| 0 <= i < parts.len() implies ((#[trigger] spec_child(&ns, tiles, stack, remaining, parts[i])).contains(hand) <==> extends(
            hand,
            wait,
            tiles.sub(parts[i].to_multiset()),
            stack.push(parts[i]),
        )) by {
            ns.lemma_proposals(tiles, stack, remaining, i);
            lemma_search_contains(wait, tiles.sub(parts[i].to_multiset()), stack.push(parts[i]), (remaining - parts[i].len()) as nat, hand);
        }
        if spec_search(&ns, tiles, stack, remaining).contains(hand) {
            let i = choose|i: int| 0 <= i < parts.len() && (#[trigger] spec_child(&ns, tiles, stack, remaining, parts[i])).contains(hand);
            assert(extends(hand, wait, tiles.sub(parts[i].to_multiset()), stack.push(parts[i])));
        }
        if extends(hand, wait, tiles, stack) {
            let i = choose|i: int| 0 <= i < parts.len() && extends(hand, wait, tiles.sub((#[trigger] parts[i]).to_multiset()), stack.push(parts[i]));
            assert(spec_child(&ns, tiles, stack, remaining, parts[i]).contains(hand));
        }
    }
}

/// A finished stack yields no hand twice.
pub proof fn lemma_leaf_distinct(stack: Seq<Seq<Tile>>, wait: Tile)
    ensures
        stack_hands(stack, wait).no_duplicates(),
{
    let h0 = pair_hand(stack, wait);
    let h1 = group_hand(stack, wait, 0);
    let h2 = group_hand(stack, wait, 1);
    let h3 = group_hand(stack, wait, 2);
    let h4 = group_hand(stack, wait, 3);
    assert forall|x: Hand| (h0 + h1).contains(x) implies x->Normal_3 is None || x->Normal_3 == Some(0u8) by {
        lemma_concat_contains(h0, h1, x);
        if h0.contains(x) {
            assert(h0[0] == x);
        } else {
            assert(h1[0] == x);
        }
    }
    assert forall|x: Hand| (h0 + h1 + h2).contains(x) implies x->Normal_3 is None || x->Normal_3 == Some(0u8) || x->Normal_3 == Some(1u8) by {
        lemma_concat_contains(h0 + h1, h2, x);
        if !(h0 + h1).contains(x) {
            assert(h2[0] == x);
        }
    }
    assert forall|x: Hand| (h0 + h1 + h2 + h3).contains(x) implies x->Normal_3 is None || x->Normal_3 == Some(0u8) || x->Normal_3 == Some(1u8) || x->Normal_3 == Some(2u8) by {
        lemma_concat_contains(h0 + h1 + h2, h3, x);
        if !(h0 + h1 + h2).contains(x) {
            assert(h3[0] == x);
        }
    }
    assert forall|i: int, j: int| 0 <= i < h0.len() && 0 <= j < h1.len() implies h0[i] != h1[j] by {}
    vstd::seq_lib::lemma_no_dup_in_concat(h0, h1);
    assert forall|i: int, j: int| 0 <= i < (h0 + h1).len() && 0 <= j < h2.len() implies (h0 + h1)[i] != h2[j] by {
        assert((h0 + h1).contains((h0 + h1)[i]));
    }
    vstd::seq_lib::lemma_no_dup_in_concat(h0 + h1, h2);
    assert forall|i: int, j: int| 0 <= i < (h0 + h1 + h2).len() && 0 <= j < h3.len() implies (h0 + h1 + h2)[i] != h3[j] by {
        assert((h0 + h1 + h2).contains((h0 + h1 + h2)[i]));
    }
    vstd::seq_lib::lemma_no_dup_in_concat(h0 + h1 + h2, h3);
    assert forall|i: int, j: int| 0 <= i < (h0 + h1 + h2 + h3).len() && 0 <= j < h4.len() implies (h0 + h1 + h2 + h3)[i] != h4[j] by {
        assert((h0 + h1 + h2 + h3).contains((h0 + h1 + h2 + h3)[i]));
    }
    vstd::seq_lib::lemma_no_dup_in_concat(h0 + h1 + h2 + h3, h4);
}

/// The search from a state finds no hand twice.
pub proof fn lemma_search_distinct(wait: Tile, tiles: Multiset<Tile>, stack: Seq<Seq<Tile>>, remaining: nat)
    requires
        normal_admits(tiles, stack, remaining),
    ensures
        spec_search(&NormalSearch(wait), tiles, stack, remaining).no_duplicates(),
    decreases remaining,
{
    let ns = NormalSearch(wait);
    if remaining == 0 {
        lemma_leaf_distinct(stack, wait);
    } else {
        let parts = ns.proposals(tiles, stack, remaining);
        lemma_found_distinct(tiles);
        if remaining > 2 && stack.len() > 0 {
            lemma_filter_distinct(spec_find_groups(tiles), |p: Seq<Tile>| part_le(stack.last(), p));
        }
        assert(parts.no_duplicates());
        assert forall|i: int| 0 <= i < parts.len() implies (#[trigger] spec_child(&ns, tiles, stack, remaining, parts[i])).no_duplicates() by {
            ns.lemma_proposals(tiles, stack, remaining, i);
            lemma_search_distinct(wait, tiles.sub(parts[i].to_multiset()), stack.push(parts[i]), (remaining - parts[i].len()) as nat);
        }
        assert forall|i: int, j: int| 0 <= i < j < parts.len() implies disjoint(
            #[trigger] spec_child(&ns, tiles, stack, remaining, parts[i]),
            #[trigger] spec_child(&ns, tiles, stack, remaining, parts[j]),
        ) by {
            ns.lemma_proposals(tiles, stack, remaining, i);
            ns.lemma_proposals(tiles, stack, remaining, j);
            let a = spec_child(&ns, tiles, stack, remaining, parts[i]);
            let b = spec_child(&ns, tiles, stack, remaining, parts[j]);
            assert forall|x: Hand| !(#[trigger] a.contains(x) && b.contains(x)) by {
                if a.contains(x) && b.contains(x) {
                    lemma_search_contains(wait, tiles.sub(parts[i].to_multiset()), stack.push(parts[i]), (remaining - parts[i].len()) as nat, x);
                    lemma_search_contains(wait, tiles.sub(parts[j].to_multiset()), stack.push(parts[j]), (remaining - parts[j].len()) as nat, x);
                    let k = stack.len() as int;
                    assert(hand_stack(x)[k] == stack.push(parts[i])[k]);
                    assert(hand_stack(x)[k] == stack.push(parts[j])[k]);
                    assert(parts[i] == parts[j]);
                }
            }
        }
        lemma_branches_distinct(&ns, tiles, stack, remaining, parts, parts.len());
    }
}

/// Whether the faces of a list go strictly upwards.
pub open spec fn strictly_ascending(s: Seq<Tile>) -> bool {
    forall|i: int, j: int| 0 <= i < j < s.len() ==> s[i].index() < s[j].index()
}

/// Two lists of strictly ascending faces that hold the same faces are the
/// same list.
pub proof fn lemma_same_faces(a: Seq<Tile>, b: Seq<Tile>)
    requires
        strictly_ascending(a),
        strictly_ascending(b),
        forall|t: Tile| a.contains(t) <==> b.contains(t),
    ensures
        a == b,
{
    broadcast use vstd::seq_lib::group_to_multiset_ensures;
    Tile::index_bijection();
    assert(a.no_duplicates());
    assert(b.no_duplicates());
    a.lemma_multiset_has_no_duplicates();
    b.lemma_multiset_has_no_duplicates();
    assert(a.to_multiset() =~= b.to_multiset());
    lemma_ascending_unique(a, b);
}

/// Whether a hand is the given tiles read as seven different pairs, with
/// the winning tile.
pub open spec fn spec_seven_pairs(tiles: Multiset<Tile>, wait: Tile, hand: Hand) -> bool {
    &&& hand matches Hand::Pairs(pairs, w)
    &&& w == wait
    &&& strictly_ascending(pairs@)
    &&& forall|t: Tile| tiles.count(t) == (if pairs@.contains(t) { 2nat } else { 0 })
}

/// Whether a hand is the given tiles read as one of each terminal and
/// honor and a second of one of them, with the winning tile.
pub open spec fn spec_orphans(tiles: Multiset<Tile>, wait: Tile, hand: Hand) -> bool {
    &&& hand matches Hand::Kokushi(double, w)
    &&& w == wait
    &&& double.spec_is_yaochu()
    &&& forall|t: Tile| tiles.count(t) == (if !t.spec_is_yaochu() { 0nat } else if t == double { 2 } else { 1 })
}

/// Whether a hand is one of the ways to read the given tiles as a winning
/// hand around the winning tile.
pub open spec fn spec_wins(tiles: Multiset<Tile>, wait: Tile, hand: Hand) -> bool {
    spec_standard(tiles, wait, hand) || spec_seven_pairs(tiles, wait, hand) || spec_orphans(tiles, wait, hand)
}

/// The tiles read as seven pairs in one way at most.
pub proof fn lemma_seven_pairs_unique(tiles: Multiset<Tile>, wait: Tile, a: Hand, b: Hand)
    requires
        spec_seven_pairs(tiles, wait, a),
        spec_seven_pairs(tiles, wait, b),
    ensures
        a == b,
{
    let pa = a->Pairs_0;
    let pb = b->Pairs_0;
    assert forall|t: Tile| pa@.contains(t) <==> pb@.contains(t) by {
        assert(tiles.count(t) == (if pa@.contains(t) { 2nat } else { 0 }));
        assert(tiles.count(t) == (if pb@.contains(t) { 2nat } else { 0 }));
    }
    lemma_same_faces(pa@, pb@);
    assert(pa =~= pb);
}

/// The tiles read as thirteen orphans in one way at most.
pub proof fn lemma_orphans_unique(tiles: Multiset<Tile>, wait: Tile, a: Hand, b: Hand)
    requires
        spec_orphans(tiles, wait, a),
        spec_orphans(tiles, wait, b),
    ensures
        a == b,
{
    let da = a->Kokushi_0;
    assert(tiles.count(da) == 2);
}

/// The hand of seven pairs, if the tiles are seven different pairs.
fn find_pairs(tiles: &TileSet, wait: Tile) -> (found: Option<Hand>)
    ensures
        found matches Some(hand) ==> spec_seven_pairs(tiles@, wait, hand),
        found is None ==> forall|hand: Hand| !spec_seven_pairs(tiles@, wait, hand),
{
    let mut pairs: Vec<Tile> = Vec::new();
    let mut i: usize = 0;
    while i < NUM_TILES
        invariant
            i <= NUM_TILES,
            strictly_ascending(pairs@),
            forall|k: int| 0 <= k < pairs@.len() ==> (#[trigger] pairs@[k]).index() < i,
            forall|t: Tile| t.index() < i ==> #[trigger] tiles@.count(t) == (if pairs@.contains(t) { 2nat } else { 0 }),
        decreases NUM_TILES - i,
    {
        if let Some(tile) = Tile::from_index(i) {
            proof {
                Tile::index_bijection();
            }
            let n = tiles.get(tile);
            let ghost before = pairs@;
            if n == 2 {
                pairs.push(tile);
                proof {
                    assert forall|t: Tile| t.index() < i + 1 implies #[trigger] tiles@.count(t) == (if pairs@.contains(t) { 2nat } else { 0 }) by {
                        if t == tile {
                            assert(pairs@[before.len() as int] == t);
                        } else {
                            if before.contains(t) {
                                let k = choose|k: int| 0 <= k < before.len() && before[k] == t;
                                assert(pairs@[k] == t);
                            }
                            if pairs@.contains(t) {
                                let k = choose|k: int| 0 <= k < pairs@.len() && pairs@[k] == t;
                                assert(before[k] == t);
                            }
                        }
                    }
                }
            } else if n != 0 {
                proof {
                    assert forall|hand: Hand| !spec_seven_pairs(tiles@, wait, hand) by {
                        if spec_seven_pairs(tiles@, wait, hand) {
                            assert(tiles@.count(tile) == (if hand->Pairs_0@.contains(tile) { 2nat } else { 0 }));
                        }
                    }
                }
                return None;
            } else {
                proof {
                    assert forall|t: Tile| t.index() < i + 1 implies #[trigger] tiles@.count(t) == (if pairs@.contains(t) { 2nat } else { 0 }) by {
                        if t == tile && pairs@.contains(t) {
                            let k = choose|k: int| 0 <= k < pairs@.len() && pairs@[k] == t;
                            assert(pairs@[k].index() < i);
                        }
                    }
                }
            }
        }
        i = i + 1;
    }
    if pairs.len() != 7 {
        proof {
            assert forall|hand: Hand| !spec_seven_pairs(tiles@, wait, hand) by {
                if spec_seven_pairs(tiles@, wait, hand) {
                    let other = hand->Pairs_0@;
                    assert forall|t: Tile| other.contains(t) <==> pairs@.contains(t) by {
                        assert(tiles@.count(t) == (if other.contains(t) { 2nat } else { 0 }));
                        assert(tiles@.count(t) == (if pairs@.contains(t) { 2nat } else { 0 }));
                    }
                    lemma_same_faces(other, pairs@);
                }
            }
        }
        return None;
    }
    let seven = [pairs[0], pairs[1], pairs[2], pairs[3], pairs[4], pairs[5], pairs[6]];
    proof {
        assert(seven@ =~= pairs@);
    }
    Some(Hand::Pairs(seven, wait))
}

/// The hand of thirteen orphans, if the tiles are one of each terminal
/// and honor and a second of one of them.
fn find_kokushi(tiles: &TileSet, wait: Tile) -> (found: Option<Hand>)
    ensures
        found matches Some(hand) ==> spec_orphans(tiles@, wait, hand),
        found is None ==> forall|hand: Hand| !spec_orphans(tiles@, wait, hand),
{
    let mut double: Option<Tile> = None;
    let mut i: usize = 0;
    while i < NUM_TILES
        invariant
            i <= NUM_TILES,
            double matches Some(d) ==> d.index() < i && d.spec_is_yaochu() && tiles@.count(d) == 2,
            forall|t: Tile| t.index() < i ==> #[trigger] tiles@.count(t) == (if !t.spec_is_yaochu() { 0nat } else if Some(t) == double { 2 } else { 1 }),
        decreases NUM_TILES - i,
    {
        if let Some(tile) = Tile::from_index(i) {
            proof {
                Tile::index_bijection();
            }
            let n = tiles.get(tile);
            let fits = if tile.is_yaochu() {
                n == 1 || (n == 2 && double.is_none())
            } else {
                n == 0
            };
            if !fits {
                proof {
                    assert forall|hand: Hand| !spec_orphans(tiles@, wait, hand) by {
                        if spec_orphans(tiles@, wait, hand) {
                            let d = hand->Kokushi_0;
                            assert(tiles@.count(tile) == (if !tile.spec_is_yaochu() { 0nat } else if tile == d { 2 } else { 1 }));
                            if double is Some {
                                let first = double->0;
                                assert(tiles@.count(first) == (if !first.spec_is_yaochu() { 0nat } else if first == d { 2 } else { 1 }));
                            }
                        }
                    }
                }
                return None;
            }
            if n == 2 {
                double = Some(tile);
            }
        }
        i = i + 1;
    }
    match double {
        Some(tile) => Some(Hand::Kokushi(tile, wait)),
        None => {
            proof {
                assert forall|hand: Hand| !spec_orphans(tiles@, wait, hand) by {
                    if spec_orphans(tiles@, wait, hand) {
                        let d = hand->Kokushi_0;
                        assert(tiles@.count(d) == 1);
                    }
                }
            }
            None
        },
    }
}

/// The search for four groups and a pair from all fourteen tiles finds
/// the ways to read them as four groups and a pair, each once.
pub proof fn lemma_standard_search(tiles: Multiset<Tile>, wait: Tile)
    requires
        tiles.len() == 14,
    ensures
        normal_admits(tiles, Seq::empty(), 14),
        spec_search(&NormalSearch(wait), tiles, Seq::empty(), 14).no_duplicates(),
        forall|hand: Hand| #[trigger] spec_search(&NormalSearch(wait), tiles, Seq::empty(), 14).contains(hand) <==> spec_standard(tiles, wait, hand),
{
    let empty = Seq::<Seq<Tile>>::empty();
    lemma_search_distinct(wait, tiles, empty, 14);
    assert forall|hand: Hand| #[trigger] spec_search(&NormalSearch(wait), tiles, empty, 14).contains(hand) <==> spec_standard(tiles, wait, hand) by {
        lemma_search_contains(wait, tiles, empty, 14, hand);
        if hand is Normal {
            lemma_hand_tiles(hand);
        }
        assert(tiles.add(stack_tiles(empty)) =~= tiles);
    }
}

/// All winning hands that fourteen tiles form around a winning tile: each
/// way to read them as four groups and a pair, with each place that the
/// winning tile can have in it; the seven pairs; the thirteen orphans.
/// The order of the hands is not part of the contract.
pub fn search(tiles: &[Tile], wait: Tile) -> (hands: Vec<Hand>)
    requires
        tiles@.len() == 14,
    ensures
        forall|hand: Hand| hands@.contains(hand) <==> spec_wins(tiles@.to_multiset(), wait, hand),
        hands@.no_duplicates(),
        forall|i: int| 0 <= i < hands@.len() ==> (#[trigger] hands@[i]).wf() && hands@[i].spec_tiles() == sorted_of(tiles@.to_multiset()),
{
    let ghost all = tiles@.to_multiset();
    proof {
        broadcast use vstd::seq_lib::group_to_multiset_ensures;
        lemma_standard_search(all, wait);
    }
    let strategy = NormalSearch(wait);
    let mut bt = Backtrack::from_tiles(tiles, 14);
    let mut result = bt.run(&strategy);
    let ghost standard = result@;
    proof {
        assert(crate::backtrack::items_view::<Hand>(result@) =~= result@);
        assert(standard == spec_search(&NormalSearch(wait), all, Seq::empty(), 14));
    }
    let pairs = find_pairs(&bt.tiles, wait);
    let orphans = find_kokushi(&bt.tiles, wait);
    if let Some(hand) = pairs {
        result.push(hand);
    }
    let ghost middle = result@;
    if let Some(hand) = orphans {
        result.push(hand);
    }
    proof {
        assert forall|hand: Hand| result@.contains(hand) <==> spec_wins(all, wait, hand) by {
            assert(standard.contains(hand) <==> spec_standard(all, wait, hand));
            let more = (if pairs is Some { seq![pairs->0] } else { Seq::empty() }) + (if orphans is Some { seq![orphans->0] } else { Seq::empty() });
            assert(result@ =~= standard + more);
            lemma_concat_contains(standard, more, hand);
            if more.contains(hand) {
                let k = choose|k: int| 0 <= k < more.len() && more[k] == hand;
                assert(spec_seven_pairs(all, wait, hand) || spec_orphans(all, wait, hand));
            }
            if spec_seven_pairs(all, wait, hand) {
                lemma_seven_pairs_unique(all, wait, hand, pairs->0);
                assert(more[0] == hand);
            }
            if spec_orphans(all, wait, hand) {
                lemma_orphans_unique(all, wait, hand, orphans->0);
                assert(more[more.len() - 1] == hand);
            }
        }
        assert(result@.no_duplicates()) by {
            assert forall|i: int, j: int| 0 <= i < j < result@.len() implies result@[i] != result@[j] by {
                if i < standard.len() {
                    assert(standard.contains(result@[i]));
                    assert(result@[i] is Normal);
                    if j < standard.len() {
                        assert(standard[i] != standard[j]);
                    }
                }
            }
        }
        assert forall|i: int| 0 <= i < result@.len() implies (#[trigger] result@[i]).wf() && result@[i].spec_tiles() == sorted_of(all) by {
            assert(result@.contains(result@[i]));
            lemma_round_trip(all, wait, result@[i]);
        }
    }
    result
}

/// The tiles of seven pairs, pair after pair.
pub proof fn lemma_pairs_tiles(tiles: Multiset<Tile>, wait: Tile, hand: Hand)
    requires
        spec_seven_pairs(tiles, wait, hand),
    ensures
        hand.spec_parts().to_multiset() == tiles,
{
    broadcast use vstd::seq_lib::group_to_multiset_ensures;
    Tile::index_bijection();
    let ps = hand->Pairs_0@;
    let e = Seq::<Tile>::empty();
    let parts = hand.spec_parts();
    let built = e.push(ps[0]).push(ps[0]).push(ps[1]).push(ps[1]).push(ps[2]).push(ps[2]).push(ps[3]).push(ps[3]).push(ps[4]).push(ps[4]).push(
        ps[5],
    ).push(ps[5]).push(ps[6]).push(ps[6]);
    assert(parts =~= built);
    assert(e.to_multiset() =~= Multiset::<Tile>::empty());
    assert forall|t: Tile| parts.to_multiset().count(t) == tiles.count(t) by {
        assert(tiles.count(t) == (if ps.contains(t) { 2nat } else { 0 }));
        if ps.contains(t) {
            let k = choose|k: int| 0 <= k < 7 && ps[k] == t;
            assert(forall|j: int| 0 <= j < 7 && j != k ==> ps[j] != t);
        } else {
            assert(forall|j: int| 0 <= j < 7 ==> ps[j] != t);
        }
    }
    assert(parts.to_multiset() =~= tiles);
}

/// The tiles of thirteen orphans.
pub proof fn lemma_orphans_tiles(tiles: Multiset<Tile>, wait: Tile, hand: Hand)
    requires
        spec_orphans(tiles, wait, hand),
    ensures
        hand.spec_parts().to_multiset() == tiles,
{
    broadcast use vstd::seq_lib::group_to_multiset_ensures;
    Tile::index_bijection();
    let d = hand->Kokushi_0;
    let e = Seq::<Tile>::empty();
    let parts = hand.spec_parts();
    let built = e.push(Tile::M1).push(Tile::M9).push(Tile::P1).push(Tile::P9).push(Tile::S1).push(Tile::S9).push(Tile::X1).push(Tile::X2).push(
        Tile::X3,
    ).push(Tile::X4).push(Tile::X5).push(Tile::X6).push(Tile::X7).push(d);
    assert(yaochu_faces().push(d) =~= built);
    assert(e.to_multiset() =~= Multiset::<Tile>::empty());
    assert forall|t: Tile| parts.to_multiset().count(t) == tiles.count(t) by {
        assert(tiles.count(t) == (if !t.spec_is_yaochu() { 0nat } else if t == d { 2 } else { 1 }));
    }
    assert(parts.to_multiset() =~= tiles);
}

/// The tiles of each winning hand, in ascending order, are the given
/// tiles in ascending order.
pub proof fn lemma_round_trip(tiles: Multiset<Tile>, wait: Tile, hand: Hand)
    requires
        spec_wins(tiles, wait, hand),
    ensures
        hand.wf(),
        hand.spec_parts().to_multiset() == tiles,
        hand.spec_tiles() == sorted_of(tiles),
{
    if spec_seven_pairs(tiles, wait, hand) {
        lemma_pairs_tiles(tiles, wait, hand);
    } else if spec_orphans(tiles, wait, hand) {
        lemma_orphans_tiles(tiles, wait, hand);
    }
}

/// Two searches of the same tiles around the same winning tile give the
/// same set of hands.
pub proof fn lemma_search_deterministic(tiles: Seq<Tile>, wait: Tile, first: Seq<Hand>, second: Seq<Hand>)
    requires
        forall|hand: Hand| first.contains(hand) <==> spec_wins(tiles.to_multiset(), wait, hand),
        forall|hand: Hand| second.contains(hand) <==> spec_wins(tiles.to_multiset(), wait, hand),
    ensures
        first.to_set() == second.to_set(),
{
    assert forall|hand: Hand| first.to_set().contains(hand) <==> second.to_set().contains(hand) by {
        assert(first.contains(hand) <==> spec_wins(tiles.to_multiset(), wait, hand));
        assert(second.contains(hand) <==> spec_wins(tiles.to_multiset(), wait, hand));
    }
    assert(first.to_set() =~= second.to_set());
}

/// Whether a face completes thirteen tiles to a winning hand.
pub open spec fn spec_waits_for(tiles: Seq<Tile>, wait: Tile) -> bool {
    exists|hand: Hand| spec_wins(tiles.push(wait).to_multiset(), wait, hand)
}

/// Whether a list is the list of the faces that complete thirteen tiles
/// to a winning hand, in ascending order.
pub open spec fn is_all_waits(tiles: Seq<Tile>, waits: Seq<Tile>) -> bool {
    strictly_ascending(waits) && forall|wait: Tile| waits.contains(wait) <==> spec_waits_for(tiles, wait)
}

/// The faces that complete thirteen tiles to a winning hand, in
/// ascending order.
pub open spec fn spec_all_waits(tiles: Seq<Tile>) -> Seq<Tile> {
    choose|waits: Seq<Tile>| is_all_waits(tiles, waits)
}

/// There is one list of the faces that complete thirteen tiles.
pub proof fn lemma_all_waits(tiles: Seq<Tile>, waits: Seq<Tile>)
    requires
        is_all_waits(tiles, waits),
    ensures
        spec_all_waits(tiles) == waits,
{
    let other = spec_all_waits(tiles);
    assert(is_all_waits(tiles, other));
    assert forall|t: Tile| other.contains(t) <==> waits.contains(t) by {
        assert(other.contains(t) <==> spec_waits_for(tiles, t));
        assert(waits.contains(t) <==> spec_waits_for(tiles, t));
    }
    lemma_same_faces(other, waits);
}

/// The faces that complete thirteen tiles to a winning hand, in
/// ascending order.
pub fn find_all_waits(tiles: &[Tile]) -> (waits: Vec<Tile>)
    requires
        tiles@.len() == 13,
    ensures
        waits@ == spec_all_waits(tiles@),
        strictly_ascending(waits@),
        forall|wait: Tile| waits@.contains(wait) <==> spec_waits_for(tiles@, wait),
{
    let mut result: Vec<Tile> = Vec::new();
    let mut hand: Vec<Tile> = Vec::new();
    let mut k: usize = 0;
    while k < tiles.len()
        invariant
            k <= tiles@.len(),
            hand@ == tiles@.subrange(0, k as int),
        decreases tiles@.len() - k,
    {
        hand.push(tiles[k]);
        proof {
            assert(hand@ =~= tiles@.subrange(0, k + 1));
        }
        k = k + 1;
    }
    proof {
        assert(hand@ =~= tiles@);
    }
    let mut i: usize = 0;
    while i < NUM_TILES
        invariant
            i <= NUM_TILES,
            hand@ == tiles@,
            tiles@.len() == 13,
            strictly_ascending(result@),
            forall|k: int| 0 <= k < result@.len() ==> (#[trigger] result@[k]).index() < i,
            forall|wait: Tile| wait.index() < i ==> (result@.contains(wait) <==> #[trigger] spec_waits_for(tiles@, wait)),
        decreases NUM_TILES - i,
    {
        if let Some(wait) = Tile::from_index(i) {
            proof {
                Tile::index_bijection();
            }
            hand.push(wait);
            let hands = search(hand.as_slice(), wait);
            hand.pop();
            proof {
                assert(hand@ =~= tiles@);
                if hands@.len() > 0 {
                    assert(hands@.contains(hands@[0]));
                    assert(spec_waits_for(tiles@, wait));
                } else {
                    assert forall|h: Hand| !spec_wins(tiles@.push(wait).to_multiset(), wait, h) by {
                        if spec_wins(tiles@.push(wait).to_multiset(), wait, h) {
                            assert(hands@.contains(h));
                        }
                    }
                }
            }
            let ghost before = result@;
            if hands.len() > 0 {
                result.push(wait);
            }
            proof {
                assert forall|w: Tile| w.index() < i + 1 implies (result@.contains(w) <==> #[trigger] spec_waits_for(tiles@, w)) by {
                    if before.contains(w) {
                        let k = choose|k: int| 0 <= k < before.len() && before[k] == w;
                        assert(result@[k] == w);
                    }
                    if result@.contains(w) {
                        let k = choose|k: int| 0 <= k < result@.len() && result@[k] == w;
                        if k < before.len() {
                            assert(before[k] == w);
                        }
                    }
                    if w == wait && hands@.len() > 0 {
                        assert(result@[before.len() as int] == w);
                    }
                }
            }
        }
        i = i + 1;
    }
    proof {
        Tile::index_bijection();
        lemma_all_waits(tiles@, result@);
    }
    result
}

/// Each face that is found to complete thirteen tiles gives a search of
/// the fourteen tiles that is not empty.
pub proof fn lemma_waits_win(tiles: Seq<Tile>, waits: Seq<Tile>, wait: Tile, hands: Seq<Hand>)
    requires
        forall|w: Tile| waits.contains(w) <==> spec_waits_for(tiles, w),
        forall|hand: Hand| hands.contains(hand) <==> spec_wins(tiles.push(wait).to_multiset(), wait, hand),
        waits.contains(wait),
    ensures
        hands.len() > 0,
{
    assert(spec_waits_for(tiles, wait));
    let hand = choose|hand: Hand| spec_wins(tiles.push(wait).to_multiset(), wait, hand);
    assert(hands.contains(hand));
}

/// Seven different faces, each held twice, are found as seven pairs in
/// exactly one way: a search of them holds one hand of seven pairs, the
/// seven faces in ascending order with the winning tile.
pub proof fn lemma_pairs_once(tiles: Seq<Tile>, wait: Tile, pairs: [Tile; 7], hands: Seq<Hand>)
    requires
        strictly_ascending(pairs@),
        forall|t: Tile| tiles.to_multiset().count(t) == (if pairs@.contains(t) { 2nat } else { 0 }),
        forall|hand: Hand| hands.contains(hand) <==> spec_wins(tiles.to_multiset(), wait, hand),
        hands.no_duplicates(),
    ensures
        hands.contains(Hand::Pairs(pairs, wait)),
        forall|i: int| 0 <= i < hands.len() && #[trigger] hands[i] is Pairs ==> hands[i] == Hand::Pairs(pairs, wait),
        forall|i: int, j: int| 0 <= i < hands.len() && 0 <= j < hands.len() && hands[i] is Pairs && hands[j] is Pairs ==> i == j,
{
    let all = tiles.to_multiset();
    let found = Hand::Pairs(pairs, wait);
    assert(spec_seven_pairs(all, wait, found));
    assert(spec_wins(all, wait, found));
    assert forall|i: int| 0 <= i < hands.len() && #[trigger] hands[i] is Pairs implies hands[i] == found by {
        assert(hands.contains(hands[i]));
        assert(spec_wins(all, wait, hands[i]));
        assert(spec_seven_pairs(all, wait, hands[i]));
        lemma_seven_pairs_unique(all, wait, hands[i], found);
    }
}

/// One of each terminal and honor and a second of one of them are found
/// as thirteen orphans in exactly one way: a search of them holds one
/// hand of thirteen orphans, with the face that is held twice and the
/// winning tile.
pub proof fn lemma_orphans_once(tiles: Seq<Tile>, wait: Tile, double: Tile, hands: Seq<Hand>)
    requires
        double.spec_is_yaochu(),
        forall|t: Tile| tiles.to_multiset().count(t) == (if !t.spec_is_yaochu() { 0nat } else if t == double { 2 } else { 1 }),
        forall|hand: Hand| hands.contains(hand) <==> spec_wins(tiles.to_multiset(), wait, hand),
        hands.no_duplicates(),
    ensures
        hands.contains(Hand::Kokushi(double, wait)),
        forall|i: int| 0 <= i < hands.len() && #[trigger] hands[i] is Kokushi ==> hands[i] == Hand::Kokushi(double, wait),
        forall|i: int, j: int| 0 <= i < hands.len() && 0 <= j < hands.len() && hands[i] is Kokushi && hands[j] is Kokushi ==> i == j,
{
    let all = tiles.to_multiset();
    let found = Hand::Kokushi(double, wait);
    assert(spec_orphans(all, wait, found));
    assert(spec_wins(all, wait, found));
    assert forall|i: int| 0 <= i < hands.len() && #[trigger] hands[i] is Kokushi implies hands[i] == found by {
        assert(hands.contains(hands[i]));
        assert(spec_wins(all, wait, hands[i]));
        assert(spec_orphans(all, wait, hands[i]));
        lemma_orphans_unique(all, wait, hands[i], found);
    }
}

} // verus!
