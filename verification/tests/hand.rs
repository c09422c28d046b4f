use minefield_core::backtrack::{part_before, Backtrack, BacktrackStrategy};
use minefield_core::bot::BotSearch;
use minefield_core::hand::Group::{Chi, Pon};
use minefield_core::hand::{Group, Hand};
use minefield_core::search::NormalSearch;
use minefield_core::tiles::Suit;
use minefield_core::tiles::Tile::{
    M1, M2, M3, M4, M5, M6, M7, M8, M9, P1, P2, P3, P5, P7, P9, S1, S2, S3, S5, S7, S8, S9, X1,
    X2, X3, X4, X5, X6, X7,
};

#[test]
fn kinds_of_groups() {
    assert!(Pon(M1).is_pon() && !Pon(M1).is_chi());
    assert!(Chi(M1).is_chi() && !Chi(M1).is_pon());
    assert!(Pon(M1).has_terminal() && Pon(M1).has_yaochu() && !Pon(M1).has_honor());
    assert!(!Pon(M5).has_terminal() && !Pon(M5).has_yaochu());
    assert!(Pon(X1).has_honor() && Pon(X1).has_yaochu() && !Pon(X1).has_terminal());
    assert!(Chi(P1).has_terminal() && Chi(P7).has_terminal());
    assert!(Chi(P1).has_yaochu() && Chi(P7).has_yaochu());
    assert!(!Chi(P2).has_terminal() && !Chi(S5).has_yaochu());
    assert!(!Chi(P1).has_honor());
    assert_eq!(Pon(X5).suit(), Suit::Honor);
    assert_eq!(Chi(S5).suit(), Suit::Sou);
    assert!(Chi(M3).holds(M3) && Chi(M3).holds(M4) && Chi(M3).holds(M5));
    assert!(!Chi(M3).holds(M2) && !Chi(M3).holds(M6) && !Chi(M7).holds(P1));
    assert!(Pon(M3).holds(M3) && !Pon(M3).holds(M4));
}

#[test]
fn groups_of_tiles() {
    assert_eq!(Group::from_tiles(&[M1, M1, M1]), Some(Pon(M1)));
    assert_eq!(Group::from_tiles(&[X7, X7, X7]), Some(Pon(X7)));
    assert_eq!(Group::from_tiles(&[M7, M8, M9]), Some(Chi(M7)));
    assert_eq!(Group::from_tiles(&[M8, M9, P1]), None);
    assert_eq!(Group::from_tiles(&[M9, P1, P2]), None);
    assert_eq!(Group::from_tiles(&[X1, X2, X3]), None);
    assert_eq!(Group::from_tiles(&[M1, M3, M2]), None);
    assert_eq!(Group::from_tiles(&[M1, M1]), None);
    assert_eq!(Group::from_tiles(&[M1, M1, M1, M1]), None);
    let mut tiles = vec![X1];
    Pon(M2).add_to(&mut tiles);
    Chi(S7).add_to(&mut tiles);
    assert_eq!(tiles, vec![X1, M2, M2, M2, S7, S8, S9]);
}

#[test]
fn open_waits() {
    // the low end, but not of 7-8-9
    assert!(Chi(M2).is_open_wait(M2));
    assert!(Chi(M1).is_open_wait(M1));
    assert!(!Chi(M7).is_open_wait(M7));
    // the high end, but not of 1-2-3
    assert!(Chi(M2).is_open_wait(M4));
    assert!(Chi(M7).is_open_wait(M9));
    assert!(!Chi(M1).is_open_wait(M3));
    // the middle, and triplets
    assert!(!Chi(M2).is_open_wait(M3));
    assert!(!Pon(M2).is_open_wait(M2));
    assert!(!Chi(S1).is_open_wait(S3) && !Chi(P7).is_open_wait(P7));
}

#[test]
fn order_of_groups() {
    assert!(Pon(M1) < Chi(M1));
    assert!(Chi(M1) < Pon(M2));
    assert!(Pon(M9) < Pon(P1));
    assert!(Chi(S7) < Pon(X1));
    assert!(Pon(M1) <= Pon(M1) && Pon(M1) >= Pon(M1));
    assert!(!(Chi(M1) < Pon(M1)));
    assert_eq!(Pon(M1).rank(), 0);
    assert_eq!(Chi(M1).rank(), 1);
    assert_eq!(Pon(X7).rank(), 66);
    // the order of the parts that the search takes
    assert!(part_before(&vec![M1, M1, M1], &vec![M1, M2, M3]));
    assert!(part_before(&vec![M1, M2, M3], &vec![M2, M2, M2]));
    assert!(part_before(&vec![M1, M2, M3], &vec![M1, M2, M3]));
    assert!(!part_before(&vec![M2, M2], &vec![M1, M2, M3]));
    assert!(part_before(&vec![M1], &vec![M1, M1]));
    assert!(!part_before(&vec![M1, M1], &vec![M1]));
    assert!(part_before(&vec![], &vec![M1]));
}

#[test]
fn suits_of_hands() {
    let honitsu = Hand::Normal(X5, [Chi(M2), Chi(M5), Pon(M8), Pon(M9)], X5, None);
    assert_eq!(honitsu.suits(), 3);
    let chinitsu = Hand::Normal(M9, [Chi(M1), Chi(M1), Chi(M4), Chi(M7)], M9, None);
    assert_eq!(chinitsu.suits(), 2);
    let all = Hand::Normal(X1, [Chi(M1), Chi(P1), Chi(S1), Pon(X2)], X1, None);
    assert_eq!(all.suits(), 15);
    let pin_and_sou = Hand::Pairs([P1, P2, P3, P7, S1, S2, S3], P1);
    assert_eq!(pin_and_sou.suits(), 12);
    assert_eq!(Hand::Kokushi(M1, M1).suits(), 15);
}

#[test]
fn tiles_of_hands() {
    let hand = Hand::Normal(X1, [Chi(M7), Pon(P9), Chi(S1), Pon(X2)], S2, Some(2));
    assert_eq!(
        hand.tiles(),
        vec![M7, M8, M9, P9, P9, P9, S1, S2, S3, X1, X1, X2, X2, X2]
    );
    let pairs = Hand::Pairs([M1, M3, M5, P1, S5, X4, X7], X7);
    assert_eq!(
        pairs.tiles(),
        vec![M1, M1, M3, M3, M5, M5, P1, P1, S5, S5, X4, X4, X7, X7]
    );
    let orphans = Hand::Kokushi(X3, M1);
    assert_eq!(
        orphans.tiles(),
        vec![M1, M9, P1, P9, S1, S9, X1, X2, X3, X3, X4, X5, X6, X7]
    );
}

fn parts(lists: &[&[minefield_core::tiles::Tile]]) -> Vec<Vec<minefield_core::tiles::Tile>> {
    lists.iter().map(|list| list.to_vec()).collect()
}

#[test]
fn parts_that_are_found() {
    let bt = Backtrack::from_tiles(&[M1, M1, M1, M2, M3, M4, M9, P1, P2, X1, X1], 11);
    assert_eq!(
        bt.find_groups(),
        parts(&[&[M1, M1, M1], &[M1, M2, M3], &[M2, M3, M4]])
    );
    assert_eq!(bt.find_pairs(), parts(&[&[M1, M1], &[X1, X1]]));
    assert_eq!(
        bt.find_single(),
        parts(&[&[M1], &[M2], &[M3], &[M4], &[M9], &[P1], &[P2], &[X1]])
    );
    assert_eq!(
        bt.find_incomplete_groups(),
        parts(&[
            &[M1, M1],
            &[M1, M2],
            &[M1, M3],
            &[M2, M3],
            &[M2, M4],
            &[M3, M4],
            &[P1, P2],
            &[X1, X1]
        ])
    );
    // runs do not go round the end of a suit, nor through the honors
    let edge = Backtrack::from_tiles(&[M8, M9, P1, P2, X1, X2, X3], 7);
    assert!(edge.find_groups().is_empty());
    assert_eq!(
        edge.find_incomplete_groups(),
        parts(&[&[M8, M9], &[P1, P2]])
    );
    assert!(Backtrack::from_tiles(&[], 0).find_single().is_empty());
}

#[test]
fn filter_keeps_what_does_not_come_before_the_last_part() {
    let mut bt = Backtrack::from_tiles(&[M1, M1, M1, M2, M3, M4], 6);
    let all = bt.find_groups();
    assert_eq!(bt.filter(all.clone()), all);
    bt.stack.push(vec![M1, M2, M3]);
    assert_eq!(
        bt.filter(all.clone()),
        parts(&[&[M1, M2, M3], &[M2, M3, M4]])
    );
    bt.stack.push(vec![M2, M3, M4]);
    assert_eq!(bt.filter(all.clone()), parts(&[&[M2, M3, M4]]));
    bt.stack.push(vec![P1, P1, P1]);
    assert!(bt.filter(all).is_empty());
}

#[test]
fn run_leaves_the_state_as_it_was() {
    let tiles = [M1, M1, M2, M2, M3, M3, X1, X1, X1, X2, X2, X2, P5, P5];
    let mut bt = Backtrack::from_tiles(&tiles, 14);
    let hands = bt.run(&NormalSearch(M1));
    assert_eq!(
        hands,
        vec![Hand::Normal(
            P5,
            [Chi(M1), Chi(M1), Pon(X1), Pon(X2)],
            M1,
            Some(0)
        )]
    );
    assert!(bt.stack.is_empty());
    assert_eq!(bt.remaining, 14);
    assert_eq!(bt.tiles.get(M1), 2);
    assert_eq!(bt.tiles.get(X1), 3);
    assert_eq!(bt.tiles.get(P5), 2);
    // once more, with the same result
    let mut again = vec![];
    bt.go(&NormalSearch(M1), &mut again);
    assert_eq!(again, hands);
}

#[test]
fn strategies_of_the_bot() {
    let mut bt = Backtrack::from_tiles(&[M1, M2, M3, M4, M5, M6, M7, M8, M9, P1, P1, P1, X1], 13);
    assert_eq!(
        bt.run(&BotSearch::Normal4),
        parts(&[&[M1, M2, M3, M4, M5, M6, M7, M8, M9, P1, P1, P1, X1]])
    );
    assert!(bt.run(&BotSearch::Pairs).is_empty());
    assert!(bt.run(&BotSearch::Kokushi).is_empty());
    // three groups, two tiles of a fourth and a pair
    let three = bt.run(&BotSearch::Normal3);
    assert!(three.contains(&vec![M1, M2, M3, M4, M5, M6, P1, P1, P1, M7, M8, M9, M9]) == false);
    assert!(three.contains(&vec![M1, M2, M3, M4, M5, M6, M7, M8, M9, P1, P1, P1, P1]) == false);
    for part in three.iter() {
        assert_eq!(part.len(), 13);
    }
    let mut orphans = Backtrack::from_tiles(&[M1, M9, P1, P9, S1, S9, X1, X2, X3, X4, X5, X6, X7], 13);
    assert_eq!(
        orphans.run(&BotSearch::Kokushi),
        parts(&[&[M1, M9, P1, P9, S1, S9, X1, X2, X3, X4, X5, X6, X7]])
    );
    let strategy = BotSearch::Normal4;
    let first = strategy.generate(&bt);
    assert_eq!(
        first,
        parts(&[
            &[M1, M2, M3],
            &[M2, M3, M4],
            &[M3, M4, M5],
            &[M4, M5, M6],
            &[M5, M6, M7],
            &[M6, M7, M8],
            &[M7, M8, M9],
            &[P1, P1, P1]
        ])
    );
}
