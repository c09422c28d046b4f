use minefield_core::hand::Group::{Chi, Pon};
use minefield_core::hand::Hand;
use minefield_core::search::{find_all_waits, search};
use minefield_core::tiles::Tile::{
    M1, M2, M3, M4, M5, M6, M7, M8, M9, P1, P2, P3, P4, P5, P6, P7, P8, P9, S1, S2, S3, S4, S5, S6,
    S7, S9, X1, X2, X3, X4, X5, X6, X7,
};

#[test]
fn it_works() {
    assert_eq!(2 + 2, 4);
}

#[test]
fn test_find_all() {
    let results = search(
        &[M1, M1, M2, M2, M3, M3, X1, X1, X1, X2, X2, X2, P5, P5],
        M1,
    );
    assert_eq!(
        results,
        vec![Hand::Normal(
            P5,
            [Chi(M1), Chi(M1), Pon(X1), Pon(X2)],
            M1,
            Some(0)
        ),]
    );
}

#[test]
fn test_pairs() {
    let results = search(
        &[M1, M1, M3, M3, M5, M5, M7, M7, M9, M9, S1, S1, S2, S2],
        M1,
    );
    assert_eq!(results, vec![Hand::Pairs([M1, M3, M5, M7, M9, S1, S2], M1)]);
}

#[test]
fn test_ryanpeiko() {
    let results = search(
        &[M1, M1, M2, M2, M3, M3, P1, P1, P2, P2, P3, P3, X1, X1],
        M1,
    );
    assert_eq!(
        results,
        vec![
            Hand::Normal(X1, [Chi(M1), Chi(M1), Chi(P1), Chi(P1)], M1, Some(0)),
            Hand::Pairs([M1, M2, M3, P1, P2, P3, X1], M1),
        ]
    );
}

#[test]
fn search_test_kokushi() {
    let results = search(
        &[M1, M9, P1, P9, S1, S9, S9, X1, X2, X3, X4, X5, X6, X7],
        M1,
    );
    assert_eq!(results, vec![Hand::Kokushi(S9, M1)]);
}

#[test]
fn search_gives_each_place_of_the_winning_tile() {
    // the winning tile can have completed the triplet or the run
    let results = search(
        &[P1, P2, P3, P3, P3, P3, S2, S2, S5, S6, S7, S9, S9, S9],
        P3,
    );
    let groups = [Chi(P1), Pon(P3), Chi(S5), Pon(S9)];
    assert_eq!(
        results,
        vec![
            Hand::Normal(S2, groups, P3, Some(0)),
            Hand::Normal(S2, groups, P3, Some(1)),
        ]
    );
}

#[test]
fn search_pair_wait_and_no_hand() {
    let results = search(
        &[M1, M2, M3, P1, P2, P3, S1, S2, S3, S4, S5, S6, S7, S7],
        S7,
    );
    assert_eq!(
        results,
        vec![Hand::Normal(S7, [Chi(M1), Chi(P1), Chi(S1), Chi(S4)], S7, None)]
    );
    let nothing = search(
        &[M1, M2, M3, P1, P2, P3, S1, S2, S3, S4, S5, S6, S7, X1],
        X1,
    );
    assert!(nothing.is_empty());
}

#[test]
fn hands_give_back_the_sorted_tiles() {
    let tiles = [S7, S7, M3, M2, M1, P3, P2, P1, S6, S5, S4, S3, S2, S1];
    let sorted = vec![M1, M2, M3, P1, P2, P3, S1, S2, S3, S4, S5, S6, S7, S7];
    let hands = search(&tiles, S6);
    assert!(!hands.is_empty());
    for hand in hands.iter() {
        assert_eq!(hand.tiles(), sorted);
    }
    let pairs = search(
        &[S2, S2, S1, S1, M9, M9, M7, M7, M5, M5, M3, M3, M1, M1],
        M1,
    );
    assert_eq!(pairs.len(), 1);
    assert_eq!(
        pairs[0].tiles(),
        vec![M1, M1, M3, M3, M5, M5, M7, M7, M9, M9, S1, S1, S2, S2]
    );
    let orphans = search(
        &[X7, X6, X5, X4, X3, X2, X1, S9, S9, S1, P9, P1, M9, M1],
        M1,
    );
    assert_eq!(orphans.len(), 1);
    assert_eq!(
        orphans[0].tiles(),
        vec![M1, M9, P1, P9, S1, S9, S9, X1, X2, X3, X4, X5, X6, X7]
    );
}

#[test]
fn search_twice_gives_the_same_hands() {
    let tiles = [P2, P2, P3, P3, P4, P4, P5, P5, P6, P6, P7, P7, P8, P8];
    let first = search(&tiles, P7);
    let second = search(&tiles, P7);
    assert_eq!(first.len(), 4);
    for hand in first.iter() {
        assert!(second.contains(hand));
    }
    for hand in second.iter() {
        assert!(first.contains(hand));
    }
    for (i, hand) in first.iter().enumerate() {
        assert!(!first[..i].contains(hand));
    }
}

#[test]
fn waits_are_ascending_and_each_one_wins() {
    // a nine-sided wait
    let tiles = [M1, M1, M1, M2, M3, M4, M5, M6, M7, M8, M9, M9, M9];
    let waits = find_all_waits(&tiles);
    assert_eq!(waits, vec![M1, M2, M3, M4, M5, M6, M7, M8, M9]);
    for wait in waits.iter() {
        let mut full = tiles.to_vec();
        full.push(*wait);
        assert!(!search(&full, *wait).is_empty());
    }
    // thirteen orphans wait for each of the thirteen
    let orphans = [M1, M9, P1, P9, S1, S9, X1, X2, X3, X4, X5, X6, X7];
    assert_eq!(
        find_all_waits(&orphans),
        vec![M1, M9, P1, P9, S1, S9, X1, X2, X3, X4, X5, X6, X7]
    );
    // no wait at all
    let nothing = [M1, M4, M7, P1, P4, P7, S1, S4, S7, X1, X2, X3, X4];
    assert!(find_all_waits(&nothing).is_empty());
}

#[test]
fn open_wait_shape_has_fu_30_and_middle_wait_40() {
    let tiles = [M1, M2, M3, P1, P2, P3, S1, S2, S3, S4, S5, S6, S7, S7];
    let open = search(&tiles, S6);
    assert_eq!(
        open,
        vec![Hand::Normal(S7, [Chi(M1), Chi(P1), Chi(S1), Chi(S4)], S6, Some(3))]
    );
    assert_eq!(minefield_core::fu::fu(&open[0], X1), 30);
    let middle = search(&tiles, S5);
    assert_eq!(middle.len(), 1);
    assert_eq!(minefield_core::fu::fu(&middle[0], X1), 40);
}

#[test]
fn seven_pairs_are_one_hand_and_no_standard_hand() {
    let results = search(
        &[M1, M1, M3, M3, M5, M5, M7, M7, M9, M9, S1, S1, S2, S2],
        M1,
    );
    assert_eq!(results.len(), 1);
    assert!(matches!(results[0], Hand::Pairs(_, _)));
    assert!(!results.iter().any(|hand| matches!(hand, Hand::Normal(_, _, _, _))));
}

#[test]
fn thirteen_orphans_with_a_thirteenth_face_as_wait() {
    // twelve faces, one of them twice, and the missing face as winning tile
    let results = search(
        &[M1, M9, P1, P9, S1, S9, X1, X2, X3, X4, X5, X5, X6, X7],
        X7,
    );
    assert_eq!(results, vec![Hand::Kokushi(X5, X7)]);
}
