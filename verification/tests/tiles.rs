use minefield_core::tiles::Tile::{
    M1, M2, M3, M4, M5, M6, M7, M8, M9, P1, P2, P3, P5, P8, P9, S1, S2, S3, S4, S5, S6, S7, S8,
    S9, X1, X2, X3, X4, X5, X6, X7,
};
use minefield_core::tiles::{sort_tiles, Suit, Tile, TileSet, NUM_TILES};

fn all_faces() -> Vec<Tile> {
    let mut faces = vec![];
    let mut walk = Tile::all();
    while let Some(face) = walk.next() {
        faces.push(face);
    }
    faces
}

#[test]
fn faces_in_order() {
    let faces = all_faces();
    assert_eq!(faces.len(), NUM_TILES);
    assert_eq!(faces[0], M1);
    assert_eq!(faces[8], M9);
    assert_eq!(faces[9], P1);
    assert_eq!(faces[26], S9);
    assert_eq!(faces[27], X1);
    assert_eq!(faces[33], X7);
    for (i, face) in faces.iter().enumerate() {
        assert_eq!(face.index(), i);
        assert_eq!(Tile::from_index(i), Some(*face));
    }
    assert_eq!(Tile::from_index(34), None);
    assert_eq!(Tile::from_index(usize::MAX), None);
    let mut sorted = faces.clone();
    sorted.sort();
    assert_eq!(sorted, faces);
    assert!(M9 < P1 && S9 < X1 && X4 < X5);
}

#[test]
fn kinds_of_faces() {
    let terminals = [M1, M9, P1, P9, S1, S9];
    let greens = [S2, S3, S4, S6, S8, X6];
    for face in all_faces() {
        assert_eq!(face.is_terminal(), terminals.contains(&face));
        assert_eq!(face.is_honor(), face >= X1);
        assert_eq!(face.is_yaochu(), face.is_terminal() || face.is_honor());
        assert_eq!(face.is_green(), greens.contains(&face));
    }
    assert!(X5.is_yakuhai(X1) && X6.is_yakuhai(X1) && X7.is_yakuhai(X1));
    assert!(X1.is_yakuhai(X1) && X3.is_yakuhai(X3));
    assert!(!X2.is_yakuhai(X1) && !M1.is_yakuhai(X1));
    assert_eq!(M5.suit(), Suit::Man);
    assert_eq!(P1.suit(), Suit::Pin);
    assert_eq!(S9.suit(), Suit::Sou);
    assert_eq!(X1.suit(), Suit::Honor);
    assert_eq!(X7.suit(), Suit::Honor);
    assert_eq!(Suit::Honor.bit(), 1);
    assert_eq!(Suit::Man.bit(), 2);
    assert_eq!(Suit::Pin.bit(), 4);
    assert_eq!(Suit::Sou.bit(), 8);
}

#[test]
fn next_faces() {
    for face in all_faces() {
        let last = [M9, P9, S9].contains(&face) || face.is_honor();
        assert_eq!(face.has_next(), !last);
        if face.has_next() {
            assert_eq!(face.next().index(), face.index() + 1);
            assert_eq!(face.next_wrap(), face.next());
        }
    }
    assert_eq!(M9.next_wrap(), M1);
    assert_eq!(P9.next_wrap(), P1);
    assert_eq!(S9.next_wrap(), S1);
    assert_eq!(X1.next_wrap(), X2);
    assert_eq!(X4.next_wrap(), X1);
    assert_eq!(X5.next_wrap(), X6);
    assert_eq!(X7.next_wrap(), X5);
}

#[test]
fn three_suits_and_straights() {
    assert!(Tile::sanshoku(M3, P3, S3));
    assert!(Tile::sanshoku(M9, P9, S9));
    assert!(!Tile::sanshoku(P3, S3, M3));
    assert!(!Tile::sanshoku(M3, P3, S4));
    assert!(!Tile::sanshoku(M3, M3, M3));
    assert!(Tile::itsuu(M1, M4, M7));
    assert!(Tile::itsuu(S1, S4, S7));
    assert!(!Tile::itsuu(M2, M5, M8));
    assert!(!Tile::itsuu(M1, M4, M8));
    assert!(!Tile::itsuu(X1, X4, X7));
}

#[test]
fn codes_of_faces() {
    assert_eq!(&M1.code(), b"M1");
    assert_eq!(&M9.code(), b"M9");
    assert_eq!(&P5.code(), b"P5");
    assert_eq!(&S9.code(), b"S9");
    assert_eq!(&X1.code(), b"X1");
    assert_eq!(&X7.code(), b"X7");
    let mut seen = vec![];
    for face in all_faces() {
        let code = face.code();
        assert_eq!(Tile::from_code(&code), Some(face));
        assert!(!seen.contains(&code));
        seen.push(code);
    }
    assert_eq!(Tile::from_code(b"M0"), None);
    assert_eq!(Tile::from_code(b"X8"), None);
    assert_eq!(Tile::from_code(b"X9"), None);
    assert_eq!(Tile::from_code(b"Z1"), None);
    assert_eq!(Tile::from_code(b"m1"), None);
    assert_eq!(Tile::from_code(b"M"), None);
    assert_eq!(Tile::from_code(b"M10"), None);
    assert_eq!(Tile::from_code(b""), None);
}

#[test]
fn tile_set_counts() {
    let mut set = TileSet::empty();
    for face in all_faces() {
        assert_eq!(set.get(face), 0);
    }
    set.add(M1, 2);
    set.add(X7, 1);
    set.add(M1, -1);
    assert_eq!(set.get(M1), 1);
    assert_eq!(set.get(X7), 1);
    assert_eq!(set.get(M2), 0);
    set.add_all(&[M1, M2, M2], 2);
    assert_eq!(set.get(M1), 3);
    assert_eq!(set.get(M2), 4);
    set.add_all(&[M2, M2], -1);
    assert_eq!(set.get(M2), 2);
    set.add_all(&[], -5);
    assert_eq!(set.get(M2), 2);
    let made = TileSet::make(&[P1, S1, P1, X1, P1]);
    assert_eq!(made.get(P1), 3);
    assert_eq!(made.get(S1), 1);
    assert_eq!(made.get(X1), 1);
    assert_eq!(made.get(P2), 0);
}

#[test]
fn tile_set_distinct_and_contains() {
    let set = TileSet::make(&[S9, M3, M3, X2, P8, M3]);
    let mut faces = vec![];
    let mut walk = set.distinct();
    while let Some(face) = walk.next() {
        faces.push(face);
    }
    assert_eq!(faces, vec![M3, P8, S9, X2]);
    assert_eq!(walk.next(), None);
    let empty = TileSet::empty();
    let mut none = empty.distinct();
    assert_eq!(none.next(), None);
    assert!(set.contains(&TileSet::empty()));
    assert!(set.contains(&set));
    assert!(set.contains(&TileSet::make(&[M3, M3, X2])));
    assert!(!set.contains(&TileSet::make(&[M3, M3, M3, M3])));
    assert!(!set.contains(&TileSet::make(&[M4])));
    assert!(!TileSet::empty().contains(&set));
}

#[test]
fn sorting_tiles() {
    assert_eq!(sort_tiles(&[]), vec![]);
    assert_eq!(
        sort_tiles(&[X7, M1, S5, M1, P9, X1, M2]),
        vec![M1, M1, M2, P9, S5, X1, X7]
    );
    assert_eq!(sort_tiles(&[M4, M5, M6, M7, M8]), vec![M4, M5, M6, M7, M8]);
    assert_eq!(sort_tiles(&[S7, S6, P3, P2, S8]), vec![P2, P3, S6, S7, S8]);
    assert_eq!(sort_tiles(&[X3, X4, X5, X6]), vec![X3, X4, X5, X6]);
}
