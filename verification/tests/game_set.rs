use minefield_core::game_set::GameSet;
use minefield_core::protocol::Msg;
use minefield_core::tiles::Tile;
use rand::rngs::StdRng;
use rand::SeedableRng;

#[test]
fn game_set_test_new_game() {
    let mut rng = StdRng::seed_from_u64(7);
    let mut game_set = GameSet::<()>::new();
    let game_id = game_set.new_game(&[33, 55], (), &mut rng);
    let messages = game_set.on_game_start(game_id);
    assert_eq!(messages.len(), 4);
    assert!(matches!(messages[0], (33, Msg::PhaseOne { .. })));
    assert!(matches!(messages[1], (33, Msg::StartMove { .. })));
    assert!(matches!(messages[2], (55, Msg::PhaseOne { .. })));
    assert!(matches!(messages[3], (55, Msg::StartMove { .. })));

    assert_eq!(game_set.game_count(), 1);
    assert_eq!(game_set.seat_count(), 2);
}

#[test]
fn game_set_test_on_message_abort() {
    let mut rng = StdRng::seed_from_u64(7);
    let mut game_set = GameSet::<()>::new();
    let game_id = game_set.new_game(&[33, 55], (), &mut rng);
    game_set.on_game_start(game_id);

    let messages = game_set.on_message(55, Msg::Discard { tile: Tile::M1 });
    assert_eq!(messages.len(), 2);
    assert!(matches!(messages[0], (33, Msg::Abort { culprit: 1, .. })));
    assert!(matches!(messages[1], (55, Msg::Abort { culprit: 1, .. })));

    assert_eq!(game_set.game_count(), 0);
    assert_eq!(game_set.seat_count(), 0);
}

#[test]
fn games_are_numbered_in_the_order_in_which_they_begin() {
    let mut rng = StdRng::seed_from_u64(1);
    let mut game_set = GameSet::<u8>::new();
    assert_eq!(game_set.new_game(&[1, 2], 10, &mut rng), 0);
    assert_eq!(game_set.new_game(&[3, 4], 11, &mut rng), 1);
    assert_eq!(game_set.game_count(), 2);
    assert_eq!(game_set.seat_count(), 4);
}

#[test]
fn a_user_who_left_gets_no_messages() {
    let mut rng = StdRng::seed_from_u64(2);
    let mut game_set = GameSet::<()>::new();
    let game_id = game_set.new_game(&[33, 55], (), &mut rng);
    game_set.disconnect(33);
    assert_eq!(game_set.seat_count(), 1);
    let messages = game_set.on_game_start(game_id);
    assert_eq!(messages.len(), 2);
    assert!(matches!(messages[0], (55, Msg::PhaseOne { .. })));
    assert!(matches!(messages[1], (55, Msg::StartMove { .. })));
    assert!(game_set.on_message(33, Msg::Discard { tile: Tile::M1 }).is_empty());
    assert_eq!(game_set.game_count(), 1);
}

#[test]
fn a_game_whose_time_is_up_is_let_go_of() {
    let mut rng = StdRng::seed_from_u64(3);
    let mut game_set = GameSet::<()>::new();
    let first = game_set.new_game(&[1, 2], (), &mut rng);
    let second = game_set.new_game(&[3, 4], (), &mut rng);
    game_set.on_game_start(first);
    for _ in 0..100 {
        assert!(game_set.beat().is_empty());
    }
    game_set.on_game_start(second);
    let mut ticks = 100;
    let mut messages = game_set.beat();
    ticks += 1;
    while messages.is_empty() {
        messages = game_set.beat();
        ticks += 1;
        assert!(ticks < 1000);
    }
    // hand time limit and the extra time: the first game ends alone
    assert_eq!(ticks, 180 + 10);
    assert_eq!(messages.len(), 2);
    assert!(matches!(messages[0], (1, Msg::Abort { culprit: 0, .. })));
    assert!(matches!(messages[1], (2, Msg::Abort { culprit: 0, .. })));
    assert_eq!(game_set.game_count(), 1);
    assert_eq!(game_set.seat_count(), 2);
    assert!(game_set.on_message(1, Msg::Discard { tile: Tile::M1 }).is_empty());
}
