use seb_mul_game::lobby::{Lobby, LobbyAction, Phase};

#[test]
fn third_pair_waits_for_a_free_slot() {
    let mut l = Lobby::new(1);
    assert!(l.try_acquire());
    assert_eq!(l.on_accepted(10), LobbyAction::SendWaiting { conn: 10 });
    assert_eq!(l.on_accepted(11), LobbyAction::StartGame { game_id: 0, first: 10, second: 11 });
    assert_eq!(l.running, 1);
    assert!(!l.try_acquire());
    assert!(!l.try_acquire());
    assert_eq!(l.phase, Phase::NeedSlot);
    l.on_game_ended();
    assert!(l.try_acquire());
    assert_eq!(l.on_accepted(12), LobbyAction::SendWaiting { conn: 12 });
    assert_eq!(l.on_accepted(13), LobbyAction::StartGame { game_id: 1, first: 12, second: 13 });
}

#[test]
fn zero_games_means_one() {
    let l = Lobby::new(0);
    assert_eq!(l.max_games, 1);
    assert_eq!(l.available, 1);
}

#[test]
fn failed_accept_releases_slot() {
    let mut l = Lobby::new(2);
    assert!(l.try_acquire());
    assert_eq!(l.available, 1);
    l.on_accepted(1);
    l.on_accept_failed();
    assert_eq!(l.available, 2);
    assert_eq!(l.phase, Phase::NeedSlot);
    assert_eq!(l.running, 0);
}

#[test]
fn game_ids_wrap() {
    let mut l = Lobby::new(3);
    l.next_game_id = u32::MAX;
    assert!(l.try_acquire());
    l.on_accepted(1);
    assert_eq!(l.on_accepted(2), LobbyAction::StartGame { game_id: u32::MAX, first: 1, second: 2 });
    assert_eq!(l.next_game_id, 0);
}
