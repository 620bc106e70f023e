//! Game-state logic: claiming, guessing, connection changes and the events
//! they publish.

use guesswho::{CharacterSet, GameError, GameEvent, GameState, PlayerState};

fn player(id: u64, character: usize) -> PlayerState {
    PlayerState {
        id,
        claimed: false,
        character,
        incorrect_count: 0,
        correct: false,
        connected: false,
    }
}

fn board() -> CharacterSet {
    CharacterSet((0..24u64).collect())
}

fn game(p0: PlayerState, p1: PlayerState) -> GameState {
    GameState::new(board(), p0, p1)
}

#[test]
fn claim_marks_matching_role() {
    let mut g = game(player(10, 5), player(20, 9));
    assert!(g.claim(10));
    assert!(g.p0.claimed);
    assert!(!g.p1.claimed);
    assert!(g.claim(20));
    assert!(g.p1.claimed);
}

#[test]
fn claim_rejects_unknown_identity() {
    let mut g = game(player(10, 5), player(20, 9));
    assert!(!g.claim(30));
    assert!(!g.p0.claimed);
    assert!(!g.p1.claimed);
}

#[test]
fn claim_is_idempotent() {
    let mut g = game(player(10, 5), player(20, 9));
    assert!(g.claim(10));
    let after_first = (g.p0, g.p1);
    assert!(g.claim(10));
    assert_eq!((g.p0, g.p1), after_first);
}

#[test]
fn correct_guess_reports_first_try() {
    // P0 assigned index 5, P1 assigned index 9; P1 guesses the cell mapping
    // to index 5 (row 0, col 5 on a 6-wide board).
    let mut g = game(player(10, 5), player(20, 9));
    let mut sub = g.events.subscribe(10);
    assert_eq!(g.guess(20, 0, 5), Ok(true));
    assert!(g.p1.correct);
    assert_eq!(g.p1.incorrect_count, 0);
    let e = g.events.next_event(&mut sub).unwrap();
    assert!(matches!(e, GameEvent::Correct { user_id: 20, tries: 1 }));
}

#[test]
fn correct_guess_after_a_miss_reports_second_try() {
    let mut g = game(player(10, 5), player(20, 9));
    let mut sub = g.events.subscribe(10);
    assert_eq!(g.guess(20, 0, 0), Ok(false));
    assert_eq!(g.p1.incorrect_count, 1);
    assert_eq!(g.guess(20, 0, 5), Ok(true));
    let first = g.events.next_event(&mut sub).unwrap();
    assert!(matches!(first, GameEvent::Incorrect { user_id: 20 }));
    let second = g.events.next_event(&mut sub).unwrap();
    assert!(matches!(second, GameEvent::Correct { user_id: 20, tries: 2 }));
}

#[test]
fn progress_only_accumulates() {
    let mut g = game(player(10, 5), player(20, 9));
    let mut misses = 0;
    for col in 0..4 {
        assert_eq!(g.guess(20, 1, col), Ok(false));
        misses += 1;
        assert_eq!(g.p1.incorrect_count, misses);
    }
    assert_eq!(g.guess(20, 0, 5), Ok(true));
    assert!(g.p1.correct);
    // A later miss keeps the solved flag and still counts.
    assert_eq!(g.guess(20, 1, 0), Ok(false));
    assert!(g.p1.correct);
    assert_eq!(g.p1.incorrect_count, misses + 1);
}

#[test]
fn guess_refuses_bad_coordinates_and_strangers() {
    let mut g = game(player(10, 5), player(20, 9));
    assert_eq!(g.guess(20, 4, 0), Err(GameError::InvalidInput));
    assert_eq!(g.guess(20, 0, 6), Err(GameError::InvalidInput));
    assert_eq!(g.guess(30, 0, 0), Err(GameError::Unauthorized));
    assert_eq!(g.p1.incorrect_count, 0);
}

#[test]
fn set_connected_reports_present_peer() {
    let mut g = game(player(10, 5), player(20, 9));
    assert_eq!(g.set_connected(10, true), None);
    assert!(g.p0.connected);
    // The second player joining learns that the first is already there.
    assert_eq!(g.set_connected(20, true), Some(10));
    assert_eq!(g.set_connected(10, false), Some(20));
    assert!(!g.p0.connected);
}

#[test]
fn set_connected_publishes_even_for_strangers() {
    let mut g = game(player(10, 5), player(20, 9));
    let mut sub = g.events.subscribe(10);
    assert_eq!(g.set_connected(77, true), None);
    let e = g.events.next_event(&mut sub).unwrap();
    assert!(matches!(e, GameEvent::Connected { user_id: 77 }));
}

#[test]
fn shared_identity_claims_first_role() {
    // Both roles carrying one identity is degenerate but must stay sane:
    // the first role wins.
    let mut g = game(player(10, 5), player(10, 9));
    assert!(g.claim(10));
    assert!(g.p0.claimed);
    assert!(!g.p1.claimed);
}

#[test]
fn random_player_is_fresh() {
    let p = PlayerState::random();
    assert!(p.character < 24);
    assert!(!p.claimed && !p.correct && !p.connected);
    assert_eq!(p.incorrect_count, 0);
}
