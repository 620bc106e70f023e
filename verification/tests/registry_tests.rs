//! The session registry: creation, eviction, expiry and delegated game
//! operations.

use std::io::Write;

use guesswho::{GameError, PlayerState, Registry, NUM_CHARS};

fn make_pack() -> Vec<u8> {
    let mut w = zip::ZipWriter::new(std::io::Cursor::new(Vec::new()));
    let options = zip::write::SimpleFileOptions::default()
        .compression_method(zip::CompressionMethod::Stored);
    for i in 0..NUM_CHARS {
        w.start_file(format!("c{i:02}.png"), options).unwrap();
        w.write_all(&vec![i as u8; 10]).unwrap();
    }
    w.finish().unwrap().into_inner()
}

fn player(id: u64, character: usize) -> PlayerState {
    PlayerState {
        id,
        claimed: false,
        character,
        incorrect_count: 0,
        correct: false,
        connected: false,
    }
}

#[test]
fn create_then_lookup() {
    let mut reg = Registry::new();
    reg.create(1, make_pack(), player(10, 5), player(20, 9), 1000, 0).unwrap();
    assert!(reg.lookup(1, 10));
    assert!(!reg.lookup(2, 10));
}

#[test]
fn new_session_evicts_same_identity() {
    let mut reg = Registry::new();
    reg.create(1, make_pack(), player(10, 5), player(20, 9), 1000, 0).unwrap();
    assert!(reg.lookup(1, 1));
    // The same browser (identity 10) starts a new game.
    reg.create(2, make_pack(), player(10, 3), player(30, 7), 1000, 2).unwrap();
    assert!(!reg.lookup(1, 3));
    assert!(reg.lookup(2, 3));
}

#[test]
fn colliding_identifier_replaces_the_session() {
    let mut reg = Registry::new();
    reg.create(1, make_pack(), player(10, 5), player(20, 9), 1000, 0).unwrap();
    reg.create(1, make_pack(), player(30, 2), player(40, 4), 1000, 1).unwrap();
    assert_eq!(reg.claim(1, 30, 2), Ok(true));
    assert_eq!(reg.claim(1, 10, 2), Ok(false));
    // Only one board remains alive in the cache.
    assert_eq!(reg.cache_size(2), (NUM_CHARS as u128) * 19);
}

#[test]
fn sessions_expire_after_their_lifetime() {
    let mut reg = Registry::new();
    reg.create(1, make_pack(), player(10, 5), player(20, 9), 1000, 0).unwrap();
    assert!(reg.lookup(1, 999));
    assert!(!reg.lookup(1, 1000));
    // Absent permanently, even if asked about an earlier moment afterwards.
    assert!(!reg.lookup(1, 500));
}

#[test]
fn expiry_releases_cached_assets() {
    let mut reg = Registry::new();
    reg.create(1, make_pack(), player(10, 5), player(20, 9), 1000, 0).unwrap();
    assert_eq!(reg.cache_size(0), (NUM_CHARS as u128) * 19);
    assert_eq!(reg.cache_size(1000), 0);
}

#[test]
fn operations_refuse_unknown_or_expired_sessions() {
    let mut reg = Registry::new();
    reg.create(1, make_pack(), player(10, 5), player(20, 9), 1000, 0).unwrap();
    assert_eq!(reg.claim(9, 10, 0), Err(GameError::NotFound));
    assert_eq!(reg.claim(1, 10, 1000), Err(GameError::NotFound));
    assert_eq!(reg.guess(9, 10, 0, 0, 0), Err(GameError::NotFound));
}

#[test]
fn delegated_game_flow() {
    let mut reg = Registry::new();
    reg.create(1, make_pack(), player(10, 5), player(20, 9), 1000, 0).unwrap();
    assert_eq!(reg.claim(1, 10, 1), Ok(true));
    assert_eq!(reg.claim(1, 99, 1), Ok(false));
    let mut sub = reg.subscribe(1, 10, 1).unwrap();
    assert_eq!(reg.set_connected(1, 10, true, 2), Ok(None));
    assert_eq!(reg.set_connected(1, 20, true, 2), Ok(Some(10)));
    // P1 guesses P0's secret cell (index 5 = row 0, col 5).
    assert_eq!(reg.guess(1, 20, 0, 5, 3), Ok(true));
    assert_eq!(reg.guess(1, 20, 9, 9, 3), Err(GameError::InvalidInput));
    let mut foreign = 0;
    while let Some(e) = reg.next_event(1, &mut sub, 4).unwrap() {
        assert_ne!(e.user_id(), 10);
        foreign += 1;
    }
    // Connected{20}, Correct{20}: the subscriber's own events are filtered.
    assert_eq!(foreign, 2);
}

#[test]
fn character_fetch() {
    let mut reg = Registry::new();
    reg.create(1, make_pack(), player(10, 5), player(20, 9), 1000, 0).unwrap();
    let c = reg.character_at(1, 0, 0, 1).unwrap();
    assert_eq!(c.data.len(), 10);
    assert_eq!(c.content_type.as_deref(), Some(b"image/png".as_slice()));
    assert_eq!(
        reg.character_at(1, 9, 0, 1).unwrap_err(),
        GameError::InvalidInput
    );
    let own = reg.own_character(1, 10, 1).unwrap();
    assert_eq!(own.data.len(), 10);
    assert_eq!(
        reg.own_character(1, 99, 1).unwrap_err(),
        GameError::Unauthorized
    );
}

#[test]
fn admission_check_is_available() {
    let reg = Registry::new();
    assert!(reg.can_create());
}
