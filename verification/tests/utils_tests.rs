//! The timed resource and the mutual-exclusion cell.

use guesswho::{SyncMutex, TimedResource};

#[test]
fn present_until_the_deadline() {
    let mut t = TimedResource::new(42u32, 1000, 5000);
    assert_eq!(t.get(5000).copied(), Some(42));
    assert_eq!(t.get(5999).copied(), Some(42));
    assert!(!t.is_timed_out(5999));
}

#[test]
fn absent_permanently_once_fired() {
    let mut t = TimedResource::new(42u32, 1000, 5000);
    assert!(t.get(6000).is_none());
    assert!(t.is_timed_out(6000));
    // Repeated queries, even with an earlier clock reading, stay absent.
    assert!(t.get(6001).is_none());
    assert!(t.get(5500).is_none());
}

#[test]
fn take_expired_recovers_the_value() {
    let mut t = TimedResource::new(String::from("payload"), 10, 0);
    assert!(t.take_expired(5).is_none());
    assert_eq!(t.take_expired(10).as_deref(), Some("payload"));
    assert!(t.take_expired(10).is_none());
    assert!(t.get(3).is_none());
}

#[test]
fn mutex_guards_a_value() {
    let mut cell = SyncMutex::new(10u64);
    assert_eq!(cell.peek(|v| *v + 1), 11);
    let doubled = cell.mutate(|v| (v * 2, v));
    assert_eq!(doubled, 10);
    assert_eq!(cell.peek(|v| *v), 20);
}
