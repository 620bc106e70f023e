//! The event bus: self-filtering, ordering, the bounded backlog, and
//! client-submitted event handling.

use guesswho::{CallEvent, EventBus, GameError, GameEvent};

#[test]
fn subscriber_never_receives_own_events() {
    let mut bus = EventBus::new(10);
    let mut sub = bus.subscribe(7);
    bus.publish(GameEvent::Incorrect { user_id: 7 });
    bus.publish(GameEvent::Incorrect { user_id: 8 });
    bus.publish(GameEvent::Correct { user_id: 7, tries: 3 });
    bus.publish(GameEvent::Connected { user_id: 9 });
    let mut seen = Vec::new();
    while let Some(e) = bus.next_event(&mut sub) {
        assert_ne!(e.user_id(), 7);
        seen.push(e.user_id());
    }
    assert_eq!(seen, vec![8, 9]);
}

#[test]
fn events_arrive_in_publish_order() {
    let mut bus = EventBus::new(10);
    let mut sub = bus.subscribe(0);
    for tries in 1..=5u64 {
        bus.publish(GameEvent::Correct { user_id: 1, tries });
    }
    for expected in 1..=5u64 {
        let e = bus.next_event(&mut sub).unwrap();
        assert!(matches!(e, GameEvent::Correct { user_id: 1, tries } if tries == expected));
    }
    assert!(bus.next_event(&mut sub).is_none());
}

#[test]
fn slow_subscriber_misses_oldest_events() {
    let mut bus = EventBus::new(3);
    let mut sub = bus.subscribe(0);
    for tries in 1..=8u64 {
        bus.publish(GameEvent::Correct { user_id: 1, tries });
    }
    // Only the last three fit the backlog; the oldest five are lost.
    for expected in 6..=8u64 {
        let e = bus.next_event(&mut sub).unwrap();
        assert!(matches!(e, GameEvent::Correct { user_id: 1, tries } if tries == expected));
    }
    assert!(bus.next_event(&mut sub).is_none());
}

#[test]
fn subscriber_sees_only_later_events() {
    let mut bus = EventBus::new(10);
    bus.publish(GameEvent::Connected { user_id: 1 });
    let mut sub = bus.subscribe(0);
    bus.publish(GameEvent::Disconnected { user_id: 1 });
    let e = bus.next_event(&mut sub).unwrap();
    assert!(matches!(e, GameEvent::Disconnected { user_id: 1 }));
    assert!(bus.next_event(&mut sub).is_none());
}

#[test]
fn backlog_boundary_is_exact() {
    let mut bus = EventBus::new(10);
    let mut sub = bus.subscribe(0);
    for tries in 1..=10u64 {
        bus.publish(GameEvent::Correct { user_id: 1, tries });
    }
    // Exactly at capacity: nothing lost yet.
    let first = bus.next_event(&mut sub).unwrap();
    assert!(matches!(first, GameEvent::Correct { user_id: 1, tries: 1 }));
    let mut fresh = bus.subscribe(0);
    bus.publish(GameEvent::Correct { user_id: 1, tries: 11 });
    // One past capacity: the oldest is gone for a lagging reader.
    let mut lagging = guesswho::Subscriber { identity: 0, cursor: 0 };
    let e = bus.next_event(&mut lagging).unwrap();
    assert!(matches!(e, GameEvent::Correct { user_id: 1, tries: 2 }));
    // A reader attached before the overflow still gets only what followed.
    let f = bus.next_event(&mut fresh).unwrap();
    assert!(matches!(f, GameEvent::Correct { user_id: 1, tries: 11 }));
}

#[test]
fn subscribers_have_independent_cursors() {
    let mut bus = EventBus::new(10);
    let mut a = bus.subscribe(1);
    let mut b = bus.subscribe(2);
    bus.publish(GameEvent::Connected { user_id: 3 });
    assert!(bus.next_event(&mut a).is_some());
    assert!(bus.next_event(&mut a).is_none());
    // Draining one subscriber leaves the other's position untouched.
    assert!(bus.next_event(&mut b).is_some());
}

#[test]
fn message_event_is_rendered_and_trimmed() {
    let e = GameEvent::Message { user_id: 7, content: "**hi**".to_string() };
    let out = e.handle_user_event(7).unwrap();
    match out {
        GameEvent::Message { user_id, content } => {
            assert_eq!(user_id, 7);
            assert_eq!(content, "<strong>hi</strong>");
        }
        other => panic!("not a message: {other:?}"),
    }
}

#[test]
fn mismatched_identity_is_rejected() {
    let e = GameEvent::Message { user_id: 7, content: "hello".to_string() };
    assert_eq!(
        e.handle_user_event(8).unwrap_err(),
        GameError::InvalidInput
    );
}

#[test]
fn call_events_pass_through_unmodified() {
    let e = GameEvent::Call {
        user_id: 7,
        event: CallEvent::Offer { offer: "{\"sdp\":\"x\"}".to_string() },
    };
    let out = e.handle_user_event(7).unwrap();
    match out {
        GameEvent::Call { user_id, event: CallEvent::Offer { offer } } => {
            assert_eq!(user_id, 7);
            assert_eq!(offer, "{\"sdp\":\"x\"}");
        }
        other => panic!("not the same call: {other:?}"),
    }
}

#[test]
fn server_events_cannot_be_submitted() {
    let e = GameEvent::Connected { user_id: 7 };
    assert_eq!(
        e.handle_user_event(7).unwrap_err(),
        GameError::InvalidInput
    );
}
