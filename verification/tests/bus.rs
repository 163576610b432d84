use chat_core::bus::EventBus;

#[test]
fn two_subscribers_observe_the_same_frames_in_order() {
    let mut bus = EventBus::new();
    let a = bus.subscribe();
    let b = bus.subscribe();
    bus.publish("one");
    bus.publish("two");

    // each subscriber gets its own copy, in publish order
    assert_eq!(bus.next_frame(a), Some(String::from("one")));
    assert_eq!(bus.next_frame(a), Some(String::from("two")));
    assert_eq!(bus.next_frame(a), None);

    // consuming from a did not consume for b
    assert_eq!(bus.next_frame(b), Some(String::from("one")));
    assert_eq!(bus.next_frame(b), Some(String::from("two")));
    assert_eq!(bus.next_frame(b), None);
}

#[test]
fn late_subscriber_misses_earlier_frames() {
    let mut bus = EventBus::new();
    let a = bus.subscribe();
    bus.publish("early");
    let b = bus.subscribe();
    bus.publish("late");

    assert_eq!(bus.next_frame(a), Some(String::from("early")));
    assert_eq!(bus.next_frame(a), Some(String::from("late")));
    // b only sees what was published after it subscribed
    assert_eq!(bus.next_frame(b), Some(String::from("late")));
    assert_eq!(bus.next_frame(b), None);
}

#[test]
fn unsubscribe_is_idempotent_and_stops_delivery() {
    let mut bus = EventBus::new();
    let a = bus.subscribe();
    let b = bus.subscribe();
    bus.unsubscribe(a);
    bus.unsubscribe(a);
    bus.publish("after");

    // the deregistered handle yields nothing
    assert_eq!(bus.next_frame(a), None);
    // the remaining subscriber still receives the frame
    assert_eq!(bus.next_frame(b), Some(String::from("after")));
}

#[test]
fn next_frame_on_empty_queue_is_none() {
    let mut bus = EventBus::new();
    let a = bus.subscribe();
    assert_eq!(bus.next_frame(a), None);
    // an unknown handle yields nothing either
    assert_eq!(bus.next_frame(a + 1), None);
}

#[test]
fn handles_are_distinct() {
    let mut bus = EventBus::new();
    let a = bus.subscribe();
    let b = bus.subscribe();
    let c = bus.subscribe();
    assert!(a != b && b != c && a != c);
}
