use yewchat::bus::EventBus;

#[test]
fn dispatch_follows_registration_order_each_once() {
    let mut bus = EventBus::new();
    let h1 = bus.subscribe();
    let h2 = bus.subscribe();
    assert_ne!(h1, h2);

    let order = bus.dispatch_order();
    assert_eq!(order, vec![h1, h2]);

    // deliver one frame along the snapshot: first subscriber first, each once
    let mut log: Vec<&str> = Vec::new();
    for h in order {
        if h == h1 {
            log.push("s1");
        } else if h == h2 {
            log.push("s2");
        }
    }
    assert_eq!(log, ["s1", "s2"]);
}

#[test]
fn snapshot_is_unaffected_by_subscribing_during_dispatch() {
    let mut bus = EventBus::new();
    let h1 = bus.subscribe();
    let snapshot = bus.dispatch_order();
    // a subscriber that registers while the frame is being dispatched
    let h2 = bus.subscribe();
    assert_eq!(snapshot, vec![h1]);
    assert!(!snapshot.contains(&h2));
    // the next dispatch includes it
    assert_eq!(bus.dispatch_order(), vec![h1, h2]);
}

#[test]
fn unsubscribe_removes_only_that_handle() {
    let mut bus = EventBus::new();
    let h1 = bus.subscribe();
    let h2 = bus.subscribe();
    let h3 = bus.subscribe();
    bus.unsubscribe(h2);
    assert_eq!(bus.dispatch_order(), vec![h1, h3]);
}

#[test]
fn unsubscribe_unknown_or_stale_handle_is_a_no_op() {
    let mut bus = EventBus::new();
    let h1 = bus.subscribe();
    bus.unsubscribe(12345);
    assert_eq!(bus.dispatch_order(), vec![h1]);
    bus.unsubscribe(h1);
    bus.unsubscribe(h1);
    assert_eq!(bus.dispatch_order(), Vec::<u64>::new());
}

#[test]
fn handles_stay_fresh_after_unsubscribe() {
    let mut bus = EventBus::new();
    let h1 = bus.subscribe();
    bus.unsubscribe(h1);
    let h2 = bus.subscribe();
    assert_ne!(h1, h2);
}
