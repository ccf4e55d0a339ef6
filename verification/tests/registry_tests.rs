use honeypot::registry::Registry;

#[test]
fn empty_registry() {
    let r = Registry::new(4);
    assert_eq!(r.len(), 0);
    assert_eq!(r.snapshot(), vec![]);
}

#[test]
fn insert_orders_most_recent_first() {
    let mut r = Registry::new(4);
    r.insert(1, 0, 10);
    r.insert(2, 0, 20);
    r.insert(3, 0, 30);
    assert_eq!(r.len(), 3);
    assert_eq!(
        r.snapshot(),
        vec![((3, 0), 30), ((2, 0), 20), ((1, 0), 10)]
    );
}

#[test]
fn capacity_overflow_evicts_least_recently_used() {
    // Five distinct keys into a registry of capacity three: exactly the
    // capacity survives, and the evicted keys are exactly the two least
    // recently used ones.
    let mut r = Registry::new(3);
    for s in 1..=5 {
        r.insert(s, 0, 100 + s);
    }
    assert_eq!(r.len(), 3);
    assert_eq!(
        r.snapshot(),
        vec![((5, 0), 105), ((4, 0), 104), ((3, 0), 103)]
    );
}

#[test]
fn reinsert_replaces_handle_and_promotes() {
    let mut r = Registry::new(3);
    r.insert(1, 0, 10);
    r.insert(2, 0, 20);
    r.insert(1, 0, 11);
    assert_eq!(r.snapshot(), vec![((1, 0), 11), ((2, 0), 20)]);
    // The re-inserted key counted as used, so it is no eviction candidate.
    r.insert(3, 0, 30);
    r.insert(4, 0, 40);
    let keys: Vec<(u64, u64)> = r.snapshot().iter().map(|e| e.0).collect();
    assert_eq!(keys, vec![(4, 0), (3, 0), (1, 0)]);
}

#[test]
fn remove_returns_handle_and_is_noop_when_absent() {
    let mut r = Registry::new(3);
    r.insert(1, 0, 10);
    r.insert(2, 7, 20);
    assert_eq!(r.remove(2, 7), Some(20));
    assert_eq!(r.remove(2, 7), None);
    assert_eq!(r.remove(9, 9), None);
    assert_eq!(r.snapshot(), vec![((1, 0), 10)]);
}

#[test]
fn touch_refreshes_recency() {
    let mut r = Registry::new(2);
    r.insert(1, 0, 10);
    r.insert(2, 0, 20);
    // Key (1, 0) is the eviction candidate until it is used again.
    assert!(r.touch(1, 0));
    r.insert(3, 0, 30);
    let keys: Vec<(u64, u64)> = r.snapshot().iter().map(|e| e.0).collect();
    assert_eq!(keys, vec![(3, 0), (1, 0)]);
    assert!(!r.touch(2, 0));
}

#[test]
fn recipients_excludes_only_the_sender() {
    let mut r = Registry::new(4);
    r.insert(1, 0, 10);
    r.insert(2, 0, 20);
    r.insert(3, 0, 30);
    assert_eq!(r.recipients(2, 0), vec![((3, 0), 30), ((1, 0), 10)]);
    // A key that is not registered excludes nothing.
    assert_eq!(
        r.recipients(9, 9),
        vec![((3, 0), 30), ((2, 0), 20), ((1, 0), 10)]
    );
}

#[test]
fn channels_of_one_session_are_independent() {
    let mut r = Registry::new(4);
    r.insert(1, 0, 10);
    r.insert(1, 1, 11);
    r.insert(2, 0, 20);
    // Only the sender's own (session, channel) pair is excluded; the same
    // session's other channel is an ordinary recipient.
    assert_eq!(r.recipients(1, 0), vec![((2, 0), 20), ((1, 1), 11)]);
}
