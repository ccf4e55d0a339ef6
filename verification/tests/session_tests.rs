use honeypot::dispatcher::Dispatcher;
use honeypot::registry::Registry;
use honeypot::session::{AuthOutcome, AuthStrategy, Credential, Handler, SessionState};

fn password(user: &str, pass: &str) -> Credential {
    Credential::Password { user: String::from(user), password: String::from(pass) }
}

#[test]
fn dispatcher_assigns_unique_monotonic_ids() {
    let mut d = Dispatcher::new(AuthStrategy::AcceptAny);
    let h0 = d.new_session(Some(String::from("203.0.113.7:40000")));
    let h1 = d.new_session(None);
    let h2 = d.new_session(None);
    assert_eq!(h0.session_id, 0);
    assert_eq!(h1.session_id, 1);
    assert_eq!(h2.session_id, 2);
    assert_eq!(h0.state, SessionState::Authenticating);
    assert_eq!(h0.remote.as_deref(), Some("203.0.113.7:40000"));
    assert_eq!(h1.remote, None);
}

#[test]
fn reject_strategy_rejects_every_credential() {
    // Under the rejecting policy every attempt yields Reject, the session
    // never activates, and so no channel is ever registered for it.
    let mut d = Dispatcher::new(AuthStrategy::RejectAll);
    let mut h = d.new_session(None);
    let r = Registry::new(10);
    assert_eq!(h.on_auth_attempt(&password("root", "toor")), AuthOutcome::Reject);
    assert_eq!(h.state, SessionState::Authenticating);
    let key = Credential::PublicKey { key: vec![0x30, 0x82, 0x01, 0x0a] };
    assert_eq!(h.on_auth_attempt(&key), AuthOutcome::Reject);
    assert_eq!(h.state, SessionState::Authenticating);
    assert_eq!(r.len(), 0);
}

#[test]
fn accept_any_strategy_accepts_and_registers() {
    // Under the accepting policy any credential yields Accept, and a
    // subsequent channel-open immediately produces one new registry entry.
    let mut d = Dispatcher::new(AuthStrategy::AcceptAny);
    let mut h = d.new_session(None);
    let mut r = Registry::new(10);
    assert_eq!(h.on_auth_attempt(&password("admin", "hunter2")), AuthOutcome::Accept);
    assert_eq!(h.state, SessionState::Active);
    h.on_channel_open(&mut r, 0, 77);
    assert_eq!(h.state, SessionState::ChannelOpen);
    assert_eq!(r.len(), 1);
    assert_eq!(r.snapshot(), vec![((0, 0), 77)]);
}

#[test]
fn broadcast_reaches_all_others_verbatim_and_echoes() {
    let mut d = Dispatcher::new(AuthStrategy::AcceptAny);
    let mut r = Registry::new(10);
    let mut handlers: Vec<Handler> = Vec::new();
    for s in 0..3 {
        let mut h = d.new_session(None);
        h.on_auth_attempt(&password("u", "p"));
        h.on_channel_open(&mut r, 0, 50 + s);
        handlers.push(h);
    }
    let plan = handlers[1].on_data(&mut r, 0, b"uname -a\n");
    // Every other registered channel receives the bytes verbatim, aimed at
    // its own registered handle, in registry order (most recent first);
    // the sender's own channel appears only as the echo.
    assert_eq!(plan.fanout.len(), 2);
    assert_eq!(plan.fanout[0].session_id, 2);
    assert_eq!(plan.fanout[0].handle, 52);
    assert_eq!(plan.fanout[0].bytes, b"uname -a\n".to_vec());
    assert_eq!(plan.fanout[1].session_id, 0);
    assert_eq!(plan.fanout[1].handle, 50);
    assert_eq!(plan.fanout[1].bytes, b"uname -a\n".to_vec());
    assert!(plan.fanout.iter().all(|w| (w.session_id, w.channel_id) != (1, 0)));
    assert_eq!(plan.echo_channel, 0);
    assert_eq!(plan.echo_bytes, b"uname -a\n".to_vec());
}

#[test]
fn sending_counts_as_use_for_eviction() {
    let mut d = Dispatcher::new(AuthStrategy::AcceptAny);
    let mut r = Registry::new(2);
    let mut handlers: Vec<Handler> = Vec::new();
    for s in 0..2 {
        let mut h = d.new_session(None);
        h.on_auth_attempt(&password("u", "p"));
        h.on_channel_open(&mut r, 0, 60 + s);
        handlers.push(h);
    }
    // Session 0 speaks, so it is no longer the eviction candidate.
    handlers[0].on_data(&mut r, 0, b"ls\n");
    let mut h2 = d.new_session(None);
    h2.on_auth_attempt(&password("u", "p"));
    h2.on_channel_open(&mut r, 0, 62);
    let keys: Vec<(u64, u64)> = r.snapshot().iter().map(|e| e.0).collect();
    assert_eq!(keys, vec![(2, 0), (0, 0)]);
}

#[test]
fn capacity_two_scenario() {
    // Capacity 2; sessions S1, S2, S3 connect and each opens one channel in
    // that order.  After S3 connects the registry holds exactly {S2, S3}
    // (S1 evicted).  S2 sends "hello": S3's handle receives "hello", S2's
    // own channel echoes "hello", and S1 — evicted — receives nothing.
    let mut d = Dispatcher::new(AuthStrategy::AcceptAny);
    let mut r = Registry::new(2);
    let mut handlers: Vec<Handler> = Vec::new();
    for s in 0..3 {
        let mut h = d.new_session(None);
        h.on_auth_attempt(&password("intruder", "secret"));
        h.on_channel_open(&mut r, 0, 90 + s);
        handlers.push(h);
    }
    let keys: Vec<(u64, u64)> = r.snapshot().iter().map(|e| e.0).collect();
    assert_eq!(keys, vec![(2, 0), (1, 0)]);
    let plan = handlers[1].on_data(&mut r, 0, b"hello");
    assert_eq!(plan.fanout.len(), 1);
    assert_eq!(plan.fanout[0].session_id, 2);
    assert_eq!(plan.fanout[0].channel_id, 0);
    assert_eq!(plan.fanout[0].handle, 92);
    assert_eq!(plan.fanout[0].bytes, b"hello".to_vec());
    assert_eq!(plan.echo_channel, 0);
    assert_eq!(plan.echo_bytes, b"hello".to_vec());
    assert!(plan.fanout.iter().all(|w| w.session_id != 0));
}

#[test]
fn removal_stops_delivery_without_affecting_others() {
    let mut d = Dispatcher::new(AuthStrategy::AcceptAny);
    let mut r = Registry::new(10);
    let mut handlers: Vec<Handler> = Vec::new();
    for s in 0..3 {
        let mut h = d.new_session(None);
        h.on_auth_attempt(&password("u", "p"));
        h.on_channel_open(&mut r, 0, 70 + s);
        handlers.push(h);
    }
    let before = handlers[0].on_data(&mut r, 0, b"w\n");
    assert_eq!(before.fanout.len(), 2);
    // Session 1 disconnects: its entry leaves the registry.
    let mut closing = handlers.remove(1);
    closing.on_close(&mut r, 0);
    assert_eq!(closing.state, SessionState::Closed);
    assert_eq!(r.len(), 2);
    let after = handlers[0].on_data(&mut r, 0, b"w\n");
    // No write is aimed at the removed session; session 2 still receives,
    // on the same handle as before.
    assert!(after.fanout.iter().all(|w| w.session_id != 1));
    assert_eq!(after.fanout.len(), 1);
    assert_eq!(after.fanout[0].session_id, 2);
    assert_eq!(after.fanout[0].handle, 72);
}

#[test]
fn consecutive_sends_arrive_in_order() {
    let mut d = Dispatcher::new(AuthStrategy::AcceptAny);
    let mut r = Registry::new(10);
    let mut handlers: Vec<Handler> = Vec::new();
    for s in 0..2 {
        let mut h = d.new_session(None);
        h.on_auth_attempt(&password("u", "p"));
        h.on_channel_open(&mut r, 0, 80 + s);
        handlers.push(h);
    }
    let p1 = handlers[0].on_data(&mut r, 0, b"first");
    let p2 = handlers[0].on_data(&mut r, 0, b"second");
    assert_eq!(p1.fanout.len(), 1);
    assert_eq!(p2.fanout.len(), 1);
    assert_eq!(p1.fanout[0].handle, p2.fanout[0].handle);
    assert_eq!(p1.fanout[0].bytes, b"first".to_vec());
    assert_eq!(p2.fanout[0].bytes, b"second".to_vec());
}

#[test]
fn lone_sender_broadcasts_to_nobody_but_still_echoes() {
    let mut d = Dispatcher::new(AuthStrategy::AcceptAny);
    let mut r = Registry::new(1);
    let mut h = d.new_session(None);
    h.on_auth_attempt(&password("u", "p"));
    h.on_channel_open(&mut r, 0, 5);
    let plan = h.on_data(&mut r, 0, b"");
    assert_eq!(plan.fanout.len(), 0);
    assert_eq!(plan.echo_bytes, Vec::<u8>::new());
    assert_eq!(plan.echo_channel, 0);
}

#[test]
fn capacity_one_keeps_only_the_newest() {
    let mut r = Registry::new(1);
    r.insert(1, 0, 10);
    r.insert(2, 0, 20);
    assert_eq!(r.snapshot(), vec![((2, 0), 20)]);
    r.insert(2, 0, 21);
    assert_eq!(r.snapshot(), vec![((2, 0), 21)]);
}
