use chat_relay::decoder::decode;
use chat_relay::decoder::Event;
use chat_relay::decoder::SessionState;
use chat_relay::dispatch::Action;
use chat_relay::dispatch::RoutingTable;

fn lines_for(acts: &[Action], user: &str) -> Vec<String> {
    let mut out = Vec::new();
    for a in acts {
        if let Action::Deliver { to, line } = a {
            if to.as_str() == user {
                out.push(line.clone());
            }
        }
    }
    out
}

fn spawns_for(acts: &[Action], user: &str) -> usize {
    acts.iter()
        .filter(|a| matches!(a, Action::Spawn { name, .. } if name.as_str() == user))
        .count()
}

#[test]
fn login_spawns_task_and_confirms() {
    let mut table = RoutingTable::new();
    let mut a = SessionState::new(1);
    let ev = decode("alice", &mut a);
    let acts = table.handle_event(ev);
    assert_eq!(acts.len(), 2);
    assert!(matches!(&acts[0], Action::Spawn { name, conn } if name.as_str() == "alice" && *conn == 1));
    assert_eq!(lines_for(&acts, "alice"), vec!["Logged in as: alice\n".to_string()]);
    assert!(table.contains(&"alice".to_string()));
    assert_eq!(table.lookup(&"alice".to_string()), Some(1));
}

#[test]
fn message_is_routed_to_logged_in_recipient() {
    // Connection A logs in as alice, connection B as bob; B messages alice.
    let mut table = RoutingTable::new();
    let mut a = SessionState::new(1);
    let mut b = SessionState::new(2);

    let a_acts = table.handle_event(decode("alice", &mut a));
    assert_eq!(lines_for(&a_acts, "alice"), vec!["Logged in as: alice\n".to_string()]);

    let b_login_acts = table.handle_event(decode("bob", &mut b));
    let b_msg_acts = table.handle_event(decode("alice -> hi", &mut b));

    assert_eq!(lines_for(&b_msg_acts, "alice"), vec!["from bob: hi\n".to_string()]);
    // B receives only its own login confirmation.
    let mut to_bob = lines_for(&b_login_acts, "bob");
    to_bob.extend(lines_for(&b_msg_acts, "bob"));
    assert_eq!(to_bob, vec!["Logged in as: bob\n".to_string()]);
}

#[test]
fn message_to_departed_user_is_skipped() {
    // A logs in as alice and disconnects; a later message to alice goes
    // nowhere and processing does not error.
    let mut table = RoutingTable::new();
    let mut a = SessionState::new(1);
    let mut c = SessionState::new(3);

    table.handle_event(decode("alice", &mut a));
    let stop_acts = table.handle_event(a.logout_event());
    assert!(matches!(&stop_acts[..], [Action::Stop { name }] if name.as_str() == "alice"));
    assert!(!table.contains(&"alice".to_string()));

    table.handle_event(decode("bob", &mut c));
    let acts = table.handle_event(decode("alice -> hello", &mut c));
    assert!(acts.is_empty());
}

#[test]
fn duplicate_login_is_dropped() {
    // Two connections claim alice; exactly one routing entry exists after.
    let mut table = RoutingTable::new();
    let mut s1 = SessionState::new(1);
    let mut s2 = SessionState::new(2);

    let first = table.handle_event(decode("alice", &mut s1));
    assert_eq!(spawns_for(&first, "alice"), 1);

    let second = table.handle_event(decode("alice", &mut s2));
    assert!(second.is_empty());

    assert!(table.contains(&"alice".to_string()));
    assert_eq!(table.count(), 1);
    // The entry still belongs to the first connection.
    assert_eq!(table.lookup(&"alice".to_string()), Some(1));
}

#[test]
fn multi_recipient_message_delivers_to_each() {
    let mut table = RoutingTable::new();
    let mut a = SessionState::new(1);
    let mut b = SessionState::new(2);
    let mut c = SessionState::new(3);

    table.handle_event(decode("alice", &mut a));
    table.handle_event(decode("bob", &mut b));
    table.handle_event(decode("carol", &mut c));

    let acts = table.handle_event(decode("alice, bob -> meet at 5", &mut c));
    assert_eq!(lines_for(&acts, "alice"), vec!["from carol: meet at 5\n".to_string()]);
    assert_eq!(lines_for(&acts, "bob"), vec!["from carol: meet at 5\n".to_string()]);
    assert_eq!(lines_for(&acts, "carol"), Vec::<String>::new());
    assert_eq!(acts.len(), 2);
}

#[test]
fn deliveries_keep_dispatch_order() {
    let mut table = RoutingTable::new();
    let mut a = SessionState::new(1);
    let mut b = SessionState::new(2);

    table.handle_event(decode("alice", &mut a));
    table.handle_event(decode("bob", &mut b));

    let mut to_alice = Vec::new();
    for body in ["one", "two", "three"] {
        let line = format!("alice -> {}", body);
        let acts = table.handle_event(decode(&line, &mut b));
        to_alice.extend(lines_for(&acts, "alice"));
    }
    assert_eq!(
        to_alice,
        vec![
            "from bob: one\n".to_string(),
            "from bob: two\n".to_string(),
            "from bob: three\n".to_string(),
        ]
    );
}

#[test]
fn logout_is_idempotent() {
    let mut table = RoutingTable::new();
    let mut a = SessionState::new(1);

    table.handle_event(decode("alice", &mut a));
    let first = table.handle_event(Event::Logout { name: "alice".to_string() });
    assert_eq!(first.len(), 1);
    let second = table.handle_event(Event::Logout { name: "alice".to_string() });
    assert!(second.is_empty());
    assert!(!table.contains(&"alice".to_string()));
    assert_eq!(table.count(), 0);
}

#[test]
fn logout_for_unknown_name_is_noop() {
    let mut table = RoutingTable::new();
    let acts = table.handle_event(Event::Logout { name: "ghost".to_string() });
    assert!(acts.is_empty());
    assert_eq!(table.count(), 0);
}

#[test]
fn empty_event_does_nothing() {
    let mut table = RoutingTable::new();
    let acts = table.handle_event(Event::Empty);
    assert!(acts.is_empty());
    assert_eq!(table.count(), 0);
}

#[test]
fn unrouted_recipients_are_skipped_in_order() {
    let mut table = RoutingTable::new();
    let mut a = SessionState::new(1);
    let mut b = SessionState::new(2);

    table.handle_event(decode("alice", &mut a));
    table.handle_event(decode("bob", &mut b));
    let acts = table.handle_event(decode("ghost, alice -> ping", &mut b));
    assert_eq!(acts.len(), 1);
    assert_eq!(lines_for(&acts, "alice"), vec!["from bob: ping\n".to_string()]);
}
