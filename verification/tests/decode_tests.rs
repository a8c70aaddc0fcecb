use chat_relay::decoder::decode;
use chat_relay::decoder::Event;
use chat_relay::decoder::SessionState;

#[test]
fn message_before_login_is_empty() {
    let mut s = SessionState::new(7);
    let ev = decode("alice -> hi", &mut s);
    assert!(matches!(ev, Event::Empty));
    assert!(s.name.is_none());
}

#[test]
fn bare_name_logs_in_lowercased() {
    let mut s = SessionState::new(3);
    let ev = decode("Alice", &mut s);
    match ev {
        Event::Login { name, conn } => {
            assert_eq!(name, "alice");
            assert_eq!(conn, 3);
        },
        _ => panic!("expected a login event"),
    }
    assert_eq!(s.name.as_deref(), Some("alice"));
}

#[test]
fn login_line_is_trimmed_before_folding() {
    let mut s = SessionState::new(1);
    let ev = decode("  BoB  ", &mut s);
    match ev {
        Event::Login { name, .. } => assert_eq!(name, "bob"),
        _ => panic!("expected a login event"),
    }
}

#[test]
fn second_login_overwrites_session_name() {
    let mut s = SessionState::new(1);
    decode("alice", &mut s);
    decode("carol", &mut s);
    assert_eq!(s.name.as_deref(), Some("carol"));
}

#[test]
fn noise_line_is_empty() {
    let mut s = SessionState::new(1);
    let ev = decode("not a! login?", &mut s);
    assert!(matches!(ev, Event::Empty));
    assert!(s.name.is_none());
}

#[test]
fn empty_line_logs_in_with_empty_name() {
    let mut s = SessionState::new(1);
    let ev = decode("", &mut s);
    match ev {
        Event::Login { name, .. } => assert_eq!(name, ""),
        _ => panic!("expected a login event"),
    }
}

#[test]
fn message_after_login_carries_sender_and_trimmed_body() {
    let mut s = SessionState::new(9);
    decode("bob", &mut s);
    let ev = decode("alice ->   hi  ", &mut s);
    match ev {
        Event::Message { from, to, msg } => {
            assert_eq!(from, "bob");
            assert_eq!(to, vec!["alice".to_string()]);
            assert_eq!(msg, "hi");
        },
        _ => panic!("expected a message event"),
    }
}

#[test]
fn recipient_list_splits_on_commas_and_trims() {
    let mut s = SessionState::new(9);
    decode("bob", &mut s);
    let ev = decode(" alice ,  carol ,dave -> meet at 5", &mut s);
    match ev {
        Event::Message { to, msg, .. } => {
            assert_eq!(
                to,
                vec!["alice".to_string(), "carol".to_string(), "dave".to_string()]
            );
            assert_eq!(msg, "meet at 5");
        },
        _ => panic!("expected a message event"),
    }
}

#[test]
fn message_keeps_login_time_name() {
    let mut s = SessionState::new(2);
    decode("ALICE", &mut s);
    let ev = decode("bob -> hello", &mut s);
    match ev {
        Event::Message { from, .. } => assert_eq!(from, "alice"),
        _ => panic!("expected a message event"),
    }
}

#[test]
fn sessions_do_not_share_login_state() {
    let mut a = SessionState::new(1);
    let mut b = SessionState::new(2);
    decode("alice", &mut a);
    let ev = decode("alice -> hi", &mut b);
    assert!(matches!(ev, Event::Empty));
    assert_eq!(a.name.as_deref(), Some("alice"));
    assert!(b.name.is_none());
}

#[test]
fn logout_event_uses_last_name() {
    let mut s = SessionState::new(1);
    decode("alice", &mut s);
    match s.logout_event() {
        Event::Logout { name } => assert_eq!(name, "alice"),
        _ => panic!("expected a logout event"),
    }
}

#[test]
fn logout_event_without_login_has_empty_name() {
    let s = SessionState::new(1);
    match s.logout_event() {
        Event::Logout { name } => assert_eq!(name, ""),
        _ => panic!("expected a logout event"),
    }
}

#[test]
fn arrow_splits_at_first_occurrence() {
    let mut s = SessionState::new(1);
    decode("bob", &mut s);
    let ev = decode("alice -> see -> you", &mut s);
    match ev {
        Event::Message { to, msg, .. } => {
            assert_eq!(to, vec!["alice".to_string()]);
            assert_eq!(msg, "see -> you");
        },
        _ => panic!("expected a message event"),
    }
}
