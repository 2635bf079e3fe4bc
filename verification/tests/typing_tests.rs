use sliding_sync::counter::Counter;
use sliding_sync::typing::{TypingRegistry, stop_signals};

fn s(x: &str) -> String {
    x.to_string()
}

#[test]
fn typing_expiry_before_timeout() {
    let mut reg = TypingRegistry::new();
    let mut counter = Counter::new();
    reg.typing_add(&s("@a:x"), &s("!r:x"), 100, &mut counter, true, false);
    let users = reg.typing_users_for_user(&s("!r:x"), 99, &Vec::new());
    assert_eq!(users, vec![s("@a:x")]);
}

#[test]
fn typing_expiry_at_timeout() {
    let mut reg = TypingRegistry::new();
    let mut counter = Counter::new();
    reg.typing_add(&s("@a:x"), &s("!r:x"), 100, &mut counter, true, false);
    // absent at exactly the timeout, even though no sweep has run
    let users = reg.typing_users_for_user(&s("!r:x"), 100, &Vec::new());
    assert!(users.is_empty());
    let users = reg.typing_users_for_user(&s("!r:x"), 1000, &Vec::new());
    assert!(users.is_empty());
}

#[test]
fn typing_sweep_is_transparent_to_reads() {
    let mut reg = TypingRegistry::new();
    let mut counter = Counter::new();
    reg.typing_add(&s("@a:x"), &s("!r:x"), 100, &mut counter, true, false);
    reg.typing_add(&s("@b:x"), &s("!r:x"), 50, &mut counter, true, false);
    let removed = reg.typings_maintain(&s("!r:x"), 60, &mut counter);
    assert_eq!(removed, vec![s("@b:x")]);
    let users = reg.typing_users_for_user(&s("!r:x"), 60, &Vec::new());
    assert_eq!(users, vec![s("@a:x")]);
}

#[test]
fn typing_stop_on_absent_user_is_noop_but_bumps_cursor() {
    let mut reg = TypingRegistry::new();
    let mut counter = Counter::new();
    let before = reg.last_typing_update(&s("!r:x"), 0, &mut counter).0;
    reg.typing_remove(&s("@ghost:x"), &s("!r:x"), &mut counter, true, false);
    let after1 = reg.last_typing_update(&s("!r:x"), 0, &mut counter).0;
    reg.typing_remove(&s("@ghost:x"), &s("!r:x"), &mut counter, true, false);
    let after2 = reg.last_typing_update(&s("!r:x"), 0, &mut counter).0;
    assert!(after1 > before);
    assert!(after2 > after1);
    assert!(reg.typing_users_for_user(&s("!r:x"), 0, &Vec::new()).is_empty());
}

#[test]
fn typing_restart_supersedes_timeout() {
    let mut reg = TypingRegistry::new();
    let mut counter = Counter::new();
    reg.typing_add(&s("@a:x"), &s("!r:x"), 100, &mut counter, false, false);
    reg.typing_add(&s("@a:x"), &s("!r:x"), 300, &mut counter, false, false);
    let users = reg.typing_users_for_user(&s("!r:x"), 200, &Vec::new());
    assert_eq!(users, vec![s("@a:x")]);
}

#[test]
fn typing_query_filters_ignored_users() {
    let mut reg = TypingRegistry::new();
    let mut counter = Counter::new();
    reg.typing_add(&s("@a:x"), &s("!r:x"), 100, &mut counter, false, false);
    reg.typing_add(&s("@b:x"), &s("!r:x"), 100, &mut counter, false, false);
    let users = reg.typing_users_for_user(&s("!r:x"), 10, &vec![s("@a:x")]);
    assert_eq!(users, vec![s("@b:x")]);
}

#[test]
fn typing_federation_record_round_trips() {
    let mut reg = TypingRegistry::new();
    let mut counter = Counter::new();
    let actions = reg.typing_add(&s("@a:x"), &s("!r:x"), 100, &mut counter, true, true);
    let bytes = actions.federation.expect("local user with outgoing typing allowed");
    let value: serde_json::Value = serde_json::from_slice(&bytes).expect("valid json");
    assert_eq!(value["room_id"], serde_json::Value::String(s("!r:x")));
    assert_eq!(value["user_id"], serde_json::Value::String(s("@a:x")));
    assert_eq!(value["typing"], serde_json::Value::Bool(true));
}

#[test]
fn typing_federation_skipped_for_remote_user() {
    let mut reg = TypingRegistry::new();
    let mut counter = Counter::new();
    let actions = reg.typing_add(&s("@a:y"), &s("!r:x"), 100, &mut counter, false, true);
    assert!(actions.federation.is_none());
    let actions = reg.typing_remove(&s("@a:y"), &s("!r:x"), &mut counter, false, true);
    assert!(actions.federation.is_none());
}

#[test]
fn typing_stop_record_says_not_typing() {
    let mut reg = TypingRegistry::new();
    let mut counter = Counter::new();
    reg.typing_add(&s("@a:x"), &s("!r:x"), 100, &mut counter, true, true);
    let actions = reg.typing_remove(&s("@a:x"), &s("!r:x"), &mut counter, true, true);
    let bytes = actions.federation.expect("local user");
    let value: serde_json::Value = serde_json::from_slice(&bytes).expect("valid json");
    assert_eq!(value["typing"], serde_json::Value::Bool(false));
}

#[test]
fn sweep_stop_signals_only_for_local_users() {
    let removed = vec![s("@a:x"), s("@b:y")];
    let locals = vec![s("@a:x")];
    let signals = stop_signals(&s("!r:x"), &removed, &locals, true);
    assert_eq!(signals.len(), 1);
    let value: serde_json::Value = serde_json::from_slice(&signals[0]).expect("valid json");
    assert_eq!(value["user_id"], serde_json::Value::String(s("@a:x")));
    assert_eq!(value["typing"], serde_json::Value::Bool(false));
    let none = stop_signals(&s("!r:x"), &removed, &locals, false);
    assert!(none.is_empty());
}
