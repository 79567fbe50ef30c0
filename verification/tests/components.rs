use chat_relay::auth::{hash_password, AuthOutcome, CredentialStore};
use chat_relay::hub::Hub;
use chat_relay::message_log::MessageLog;

#[test]
fn log_keeps_everything_under_capacity() {
    let mut log = MessageLog::new(100);
    log.append("alice: hello".to_string());
    log.append("bob: hi".to_string());
    assert_eq!(log.len(), 2);
    assert_eq!(
        log.snapshot(),
        vec!["alice: hello".to_string(), "bob: hi".to_string()]
    );
}

#[test]
fn log_evicts_oldest_beyond_capacity() {
    let mut log = MessageLog::new(3);
    for i in 0..5 {
        log.append(format!("m{}", i));
    }
    assert_eq!(
        log.snapshot(),
        vec!["m2".to_string(), "m3".to_string(), "m4".to_string()]
    );
}

#[test]
fn log_capacity_one_keeps_only_latest() {
    let mut log = MessageLog::new(1);
    log.append("first".to_string());
    log.append("second".to_string());
    assert_eq!(log.snapshot(), vec!["second".to_string()]);
}

#[test]
fn snapshot_is_a_copy() {
    let mut log = MessageLog::new(10);
    log.append("one".to_string());
    let snap = log.snapshot();
    log.append("two".to_string());
    assert_eq!(snap, vec!["one".to_string()]);
    assert_eq!(log.snapshot(), vec!["one".to_string(), "two".to_string()]);
}

#[test]
fn auth_idempotence() {
    let mut store = CredentialStore::new();
    assert_eq!(store.verify_or_enroll("alice", "p1", 42), AuthOutcome::Accepted);
    assert_eq!(store.verify_or_enroll("alice", "p1", 43), AuthOutcome::Accepted);
    assert_eq!(store.verify_or_enroll("alice", "p2", 44), AuthOutcome::Rejected);
    assert_eq!(store.verify_or_enroll("bob", "pw", 45), AuthOutcome::Accepted);
    assert_eq!(store.len(), 2);
}

#[test]
fn enrollment_does_not_grow_on_known_username() {
    let mut store = CredentialStore::new();
    store.verify_or_enroll("alice", "p1", 1);
    store.verify_or_enroll("alice", "p1", 2);
    store.verify_or_enroll("alice", "other", 3);
    assert_eq!(store.len(), 1);
}

#[test]
fn hash_is_a_salted_fold() {
    assert_eq!(hash_password(7, ""), 7);
    assert_eq!(hash_password(1, "A"), 31 + 65);
    assert_ne!(hash_password(5, "p1"), hash_password(5, "p2"));
    assert_ne!(hash_password(5, "p1"), hash_password(6, "p1"));
}

#[test]
fn hash_collisions_exist() {
    // The rolling multiplier is 31, so "Aa" and "BB" collide under every
    // salt; a store holding one of them accepts the other.
    assert_eq!(hash_password(5, "Aa"), hash_password(5, "BB"));
    let mut store = CredentialStore::new();
    assert_eq!(store.verify_or_enroll("u", "Aa", 9), AuthOutcome::Accepted);
    assert_eq!(store.verify_or_enroll("u", "BB", 10), AuthOutcome::Accepted);
}

#[test]
fn fifo_per_recipient() {
    let mut hub = Hub::new(10);
    let a = hub.register();
    let b = hub.register();
    hub.broadcast("one");
    hub.broadcast("two");
    hub.broadcast("three");
    let expected = vec!["one".to_string(), "two".to_string(), "three".to_string()];
    assert_eq!(hub.take_pending(a), expected);
    assert_eq!(hub.take_pending(b), expected);
    assert_eq!(hub.take_pending(a), Vec::<String>::new());
}

#[test]
fn new_handle_receives_only_later_broadcasts() {
    let mut hub = Hub::new(10);
    let a = hub.register();
    hub.broadcast("early");
    let b = hub.register();
    hub.broadcast("late");
    assert_eq!(
        hub.take_pending(a),
        vec!["early".to_string(), "late".to_string()]
    );
    assert_eq!(hub.take_pending(b), vec!["late".to_string()]);
}

#[test]
fn failed_delivery_prunes_only_that_handle() {
    let mut hub = Hub::new(1);
    let slow = hub.register();
    let ok = hub.register();
    hub.broadcast("first");
    let _ = hub.take_pending(ok);
    // slow's queue is still full: this delivery fails and prunes it.
    hub.broadcast("second");
    assert!(!hub.is_registered(slow));
    assert!(hub.is_registered(ok));
    assert_eq!(hub.take_pending(ok), vec!["second".to_string()]);
    hub.broadcast("third");
    assert_eq!(hub.take_pending(slow), Vec::<String>::new());
    assert_eq!(hub.take_pending(ok), vec!["third".to_string()]);
}

#[test]
fn unregister_twice_is_a_noop() {
    let mut hub = Hub::new(4);
    let a = hub.register();
    let b = hub.register();
    hub.unregister(a);
    assert_eq!(hub.len(), 1);
    hub.unregister(a);
    assert_eq!(hub.len(), 1);
    assert!(hub.is_registered(b));
}

#[test]
fn registration_ids_are_never_reused() {
    let mut hub = Hub::new(4);
    let a = hub.register();
    hub.unregister(a);
    let b = hub.register();
    assert_ne!(a, b);
}
