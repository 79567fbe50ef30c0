use chat_relay::frame::{format_line, parse_auth_frame, parse_chat_frame};
use chat_relay::gateway::{Conn, FrameOutcome, Server};

#[test]
fn parses_chat_payload() {
    let frame = parse_chat_frame("{\"name\":\"bob\",\"msg\":\"hi\"}").unwrap();
    assert_eq!(frame.name, "bob");
    assert_eq!(frame.msg, "hi");
    let spaced = parse_chat_frame(" { \"msg\" : \"a b\" , \"name\" : \"x\" } ").unwrap();
    assert_eq!(spaced.msg, "a b");
    assert!(parse_chat_frame("not json").is_none());
    assert!(parse_chat_frame("{\"name\":\"bob\"}").is_none());
    assert!(parse_chat_frame("{\"name\":1,\"msg\":\"hi\"}").is_none());
    assert!(parse_chat_frame("[\"name\",\"msg\"]").is_none());
}

#[test]
fn parses_auth_payload() {
    let frame = parse_auth_frame("{\"username\":\"alice\",\"password\":\"secret\"}").unwrap();
    assert_eq!(frame.username, "alice");
    assert_eq!(frame.password, "secret");
    assert!(parse_auth_frame("{\"username\":\"alice\"}").is_none());
    assert!(parse_auth_frame("").is_none());
    assert!(parse_auth_frame("{\"username\":{},\"password\":\"p\"}").is_none());
}

#[test]
fn formats_author_and_body() {
    assert_eq!(format_line("alice", "hello"), "alice: hello");
    assert_eq!(format_line("", ""), ": ");
}

#[test]
fn malformed_first_frame_rejects_explicitly() {
    let mut server = Server::new(100, 16);
    let mut conn = Conn::open();
    match server.handle_frame(&mut conn, "hello", 1) {
        FrameOutcome::Rejected { reply } => assert_eq!(reply, "#auth-rejected"),
        _ => panic!("expected rejection"),
    }
    assert!(matches!(conn, Conn::Closed));
}

#[test]
fn chat_lines_carry_the_session_identity() {
    let mut server = Server::new(100, 16);
    let mut conn = Conn::open();
    server.handle_frame(&mut conn, "{\"username\":\"alice\",\"password\":\"s\"}", 1);
    // The payload's display name does not override the authenticated one.
    match server.handle_frame(&mut conn, "{\"name\":\"mallory\",\"msg\":\"hey\"}", 2) {
        FrameOutcome::Broadcast { line } => assert_eq!(line, "alice: hey"),
        _ => panic!("expected a broadcast"),
    }
}

#[test]
fn unusable_frames_are_ignored_when_active() {
    let mut server = Server::new(100, 16);
    let mut conn = Conn::open();
    server.handle_frame(&mut conn, "{\"username\":\"alice\",\"password\":\"s\"}", 1);
    assert!(matches!(
        server.handle_frame(&mut conn, "just text", 2),
        FrameOutcome::Ignored
    ));
    assert!(matches!(conn, Conn::Active { .. }));
    assert_eq!(server.log_snapshot(), Vec::<String>::new());
}

#[test]
fn close_unregisters_and_is_idempotent() {
    let mut server = Server::new(100, 16);
    let mut conn = Conn::open();
    let out = server.handle_frame(&mut conn, "{\"username\":\"alice\",\"password\":\"s\"}", 1);
    let id = match (&out, &conn) {
        (FrameOutcome::Accepted { .. }, Conn::Active { handle_id, .. }) => *handle_id,
        _ => panic!("expected acceptance"),
    };
    server.close(&mut conn);
    assert!(matches!(conn, Conn::Closed));
    server.close(&mut conn);
    // A closed session receives no further fan-out.
    let mut other = Conn::open();
    server.handle_frame(&mut other, "{\"username\":\"bob\",\"password\":\"p\"}", 2);
    server.handle_frame(&mut other, "{\"name\":\"bob\",\"msg\":\"hi\"}", 3);
    assert_eq!(server.take_pending(id), Vec::<String>::new());
}

#[test]
fn scenario_three_clients() {
    let mut server = Server::new(100, 16);

    // Client A authenticates as alice/secret and is accepted.
    let mut conn_a = Conn::open();
    let out = server.handle_frame(
        &mut conn_a,
        "{\"username\":\"alice\",\"password\":\"secret\"}",
        1,
    );
    let a_id = match (&out, &conn_a) {
        (FrameOutcome::Accepted { ack, replay }, Conn::Active { identity, handle_id }) => {
            assert_eq!(ack, "#auth-ok");
            assert!(replay.is_empty());
            assert_eq!(identity, "alice");
            *handle_id
        }
        _ => panic!("expected acceptance"),
    };

    // A sends "hello": everyone registered (just A; echo is on) gets it.
    match server.handle_frame(&mut conn_a, "{\"name\":\"alice\",\"msg\":\"hello\"}", 2) {
        FrameOutcome::Broadcast { line } => assert_eq!(line, "alice: hello"),
        _ => panic!("expected a broadcast"),
    }
    assert_eq!(server.take_pending(a_id), vec!["alice: hello".to_string()]);

    // Client B tries alice with the wrong password: explicit rejection,
    // no registration, no log mutation.
    let mut conn_b = Conn::open();
    match server.handle_frame(
        &mut conn_b,
        "{\"username\":\"alice\",\"password\":\"wrong\"}",
        3,
    ) {
        FrameOutcome::Rejected { reply } => assert_eq!(reply, "#auth-rejected"),
        _ => panic!("expected rejection"),
    }
    assert!(matches!(conn_b, Conn::Closed));
    assert_eq!(server.log_snapshot(), vec!["alice: hello".to_string()]);

    // Client C joins as bob (new): accepted, and replayed the backlog.
    let mut conn_c = Conn::open();
    let out = server.handle_frame(&mut conn_c, "{\"username\":\"bob\",\"password\":\"pw\"}", 4);
    let c_id = match (&out, &conn_c) {
        (FrameOutcome::Accepted { ack, replay }, Conn::Active { handle_id, .. }) => {
            assert_eq!(ack, "#auth-ok");
            assert_eq!(replay, &vec!["alice: hello".to_string()]);
            *handle_id
        }
        _ => panic!("expected acceptance"),
    };

    // C sends "hi": both A and C receive "bob: hi".
    match server.handle_frame(&mut conn_c, "{\"name\":\"bob\",\"msg\":\"hi\"}", 5) {
        FrameOutcome::Broadcast { line } => assert_eq!(line, "bob: hi"),
        _ => panic!("expected a broadcast"),
    }
    assert_eq!(server.take_pending(a_id), vec!["bob: hi".to_string()]);
    assert_eq!(server.take_pending(c_id), vec!["bob: hi".to_string()]);
}
