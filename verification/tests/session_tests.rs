use naihe::session::{
    connect_status, history_file_name, incoming_to_show, is_persistent, open_incoming,
    outgoing_payload, strip_ephemeral_marker,
};
use naihe::transport::ChatMessage;
use naihe::shield::Verdict;
use naihe::cipher::seal;

#[test]
fn persistence_needs_offline_and_server() {
    assert!(is_persistent(true, "host"));
    assert!(!is_persistent(true, "  "));
    assert!(!is_persistent(false, "host"));
}

#[test]
fn ephemeral_marker_roundtrip() {
    assert_eq!(outgoing_payload("abc", false), "~abc");
    assert_eq!(outgoing_payload("abc", true), "abc");
    assert_eq!(strip_ephemeral_marker("~abc"), "abc");
    assert_eq!(strip_ephemeral_marker("abc"), "abc");
    assert_eq!(strip_ephemeral_marker(""), "");
    let sealed = seal("hi", "k").unwrap();
    for persistent in [false, true] {
        let p = outgoing_payload(&sealed, persistent);
        assert_eq!(strip_ephemeral_marker(&p), sealed);
        assert_eq!(open_incoming(p.as_bytes(), "k").unwrap(), "hi");
    }
}

#[test]
fn status_line() {
    assert_eq!(connect_status(true, "mq"), "connected (persistent) to mq");
    assert_eq!(connect_status(false, "mq"), "connected (ephemeral) to mq");
}

#[test]
fn incoming_filter() {
    let msg = ChatMessage {
        nickname: "bob".to_string(),
        text: "hello".to_string(),
        time: "12:00:00".to_string(),
        timestamp: 7,
        is_self: true,
    };
    let shown = incoming_to_show(msg, "alice").unwrap();
    assert_eq!(shown.nickname, "bob");
    assert_eq!(shown.text, "hello");
    assert!(!shown.is_self);
    let own = ChatMessage {
        nickname: "alice".to_string(),
        text: "x".to_string(),
        time: String::new(),
        timestamp: 0,
        is_self: false,
    };
    assert!(incoming_to_show(own, "alice").is_none());
}

#[test]
fn history_name() {
    assert_eq!(history_file_name("lobby"), "nh_4b5dc076.naihe");
}

#[test]
fn unlock_attempts() {
    let flagged = vec!["FRIDA_SERVER".to_string()];
    assert!(!naihe::session::verify_unlock("technology is innocent", &flagged, None));
    let clean = vec!["PATH".to_string()];
    assert!(!naihe::session::verify_unlock("technology is innocent", &clean, Some(3)));
    assert!(!naihe::session::verify_unlock("wrong", &clean, None));
}

#[test]
fn unlock_with_verdicts() {
    assert!(naihe::session::unlock_with(Verdict::Clean, " Technology is innocent "));
    assert!(!naihe::session::unlock_with(Verdict::Suspicious, "technology is innocent"));
    assert!(!naihe::session::unlock_with(Verdict::Clean, "wrong"));
}

#[test]
fn incoming_bytes_are_read_lossily() {
    assert_eq!(open_incoming(b"~\xff\xfe", "k").unwrap_err(), "invalid encoding");
}
