use naihe::transport::{
    build_options, http_get_request, offline_url, open_offline_payloads, parse_broker,
    response_body, session_settings, split_url, Broker, ChatMessage, OfflineEntry,
};
use naihe::cipher::seal;

#[test]
fn parse_broker_host_and_port() {
    let b = parse_broker(" broker.example:8883 ").unwrap();
    assert_eq!(b.host, "broker.example");
    assert_eq!(b.port, 8883);
    let b = parse_broker("broker.example").unwrap();
    assert_eq!(b.host, "broker.example");
    assert_eq!(b.port, 1883);
    let b = parse_broker("a:b:+80").unwrap();
    assert_eq!(b.host, "a:b");
    assert_eq!(b.port, 80);
    let b = parse_broker(":1").unwrap();
    assert_eq!(b.host, "");
    assert_eq!(b.port, 1);
}

#[test]
fn parse_broker_errors() {
    assert_eq!(parse_broker("").err().unwrap(), "MQTT server address is required");
    assert_eq!(parse_broker("   ").err().unwrap(), "MQTT server address is required");
    assert_eq!(parse_broker("host:").err().unwrap(), "invalid port: ");
    assert_eq!(parse_broker("host:65536").err().unwrap(), "invalid port: 65536");
    assert_eq!(parse_broker("host:-1").err().unwrap(), "invalid port: -1");
    assert_eq!(parse_broker("host:+").err().unwrap(), "invalid port: +");
    assert_eq!(parse_broker("host:12a").err().unwrap(), "invalid port: 12a");
    assert_eq!(parse_broker("host:00065535").unwrap().port, 65535);
}

#[test]
fn persistent_settings() {
    let broker = Broker { host: "mq.example".to_string(), port: 1883 };
    let s = session_settings(&broker, "lobby", "alice", true, 77);
    // topic "nh/4b5dc076": last four "c076"
    assert_eq!(s.client_id, "nh-c076-alic");
    assert_eq!(s.host, "mq.example");
    assert_eq!(s.port, 1883);
    assert_eq!(s.keep_alive_secs, 30);
    assert!(!s.clean_session);
    let s = session_settings(&broker, "lobby", "bo", true, 0);
    assert_eq!(s.client_id, "nh-c076-bo");
    let o = build_options(&broker, "lobby", "bo", true);
    assert_eq!(o.client_id, "nh-c076-bo");
}

#[test]
fn ephemeral_settings() {
    let broker = Broker { host: "h".to_string(), port: 1 };
    let s = session_settings(&broker, "lobby", "alice", false, 4294967295);
    assert_eq!(s.client_id, "nh-4294967295");
    assert!(s.clean_session);
    let o = build_options(&broker, "lobby", "alice", false);
    assert!(o.client_id.starts_with("nh-"));
    assert!(o.client_id[3..].parse::<u32>().is_ok());
    assert!(o.clean_session);
}

#[test]
fn offline_url_format() {
    assert_eq!(
        offline_url("10.0.0.1", "nh/4b5dc076", -5),
        "http://10.0.0.1:3777/messages?topic=nh/4b5dc076&since=-5"
    );
    assert_eq!(
        offline_url("h", "t", i64::MIN),
        "http://h:3777/messages?topic=t&since=-9223372036854775808"
    );
}

#[test]
fn url_split_and_request() {
    let (hp, path) = split_url("http://10.0.0.1:3777/messages?topic=t&since=0");
    assert_eq!(hp, "10.0.0.1:3777");
    assert_eq!(path, "/messages?topic=t&since=0");
    let (hp, path) = split_url("example.org");
    assert_eq!(hp, "example.org");
    assert_eq!(path, "/");
    assert_eq!(
        http_get_request("/messages", "10.0.0.1:3777"),
        "GET /messages HTTP/1.1\r\nHost: 10.0.0.1\r\nConnection: close\r\n\r\n"
    );
}

#[test]
fn response_body_after_headers() {
    assert_eq!(response_body(b"HTTP/1.1 200 OK\r\nA: b\r\n\r\n[1]\r\n\r\nx"), "[1]\r\n\r\nx");
    assert_eq!(response_body(b"no headers"), "no headers");
    assert_eq!(response_body(b"\r\n\r\n"), "");
    assert_eq!(response_body(b"H\r\n\r\nok\xff!"), "ok\u{fffd}!");
}

#[test]
fn offline_payloads_keep_what_opens() {
    let a = seal("{\"n\":1}", "k").unwrap();
    let b = seal("other", "not-k").unwrap();
    let entries = vec![
        OfflineEntry { payload: a, ts: 1 },
        OfflineEntry { payload: "garbage".to_string(), ts: 2 },
        OfflineEntry { payload: b, ts: 3 },
    ];
    let opened = open_offline_payloads(&entries, "k");
    assert_eq!(opened, vec!["{\"n\":1}".to_string()]);
}

#[test]
fn offline_url_splits_back() {
    let url = offline_url("relay.example", "nh/4b5dc076", 1700000000);
    let (hp, path) = split_url(&url);
    assert_eq!(hp, "relay.example:3777");
    assert_eq!(path, "/messages?topic=nh/4b5dc076&since=1700000000");
    let req = http_get_request(&path, &hp);
    assert!(req.contains("\r\nHost: relay.example\r\n"));
}

#[test]
fn outgoing_message_is_own() {
    let m = ChatMessage::outgoing("alice", "hi", "12:34:56", 1700000000);
    assert_eq!(m.nickname, "alice");
    assert_eq!(m.text, "hi");
    assert_eq!(m.time, "12:34:56");
    assert_eq!(m.timestamp, 1700000000);
    assert!(m.is_self);
    let c = m.clone();
    assert_eq!(c.text, "hi");
}
