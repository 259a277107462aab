//! MQTT relay settings, broker addresses, chat messages, and the plain-HTTP
//! exchange with the offline message service.
use vstd::prelude::*;
use vstd::utf8::{decode_utf8, valid_utf8};
use crate::cipher::{room_topic, room_topic_spec, unseal, unseal_spec};
use crate::config::{CLIENT_PREFIX, MQTT_DEFAULT_PORT, MQTT_KEEPALIVE_SECS, OFFLINE_SERVICE_PORT};
use crate::crypto::random_u32;
use crate::text::{
    chars_of, concat, decimal, find_char, find_str, first_index_of, first_occurrence,
    last_index_of, matches_at, parse_u16, parse_u16_spec, rfind_char, signed_decimal,
    starts_with, string_from_utf8_lossy, string_of, string_of_range, trim, trim_bounds,
    u64_to_decimal, i64_to_decimal, utf8_lossy,
    occurs_at,
};

verus! {

// ───────────────────────── broker address ─────────────────────────

/// Parsed broker address.
pub struct Broker {
    pub host: String,
    pub port: u16,
}

impl View for Broker {
    type V = (Seq<char>, u16);

    open spec fn view(&self) -> (Seq<char>, u16) {
        (self.host@, self.port)
    }
}

/// What `parse_broker` returns: the trimmed address split at its last `:`
/// into host and port, or the whole of it with the default port.
pub open spec fn parse_broker_spec(addr: Seq<char>) -> Result<(Seq<char>, u16), Seq<char>> {
    let t = trim(addr);
    if t.len() == 0 {
        Err("MQTT server address is required"@)
    } else {
        match last_index_of(t, ':') {
            Some(i) => {
                let p = t.subrange(i + 1, t.len() as int);
                match parse_u16_spec(p) {
                    Some(port) => Ok((t.subrange(0, i), port)),
                    None => Err("invalid port: "@ + p),
                }
            },
            None => Ok((t, MQTT_DEFAULT_PORT)),
        }
    }
}

pub open spec fn broker_result_view(r: Result<Broker, String>) -> Result<(Seq<char>, u16), Seq<char>> {
    match r {
        Ok(b) => Ok(b@),
        Err(e) => Err(e@),
    }
}

/// Parses `"host:port"` or `"host"` into a `Broker`. An empty address is an
/// error: there is no default server.
pub fn parse_broker(addr: &str) -> (r: Result<Broker, String>)
    ensures
        broker_result_view(r) == parse_broker_spec(addr@),
{
    let cs = chars_of(addr);
    let (start, end) = trim_bounds(&cs);
    let ghost t = cs@.subrange(start as int, end as int);
    if start == end {
        return Err(String::from_str("MQTT server address is required"));
    }
    let trimmed: Vec<char> = chars_of(string_of_range(&cs, start, end).as_str());
    match rfind_char(&trimmed, ':') {
        Some(i) => {
            let port_text = string_of_range(&trimmed, i + 1, trimmed.len());
            let port_chars = chars_of(port_text.as_str());
            match parse_u16(&port_chars) {
                Some(port) => Ok(Broker { host: string_of_range(&trimmed, 0, i), port }),
                None => Err(concat("invalid port: ", port_text.as_str())),
            }
        },
        None => Ok(Broker { host: string_of(&trimmed), port: MQTT_DEFAULT_PORT }),
    }
}

/// A `"host:port"` address parses back into its host and port.
pub proof fn lemma_parse_broker_address(host: Seq<char>, port: u16)
    requires
        host.len() > 0 ==> !crate::text::is_white_space(host[0]),
    ensures
        parse_broker_spec(host + seq![':'] + decimal(port as nat)) == Ok::<
            (Seq<char>, u16),
            Seq<char>,
        >((host, port)),
{
    let d = decimal(port as nat);
    let addr = host + seq![':'] + d;
    crate::text::lemma_decimal_len(port as nat);
    crate::text::lemma_digits_value_decimal(port as nat);
    assert(crate::text::is_digit_char(d[0]));
    assert(crate::text::is_digit_char(d.last()));
    assert(addr.last() == d.last());
    if host.len() > 0 {
        assert(addr[0] == host[0]);
    } else {
        assert(addr[0] == ':');
    }
    crate::text::lemma_trim_identity(addr);
    assert forall|k: int| 0 <= k < d.len() implies d[k] != ':' by {
        assert(crate::text::is_digit_char(d[k]));
    }
    crate::text::lemma_last_index_of_concat(host + seq![':'], d, ':');
    assert(addr.subrange(host.len() + 1 as int, addr.len() as int) =~= d);
    assert(addr.subrange(0, host.len() as int) =~= host);
}

// ───────────────────────── MQTT session settings ─────────────────────────

/// The settings of an MQTT session, as plain values (client id, broker
/// address, keep-alive interval, clean-session flag).
pub struct MqttSettings {
    pub client_id: String,
    pub host: String,
    pub port: u16,
    pub keep_alive_secs: u64,
    pub clean_session: bool,
}

pub struct MqttSettingsView {
    pub client_id: Seq<char>,
    pub host: Seq<char>,
    pub port: u16,
    pub keep_alive_secs: u64,
    pub clean_session: bool,
}

impl View for MqttSettings {
    type V = MqttSettingsView;

    open spec fn view(&self) -> MqttSettingsView {
        MqttSettingsView {
            client_id: self.client_id@,
            host: self.host@,
            port: self.port,
            keep_alive_secs: self.keep_alive_secs,
            clean_session: self.clean_session,
        }
    }
}

/// The last (up to) four characters of `s`.
pub open spec fn last_four(s: Seq<char>) -> Seq<char> {
    if s.len() >= 4 {
        s.subrange(s.len() - 4, s.len() as int)
    } else {
        s
    }
}

/// The first (up to) four characters of `s`.
pub open spec fn first_four(s: Seq<char>) -> Seq<char> {
    if s.len() >= 4 {
        s.take(4)
    } else {
        s
    }
}

/// The deterministic client id of a persistent session, so that the broker
/// can queue messages for it: the last four characters of the room topic and
/// the first four of the nickname.
pub open spec fn persistent_client_id(room: Seq<char>, nickname: Seq<char>) -> Seq<char> {
    CLIENT_PREFIX@ + last_four(room_topic_spec(room)) + seq!['-'] + first_four(nickname)
}

/// The client id of an ephemeral session.
pub open spec fn ephemeral_client_id(id: u32) -> Seq<char> {
    CLIENT_PREFIX@ + decimal(id as nat)
}

/// The settings that `session_settings` builds.
pub open spec fn session_settings_spec(
    broker: (Seq<char>, u16),
    room: Seq<char>,
    nickname: Seq<char>,
    persistent: bool,
    ephemeral_id: u32,
) -> MqttSettingsView {
    MqttSettingsView {
        client_id: if persistent {
            persistent_client_id(room, nickname)
        } else {
            ephemeral_client_id(ephemeral_id)
        },
        host: broker.0,
        port: broker.1,
        keep_alive_secs: MQTT_KEEPALIVE_SECS,
        clean_session: !persistent,
    }
}

/// The settings for a persistent (private) or ephemeral (public) session;
/// `ephemeral_id` numbers an ephemeral session.
pub fn session_settings(
    broker: &Broker,
    room: &str,
    nickname: &str,
    persistent: bool,
    ephemeral_id: u32,
) -> (r: MqttSettings)
    ensures
        r@ == session_settings_spec(broker@, room@, nickname@, persistent, ephemeral_id),
        r.host@ == broker.host@,
        r.port == broker.port,
        r.keep_alive_secs == MQTT_KEEPALIVE_SECS,
        r.clean_session == !persistent,
        persistent ==> r.client_id@ == persistent_client_id(room@, nickname@),
        !persistent ==> r.client_id@ == ephemeral_client_id(ephemeral_id),
{
    let client_id = if persistent {
        let topic = chars_of(room_topic(room).as_str());
        let n = topic.len();
        let from = if n >= 4 {
            n - 4
        } else {
            0
        };
        let tail = string_of_range(&topic, from, n);
        let nick = chars_of(nickname);
        let m = if nick.len() >= 4 {
            4
        } else {
            nick.len()
        };
        let head = string_of_range(&nick, 0, m);
        let a = concat(CLIENT_PREFIX, tail.as_str());
        let b = concat(a.as_str(), "-");
        proof {
            reveal_strlit("-");
            if n < 4 {
                assert(topic@.subrange(0, n as int) =~= topic@);
            }
            if nick@.len() < 4 {
                assert(nick@.subrange(0, m as int) =~= nick@);
            } else {
                assert(nick@.subrange(0, 4) =~= nick@.take(4));
            }
        }
        let id = concat(b.as_str(), head.as_str());
        assert(tail@ == last_four(room_topic_spec(room@)));
        assert(head@ == first_four(nickname@));
        assert(id@ == persistent_client_id(room@, nickname@));
        id
    } else {
        let digits = u64_to_decimal(ephemeral_id as u64);
        concat(CLIENT_PREFIX, digits.as_str())
    };
    MqttSettings {
        client_id,
        host: broker.host.clone(),
        port: broker.port,
        keep_alive_secs: MQTT_KEEPALIVE_SECS,
        clean_session: !persistent,
    }
}

/// Whatever the room, nickname, kind of session and ephemeral number, the
/// settings connect to the broker that was given: its host and its port.
pub proof fn lemma_settings_use_broker(
    broker: (Seq<char>, u16),
    room: Seq<char>,
    nickname: Seq<char>,
    persistent: bool,
    ephemeral_id: u32,
)
    ensures
        session_settings_spec(broker, room, nickname, persistent, ephemeral_id).host == broker.0,
        session_settings_spec(broker, room, nickname, persistent, ephemeral_id).port == broker.1,
        session_settings_spec(broker, room, nickname, persistent, ephemeral_id).clean_session
            == !persistent,
{
}

/// Builds the settings for an ephemeral (public) or persistent (private)
/// session; an ephemeral session gets a random client id.
pub fn build_options(broker: &Broker, room: &str, nickname: &str, persistent: bool) -> (r:
    MqttSettings)
    ensures
        persistent ==> r@ == session_settings_spec(broker@, room@, nickname@, true, 0),
        exists|id: u32| r@ == session_settings_spec(broker@, room@, nickname@, persistent, id),
        r.host@ == broker.host@,
        r.port == broker.port,
        r.keep_alive_secs == MQTT_KEEPALIVE_SECS,
        r.clean_session == !persistent,
        persistent ==> r.client_id@ == persistent_client_id(room@, nickname@),
        !persistent ==> exists|id: u32| r.client_id@ == ephemeral_client_id(id),
{
    if persistent {
        session_settings(broker, room, nickname, true, 0)
    } else {
        let id = random_u32();
        session_settings(broker, room, nickname, false, id)
    }
}

// ───────────────────────── chat messages ─────────────────────────

/// A decrypted chat message ready for the frontend.
#[derive(Clone)]
pub struct ChatMessage {
    pub nickname: String,
    pub text: String,
    pub time: String,
    pub timestamp: i64,
    pub is_self: bool,
}

impl ChatMessage {
    /// A message one sends: one's own nickname, the text, the local time of
    /// sending (as shown and as a Unix timestamp), marked as one's own.
    pub fn outgoing(nickname: &str, text: &str, time: &str, timestamp: i64) -> (r: ChatMessage)
        ensures
            r.nickname@ == nickname@,
            r.text@ == text@,
            r.time@ == time@,
            r.timestamp == timestamp,
            r.is_self,
    {
        ChatMessage {
            nickname: String::from_str(nickname),
            text: String::from_str(text),
            time: String::from_str(time),
            timestamp,
            is_self: true,
        }
    }
}

/// One stored message as the offline service lists it: the sealed payload
/// and the time it was stored.
pub struct OfflineEntry {
    pub payload: String,
    pub ts: i64,
}

// ───────────────────────── offline message service ─────────────────────────

/// The URL that lists the messages of `topic` stored since `since`.
pub open spec fn offline_url_spec(host: Seq<char>, topic: Seq<char>, since: i64) -> Seq<char> {
    "http://"@ + host + seq![':'] + decimal(OFFLINE_SERVICE_PORT as nat) + "/messages?topic="@
        + topic + "&since="@ + signed_decimal(since as int)
}

/// The URL of the offline message service for a topic.
pub fn offline_url(host: &str, topic: &str, since: i64) -> (r: String)
    ensures
        r@ == offline_url_spec(host@, topic@, since),
{
    let port = u64_to_decimal(OFFLINE_SERVICE_PORT as u64);
    let since_text = i64_to_decimal(since);
    let a = concat("http://", host);
    let b = concat(a.as_str(), ":");
    let c = concat(b.as_str(), port.as_str());
    let d = concat(c.as_str(), "/messages?topic=");
    let e = concat(d.as_str(), topic);
    let f = concat(e.as_str(), "&since=");
    proof {
        reveal_strlit(":");
    }
    concat(f.as_str(), since_text.as_str())
}

/// `url` without a leading `http://`.
pub open spec fn strip_scheme(url: Seq<char>) -> Seq<char> {
    if starts_with(url, "http://"@) {
        url.skip(7)
    } else {
        url
    }
}

/// What `split_url` returns: the `host:port` part and the path (with its `/`).
pub open spec fn split_url_spec(url: Seq<char>) -> (Seq<char>, Seq<char>) {
    let u = strip_scheme(url);
    match first_index_of(u, '/') {
        Some(i) => (u.take(i), u.skip(i)),
        None => (u, seq!['/']),
    }
}

/// Splits a plain-HTTP URL into its `host:port` part and its path.
pub fn split_url(url: &str) -> (r: (String, String))
    ensures
        (r.0@, r.1@) == split_url_spec(url@),
{
    let cs = chars_of(url);
    let scheme = chars_of("http://");
    proof {
        reveal_strlit("http://");
    }
    let start: usize = if matches_at(&cs, &scheme, 0) {
        7
    } else {
        0
    };
    let u = chars_of(string_of_range(&cs, start, cs.len()).as_str());
    proof {
        if start == 0 {
            assert(cs@.subrange(0, cs@.len() as int) =~= cs@);
        } else {
            assert(cs@.subrange(7, cs@.len() as int) =~= cs@.skip(7));
        }
    }
    match find_char(&u, '/') {
        Some(i) => {
            let host_port = string_of_range(&u, 0, i);
            let path = string_of_range(&u, i, u.len());
            proof {
                assert(u@.subrange(0, i as int) =~= u@.take(i as int));
                assert(u@.subrange(i as int, u@.len() as int) =~= u@.skip(i as int));
            }
            (host_port, path)
        },
        None => {
            proof {
                reveal_strlit("/");
            }
            (string_of(&u), String::from_str("/"))
        },
    }
}

/// The `Host` header value for a `host:port` pair: the part before the first `:`.
pub open spec fn host_header_spec(host_port: Seq<char>) -> Seq<char> {
    match first_index_of(host_port, ':') {
        Some(i) => host_port.take(i),
        None => host_port,
    }
}

/// What `http_get_request` returns.
pub open spec fn http_get_request_spec(path: Seq<char>, host_port: Seq<char>) -> Seq<char> {
    "GET "@ + path + " HTTP/1.1\r\nHost: "@ + host_header_spec(host_port)
        + "\r\nConnection: close\r\n\r\n"@
}

/// The bytes of a minimal HTTP/1.1 GET request for `path` on `host_port`.
pub fn http_get_request(path: &str, host_port: &str) -> (r: String)
    ensures
        r@ == http_get_request_spec(path@, host_port@),
{
    let hp = chars_of(host_port);
    let host = match find_char(&hp, ':') {
        Some(i) => {
            assert(hp@.subrange(0, i as int) =~= hp@.take(i as int));
            string_of_range(&hp, 0, i)
        },
        None => string_of(&hp),
    };
    let a = concat("GET ", path);
    let b = concat(a.as_str(), " HTTP/1.1\r\nHost: ");
    let c = concat(b.as_str(), host.as_str());
    concat(c.as_str(), "\r\nConnection: close\r\n\r\n")
}

/// The blank line that ends the headers of an HTTP response.
pub open spec fn header_end() -> Seq<char> {
    seq!['\r', '\n', '\r', '\n']
}

/// What `response_body` returns: the text after the first blank line, or all
/// of it when there is none.
pub open spec fn response_body_spec(text: Seq<char>) -> Seq<char> {
    if exists|i: int| first_occurrence(text, header_end(), i) {
        text.skip((choose|i: int| first_occurrence(text, header_end(), i)) + 4)
    } else {
        text
    }
}

/// The body of an HTTP response: its bytes read as UTF-8 (invalid sequences
/// replaced), then what follows the first `\r\n\r\n`.
pub fn response_body(response: &[u8]) -> (r: String)
    ensures
        r@ == response_body_spec(utf8_lossy(response@)),
        valid_utf8(response@) ==> r@ == response_body_spec(decode_utf8(response@)),
{
    let text = string_from_utf8_lossy(response);
    let cs = chars_of(text.as_str());
    let mut sep: Vec<char> = Vec::new();
    sep.push('\r');
    sep.push('\n');
    sep.push('\r');
    sep.push('\n');
    assert(sep@ =~= header_end());
    match find_str(&cs, &sep) {
        Some(i) => {
            proof {
                assert(occurs_at(cs@, sep@, i as int));
                assert(sep@.len() == 4);
                assert(i + 4 <= cs@.len());
                assert forall|j: int| first_occurrence(cs@, header_end(), j) implies j == i by {
                    if j < i {
                    } else if j > i {
                    }
                }
            }
            let n = cs.len();
            let r = string_of_range(&cs, i + 4, n);
            assert(cs@.subrange(i + 4, cs@.len() as int) =~= cs@.skip(i + 4));
            r
        },
        None => string_of(&cs),
    }
}

/// The plaintexts of the payloads that `unseal` opens under `passphrase`, in order.
pub open spec fn opened_payloads(payloads: Seq<Seq<char>>, passphrase: Seq<char>) -> Seq<Seq<char>>
    decreases payloads.len(),
{
    if payloads.len() == 0 {
        Seq::empty()
    } else {
        let rest = opened_payloads(payloads.drop_last(), passphrase);
        match unseal_spec(payloads.last(), passphrase) {
            Ok(t) => rest.push(t),
            Err(_) => rest,
        }
    }
}

/// Whether `payload` opens under `passphrase`.
pub open spec fn opens(payload: Seq<char>, passphrase: Seq<char>) -> bool {
    unseal_spec(payload, passphrase) is Ok
}

/// The plaintext that `payload` opens to under `passphrase`.
pub open spec fn opened_text(payload: Seq<char>, passphrase: Seq<char>) -> Seq<char> {
    unseal_spec(payload, passphrase)->Ok_0
}

/// How many of the payloads open under `passphrase`.
pub open spec fn open_count(payloads: Seq<Seq<char>>, passphrase: Seq<char>) -> nat
    decreases payloads.len(),
{
    if payloads.len() == 0 {
        0
    } else {
        open_count(payloads.drop_last(), passphrase) + if opens(payloads.last(), passphrase) {
            1nat
        } else {
            0nat
        }
    }
}

proof fn lemma_opened_len(ps: Seq<Seq<char>>, pass: Seq<char>)
    ensures
        opened_payloads(ps, pass).len() == open_count(ps, pass),
    decreases ps.len(),
{
    if ps.len() > 0 {
        lemma_opened_len(ps.drop_last(), pass);
    }
}

proof fn lemma_open_count_mono(ps: Seq<Seq<char>>, pass: Seq<char>, a: int, b: int)
    requires
        0 <= a <= b <= ps.len(),
    ensures
        open_count(ps.take(a), pass) <= open_count(ps.take(b), pass),
    decreases b - a,
{
    if a < b {
        assert(ps.take(b).drop_last() =~= ps.take(b - 1));
        lemma_open_count_mono(ps, pass, a, b - 1);
    }
}

/// An opening payload's plaintext stands in the result at the number of
/// opening payloads before it.
proof fn lemma_opened_at(ps: Seq<Seq<char>>, pass: Seq<char>, i: int)
    requires
        0 <= i < ps.len(),
        opens(ps[i], pass),
    ensures
        open_count(ps.take(i), pass) < open_count(ps, pass),
        opened_payloads(ps, pass)[open_count(ps.take(i), pass) as int] == opened_text(ps[i], pass),
    decreases ps.len(),
{
    let rest = ps.drop_last();
    lemma_opened_len(rest, pass);
    if i == ps.len() - 1 {
        assert(ps.take(i) =~= rest);
    } else {
        assert(rest.take(i) =~= ps.take(i));
        lemma_opened_at(rest, pass, i);
    }
}

/// The offline messages keep the service's order: when entries `i < j` both
/// open, the plaintext of `i` comes before that of `j`, and the result holds
/// exactly one plaintext per opening entry.
pub proof fn lemma_opened_payloads_keep_order(
    ps: Seq<Seq<char>>,
    pass: Seq<char>,
    i: int,
    j: int,
)
    requires
        0 <= i < j < ps.len(),
        opens(ps[i], pass),
        opens(ps[j], pass),
    ensures
        opened_payloads(ps, pass).len() == open_count(ps, pass),
        exists|a: int, b: int|
            0 <= a < b < opened_payloads(ps, pass).len() && opened_payloads(ps, pass)[a]
                == opened_text(ps[i], pass) && opened_payloads(ps, pass)[b] == opened_text(
                ps[j],
                pass,
            ),
{
    lemma_opened_len(ps, pass);
    lemma_opened_at(ps, pass, i);
    lemma_opened_at(ps, pass, j);
    lemma_open_count_mono(ps, pass, i + 1, j);
    assert(ps.take(i + 1).drop_last() =~= ps.take(i));
    assert(ps.take(i + 1).last() == ps[i]);
    let a = open_count(ps.take(i), pass) as int;
    let b = open_count(ps.take(j), pass) as int;
    assert(0 <= a < b < opened_payloads(ps, pass).len());
}

/// Decrypts the stored entries fetched from the offline service, keeping
/// the plaintexts of those that open under `passphrase`, in order.
pub fn open_offline_payloads(entries: &Vec<OfflineEntry>, passphrase: &str) -> (r: Vec<String>)
    ensures
        r@.map_values(|s: String| s@) == opened_payloads(
            entries@.map_values(|e: OfflineEntry| e.payload@),
            passphrase@,
        ),
        r@.len() == open_count(entries@.map_values(|e: OfflineEntry| e.payload@), passphrase@),
        forall|i: int|
            0 <= i < entries@.len() && opens(#[trigger] entries@[i].payload@, passphrase@) ==> {
                let k = open_count(
                    entries@.map_values(|e: OfflineEntry| e.payload@).take(i),
                    passphrase@,
                );
                &&& k < r@.len()
                &&& r@[k as int]@ == opened_text(entries@[i].payload@, passphrase@)
            },
        forall|i: int, j: int|
            0 <= i < j < entries@.len() && opens(#[trigger] entries@[i].payload@, passphrase@)
                && opens(#[trigger] entries@[j].payload@, passphrase@) ==> open_count(
                entries@.map_values(|e: OfflineEntry| e.payload@).take(i),
                passphrase@,
            ) < open_count(entries@.map_values(|e: OfflineEntry| e.payload@).take(j), passphrase@),
{
    let ghost all = entries@.map_values(|e: OfflineEntry| e.payload@);
    let mut out: Vec<String> = Vec::new();
    let mut i: usize = 0;
    while i < entries.len()
        invariant
            i <= entries@.len(),
            all == entries@.map_values(|e: OfflineEntry| e.payload@),
            out@.map_values(|s: String| s@) == opened_payloads(all.take(i as int), passphrase@),
        decreases entries@.len() - i,
    {
        let ghost prev = out@;
        let opened = unseal(entries[i].payload.as_str(), passphrase);
        proof {
            assert(all.take(i + 1).drop_last() =~= all.take(i as int));
            assert(all.take(i + 1).last() == entries@[i as int].payload@);
        }
        match opened {
            Ok(t) => {
                out.push(t);
                assert(out@.map_values(|s: String| s@) =~= prev.map_values(|s: String| s@).push(
                    t@,
                ));
            },
            Err(_) => {},
        }
        i += 1;
    }
    assert(all.take(i as int) =~= all);
    proof {
        lemma_opened_len(all, passphrase@);
        assert forall|k: int|
            0 <= k < entries@.len() && opens(#[trigger] entries@[k].payload@, passphrase@) implies {
            let c = open_count(all.take(k), passphrase@);
            &&& c < out@.len()
            &&& out@[c as int]@ == opened_text(entries@[k].payload@, passphrase@)
        } by {
            assert(all[k] == entries@[k].payload@);
            lemma_opened_at(all, passphrase@, k);
            let c = open_count(all.take(k), passphrase@);
            assert(out@.map_values(|s: String| s@)[c as int] == out@[c as int]@);
        }
        assert forall|a: int, b: int|
            0 <= a < b < entries@.len() && opens(#[trigger] entries@[a].payload@, passphrase@)
                && opens(#[trigger] entries@[b].payload@, passphrase@) implies open_count(
            all.take(a),
            passphrase@,
        ) < open_count(all.take(b), passphrase@) by {
            assert(all[a] == entries@[a].payload@);
            lemma_open_count_mono(all, passphrase@, a + 1, b);
            assert(all.take(a + 1).drop_last() =~= all.take(a));
            assert(all.take(a + 1).last() == all[a]);
        }
    }
    out
}

/// The offline-service URL splits back into the service's `host:port` and the
/// query path, and the request's `Host` header is the host, for a host name
/// without `/` or `:`.
pub proof fn lemma_offline_url_split(host: Seq<char>, topic: Seq<char>, since: i64)
    requires
        forall|k: int| 0 <= k < host.len() ==> host[k] != '/' && host[k] != ':',
    ensures
        split_url_spec(offline_url_spec(host, topic, since)) == (
            host + seq![':'] + decimal(OFFLINE_SERVICE_PORT as nat),
            "/messages?topic="@ + topic + "&since="@ + signed_decimal(since as int),
        ),
        host_header_spec(host + seq![':'] + decimal(OFFLINE_SERVICE_PORT as nat)) == host,
{
    reveal_strlit("http://");
    reveal_strlit("/messages?topic=");
    let d = decimal(OFFLINE_SERVICE_PORT as nat);
    crate::text::lemma_decimal_len(OFFLINE_SERVICE_PORT as nat);
    let host_port = host + seq![':'] + d;
    let path = "/messages?topic="@ + topic + "&since="@ + signed_decimal(since as int);
    let url = offline_url_spec(host, topic, since);
    assert(url =~= "http://"@ + (host_port + path));
    assert(url.subrange(0, 7) =~= "http://"@);
    assert(strip_scheme(url) =~= host_port + path);
    assert forall|k: int| 0 <= k < host_port.len() implies host_port[k] != '/' by {
        if k > host.len() {
            assert(crate::text::is_digit_char(d[k - host.len() - 1]));
        }
    }
    assert(path[0] == '/');
    crate::text::lemma_first_index_of_concat(host_port, path, '/');
    assert((host_port + path).take(host_port.len() as int) =~= host_port);
    assert((host_port + path).skip(host_port.len() as int) =~= path);
    crate::text::lemma_first_index_of_concat(host, seq![':'] + d, ':');
    assert(host + (seq![':'] + d) =~= host_port);
    assert(host_port.take(host.len() as int) =~= host);
}

} // verus!
