//! Decisions of a chat session: the unlock attempt, persistence mode, the
//! ephemeral marker on published payloads, the connection status line,
//! incoming-message filtering and the history file name.
use vstd::prelude::*;
use crate::cipher::{check_gate, gate_accepts, room_topic, room_topic_spec, unseal, unseal_spec};
use crate::config::{ENABLE_SHIELD, HISTORY_EXT};
use crate::shield::{env_verdict, names_of, probe, probe_spec, thread_verdict, timing_verdict_spec, Verdict};
use vstd::utf8::{decode_utf8, valid_utf8};
use crate::text::{
    chars_of, concat, push_char, string_from_utf8_lossy, string_of_range, trim, trim_str, utf8_lossy,
};
use crate::transport::ChatMessage;

verus! {

/// The answer to an unlock attempt, given the integrity verdict.
pub open spec fn unlock_spec(verdict: Verdict, input: Seq<char>) -> bool {
    !(ENABLE_SHIELD && verdict == Verdict::Suspicious) && gate_accepts(input)
}

/// An unlock attempt: refused when the integrity probes find the process
/// suspicious, otherwise decided by `check_gate`. The environment's
/// variable names and (on Windows) the process id are handed in.
pub fn verify_unlock(input: &str, keys: &Vec<String>, pid: Option<u32>) -> (r: bool)
    ensures
        r == unlock_spec(probe_spec(Verdict::Clean, names_of(keys@), pid), input@) || r
            == unlock_spec(probe_spec(Verdict::Suspicious, names_of(keys@), pid), input@),
        r ==> gate_accepts(input@),
{
    if !ENABLE_SHIELD {
        return check_gate(input);
    }
    let verdict = probe(keys, pid);
    unlock_with(verdict, input)
}

/// A run whose workload took at most 200 ms, with no flagged environment
/// variable and no process id below 10, unlocks exactly when the passphrase
/// is accepted; a run that took longer is refused whatever the passphrase.
pub proof fn lemma_clean_run_unlocks(
    elapsed_ms: u128,
    keys: Seq<Seq<char>>,
    pid: Option<u32>,
    input: Seq<char>,
)
    ensures
        elapsed_ms <= 200 && env_verdict(keys) == Verdict::Clean && thread_verdict(pid)
            == Verdict::Clean ==> unlock_spec(
            probe_spec(timing_verdict_spec(elapsed_ms), keys, pid),
            input,
        ) == gate_accepts(input),
        elapsed_ms > 200 ==> !unlock_spec(
            probe_spec(timing_verdict_spec(elapsed_ms), keys, pid),
            input,
        ),
{
    let checks = seq![timing_verdict_spec(elapsed_ms), env_verdict(keys), thread_verdict(pid)];
    if elapsed_ms > 200 {
        assert(checks[0] == Verdict::Suspicious);
    }
}

/// An unlock attempt once the integrity verdict is known: refused when the
/// verdict is `Suspicious` (and the probes are enabled), otherwise decided by
/// `check_gate`.
pub fn unlock_with(verdict: Verdict, input: &str) -> (r: bool)
    ensures
        r == unlock_spec(verdict, input@),
{
    if ENABLE_SHIELD && verdict == Verdict::Suspicious {
        return false;
    }
    check_gate(input)
}

/// A session is persistent when offline delivery is asked for and a server is named.
pub open spec fn is_persistent_spec(offline: bool, server: Seq<char>) -> bool {
    offline && trim(server).len() != 0
}

/// Whether a session keeps its messages queued at the broker.
pub fn is_persistent(offline: bool, server: &str) -> (r: bool)
    ensures
        r == is_persistent_spec(offline, server@),
{
    offline && !trim_str(server).as_str().is_empty()
}

/// The marker that begins the payloads of ephemeral sessions.
pub open spec fn marker() -> char {
    '~'
}

/// What `outgoing_payload` returns: ephemeral payloads carry the marker.
pub open spec fn outgoing_payload_spec(sealed: Seq<char>, persistent: bool) -> Seq<char> {
    if persistent {
        sealed
    } else {
        seq![marker()] + sealed
    }
}

/// What `strip_ephemeral_marker` returns.
pub open spec fn strip_marker_spec(payload: Seq<char>) -> Seq<char> {
    if payload.len() > 0 && payload[0] == marker() {
        payload.drop_first()
    } else {
        payload
    }
}

/// The payload published for a sealed message: prefixed with `~` on
/// non-persistent connections.
pub fn outgoing_payload(sealed: &str, persistent: bool) -> (r: String)
    ensures
        r@ == outgoing_payload_spec(sealed@, persistent),
{
    if persistent {
        String::from_str(sealed)
    } else {
        proof {
            reveal_strlit("~");
        }
        concat("~", sealed)
    }
}

/// A received payload without its ephemeral marker, if it has one.
pub fn strip_ephemeral_marker(payload: &str) -> (r: String)
    ensures
        r@ == strip_marker_spec(payload@),
{
    let cs = chars_of(payload);
    let n = cs.len();
    if n > 0 && cs[0] == '~' {
        let r = string_of_range(&cs, 1, n);
        assert(cs@.subrange(1, n as int) =~= cs@.drop_first());
        r
    } else {
        let r = string_of_range(&cs, 0, n);
        assert(cs@.subrange(0, n as int) =~= cs@);
        r
    }
}

/// A published payload comes back without its marker: stripping undoes
/// marking, for ephemeral payloads always, for persistent ones whenever the
/// sealed text does not itself begin with `~`.
pub proof fn lemma_strip_outgoing(sealed: Seq<char>, persistent: bool)
    requires
        persistent ==> !(sealed.len() > 0 && sealed[0] == marker()),
    ensures
        strip_marker_spec(outgoing_payload_spec(sealed, persistent)) == sealed,
{
    if !persistent {
        assert((seq![marker()] + sealed).drop_first() =~= sealed);
    }
}

/// Decrypts a received payload: its bytes read as UTF-8 (invalid sequences
/// replaced), its ephemeral marker removed, then `unseal`.
pub fn open_incoming(payload: &[u8], passphrase: &str) -> (r: Result<String, String>)
    ensures
        crate::cipher::text_result_view(r) == unseal_spec(
            strip_marker_spec(utf8_lossy(payload@)),
            passphrase@,
        ),
        valid_utf8(payload@) ==> crate::cipher::text_result_view(r) == unseal_spec(
            strip_marker_spec(decode_utf8(payload@)),
            passphrase@,
        ),
{
    let text = string_from_utf8_lossy(payload);
    let body = strip_ephemeral_marker(text.as_str());
    unseal(body.as_str(), passphrase)
}

/// What `connect_status` reports.
pub open spec fn connect_status_spec(persistent: bool, host: Seq<char>) -> Seq<char> {
    "connected ("@ + (if persistent {
        "persistent"@
    } else {
        "ephemeral"@
    }) + ") to "@ + host
}

/// The status line reported after connecting.
pub fn connect_status(persistent: bool, host: &str) -> (r: String)
    ensures
        r@ == connect_status_spec(persistent, host@),
{
    let mode = if persistent {
        "persistent"
    } else {
        "ephemeral"
    };
    let a = concat("connected (", mode);
    let b = concat(a.as_str(), ") to ");
    concat(b.as_str(), host)
}

/// A message read from the room, marked as one's own when the nickname is
/// one's own; only messages of others are handed to the frontend.
pub open spec fn receive_spec(nickname: Seq<char>, own_nickname: Seq<char>) -> bool {
    nickname != own_nickname
}

/// Marks a received message and decides whether it is shown: `Some` (with
/// `is_self` false) when it comes from another nickname, `None` for one's own.
pub fn incoming_to_show(msg: ChatMessage, own_nickname: &str) -> (r: Option<ChatMessage>)
    ensures
        r is Some <==> receive_spec(msg.nickname@, own_nickname@),
        r matches Some(m) ==> m.nickname@ == msg.nickname@ && m.text@ == msg.text@ && m.time@
            == msg.time@ && m.timestamp == msg.timestamp && !m.is_self,
{
    let own = String::from_str(own_nickname);
    let is_self = msg.nickname == own;
    if is_self {
        None
    } else {
        Some(ChatMessage { is_self: false, ..msg })
    }
}

/// `s` with every `/` replaced by `_`.
pub open spec fn slash_to_underscore(s: Seq<char>) -> Seq<char> {
    Seq::new(s.len(), |i: int| if s[i] == '/' { '_' } else { s[i] })
}

/// The name of a room's history file: its topic with `/` made `_`, then the extension.
pub open spec fn history_file_name_spec(room: Seq<char>) -> Seq<char> {
    slash_to_underscore(room_topic_spec(room)) + seq!['.'] + HISTORY_EXT@
}

/// The file name under which a room's encrypted history is kept.
pub fn history_file_name(room: &str) -> (r: String)
    ensures
        r@ == history_file_name_spec(room@),
{
    let topic = chars_of(room_topic(room).as_str());
    let mut name = String::new();
    let mut i: usize = 0;
    while i < topic.len()
        invariant
            i <= topic@.len(),
            name@ == slash_to_underscore(topic@.take(i as int)),
        decreases topic@.len() - i,
    {
        let c = topic[i];
        if c == '/' {
            push_char(&mut name, '_');
        } else {
            push_char(&mut name, c);
        }
        assert(slash_to_underscore(topic@.take(i + 1)) =~= slash_to_underscore(
            topic@.take(i as int),
        ).push(if c == '/' { '_' } else { c }));
        i += 1;
    }
    assert(topic@.take(i as int) =~= topic@);
    push_char(&mut name, '.');
    let r = concat(name.as_str(), HISTORY_EXT);
    r
}

} // verus!
