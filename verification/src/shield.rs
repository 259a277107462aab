//! Runtime integrity checks: a timing probe, an environment probe and a
//! process-id probe, combined into one verdict.
use vstd::prelude::*;
use vstd::wrapping::u64_specs;
use crate::config::ENABLE_SHIELD;
use vstd::utf8::is_ascii_chars;
use crate::text::{
    ascii_uppercase, chars_of, matches_at, starts_with, to_uppercase, unicode_uppercase,
};

verus! {

/// Result of an integrity probe.
#[derive(Clone, Copy, Debug, PartialEq, Eq, Structural)]
pub enum Verdict {
    Clean,
    Suspicious,
}

/// `Suspicious` if any check is, else `Clean`.
pub open spec fn combine(checks: Seq<Verdict>) -> Verdict {
    if exists|i: int| 0 <= i < checks.len() && checks[i] == Verdict::Suspicious {
        Verdict::Suspicious
    } else {
        Verdict::Clean
    }
}

/// The environment-variable name prefixes that indicate analysis tools.
pub open spec fn env_indicators() -> Seq<Seq<char>> {
    seq!["FRIDA_"@, "GHIDRA_"@, "_JAVA_OPTIONS"@]
}

/// A variable name that, upper-cased, begins with an indicator.
pub open spec fn key_flagged(key: Seq<char>) -> bool {
    exists|j: int| 0 <= j < 3 && starts_with(unicode_uppercase(key), #[trigger] env_indicators()[j])
}

/// The verdict of the environment probe on these variable names.
pub open spec fn env_verdict(keys: Seq<Seq<char>>) -> Verdict {
    if exists|i: int| 0 <= i < keys.len() && key_flagged(#[trigger] keys[i]) {
        Verdict::Suspicious
    } else {
        Verdict::Clean
    }
}

/// The verdict of the process-id probe: a process id below 10 (reported only
/// on Windows) suggests a debugger spawner.
pub open spec fn thread_verdict(pid: Option<u32>) -> Verdict {
    match pid {
        Some(p) => if p < 10 {
            Verdict::Suspicious
        } else {
            Verdict::Clean
        },
        None => Verdict::Clean,
    }
}

/// The verdict of the timing probe for a measured duration in milliseconds.
pub open spec fn timing_verdict_spec(elapsed_ms: u128) -> Verdict {
    if elapsed_ms > 200 {
        Verdict::Suspicious
    } else {
        Verdict::Clean
    }
}

/// The overall verdict from the timing verdict, the environment's variable names
/// and the process id.
pub open spec fn probe_spec(timing: Verdict, keys: Seq<Seq<char>>, pid: Option<u32>) -> Verdict {
    if !ENABLE_SHIELD {
        Verdict::Clean
    } else {
        combine(seq![timing, env_verdict(keys), thread_verdict(pid)])
    }
}

pub open spec fn names_of(keys: Seq<String>) -> Seq<Seq<char>> {
    keys.map_values(|k: String| k@)
}

/// One step of the timing workload.
pub open spec fn mix_step(acc: u64, i: u64) -> u64 {
    u64_specs::wrapping_add(u64_specs::wrapping_mul(acc, 6364136223846793005), i ^ 0x1234567890abcdef)
}

/// The workload's accumulator after `n` steps.
pub open spec fn workload_value(n: nat) -> u64
    decreases n,
{
    if n == 0 {
        0x517cc1b727220a95
    } else {
        mix_step(workload_value((n - 1) as nat), (n - 1) as u64)
    }
}

/// Number of steps of the timing workload.
pub const WORKLOAD_STEPS: u64 = 100_000;

/// `Suspicious` if any of the checks is.
pub fn combine_checks(checks: &[Verdict]) -> (r: Verdict)
    ensures
        r == combine(checks@),
{
    let mut i: usize = 0;
    while i < checks.len()
        invariant
            i <= checks@.len(),
            forall|k: int| 0 <= k < i ==> checks@[k] == Verdict::Clean,
        decreases checks@.len() - i,
    {
        if checks[i] == Verdict::Suspicious {
            return Verdict::Suspicious;
        }
        i += 1;
    }
    Verdict::Clean
}

/// The deterministic computation that the timing probe measures.
pub fn workload() -> (r: u64)
    ensures
        r == workload_value(WORKLOAD_STEPS as nat),
{
    let mut acc: u64 = 0x517cc1b727220a95;
    let mut i: u64 = 0;
    while i < WORKLOAD_STEPS
        invariant
            i <= WORKLOAD_STEPS,
            acc == workload_value(i as nat),
        decreases WORKLOAD_STEPS - i,
    {
        acc = acc.wrapping_mul(6364136223846793005).wrapping_add(i ^ 0x1234567890abcdef);
        i += 1;
    }
    acc
}

/// The verdict for a measured duration: over 200 ms is suspicious.
pub fn timing_verdict(elapsed_ms: u128) -> (r: Verdict)
    ensures
        r == timing_verdict_spec(elapsed_ms),
{
    if elapsed_ms > 200 {
        Verdict::Suspicious
    } else {
        Verdict::Clean
    }
}

/// A point in time (`std::time::Instant`).
#[verifier::external_type_specification]
#[verifier::external_body]
pub struct ExInstant(std::time::Instant);

/// `std::time::Instant::now()`.
#[verifier::external_body]
fn instant_now() -> (r: std::time::Instant) {
    std::time::Instant::now()
}

/// `start.elapsed().as_millis()`. Nothing is stated of the duration.
#[verifier::external_body]
fn elapsed_millis(start: &std::time::Instant) -> (r: u128) {
    start.elapsed().as_millis()
}

/// `std::hint::black_box(x)`, which returns its argument.
#[verifier::external_body]
fn black_box_u64(x: u64) -> (r: u64)
    ensures
        r == x,
{
    std::hint::black_box(x)
}

/// Timing-based detection: measures how long the workload takes.
/// Breakpoints and single-stepping inflate it far beyond 200 ms.
pub fn timing_probe() -> (r: Verdict)
    ensures
        exists|ms: u128| r == timing_verdict_spec(ms),
{
    let start = instant_now();
    let acc = workload();
    let _ = black_box_u64(acc);
    let elapsed = elapsed_millis(&start);
    timing_verdict(elapsed)
}

fn indicator(j: usize) -> (r: &'static str)
    requires
        j < 3,
    ensures
        r@ == env_indicators()[j as int],
{
    if j == 0 {
        "FRIDA_"
    } else if j == 1 {
        "GHIDRA_"
    } else {
        "_JAVA_OPTIONS"
    }
}

/// Whether one environment-variable name, upper-cased, begins with an indicator.
pub fn key_is_flagged(key: &str) -> (r: bool)
    ensures
        r == key_flagged(key@),
        is_ascii_chars(key@) ==> (r == exists|j: int|
            0 <= j < 3 && starts_with(ascii_uppercase(key@), #[trigger] env_indicators()[j])),
{
    let upper = to_uppercase(key);
    let cs = chars_of(upper.as_str());
    let mut j: usize = 0;
    while j < 3
        invariant
            j <= 3,
            cs@ == unicode_uppercase(key@),
            is_ascii_chars(key@) ==> cs@ == ascii_uppercase(key@),
            forall|k: int| 0 <= k < j ==> !starts_with(cs@, #[trigger] env_indicators()[k]),
        decreases 3 - j,
    {
        let pattern = chars_of(indicator(j));
        if matches_at(&cs, &pattern, 0) {
            assert(starts_with(cs@, env_indicators()[j as int]));
            return true;
        }
        j += 1;
    }
    false
}

/// Environment probe: `Suspicious` when some variable name, upper-cased,
/// begins with `FRIDA_`, `GHIDRA_` or `_JAVA_OPTIONS`.
pub fn env_probe(keys: &Vec<String>) -> (r: Verdict)
    ensures
        r == env_verdict(names_of(keys@)),
{
    let mut i: usize = 0;
    while i < keys.len()
        invariant
            i <= keys@.len(),
            forall|k: int| 0 <= k < i ==> !key_flagged(#[trigger] names_of(keys@)[k]),
        decreases keys@.len() - i,
    {
        if key_is_flagged(keys[i].as_str()) {
            assert(key_flagged(names_of(keys@)[i as int]));
            return Verdict::Suspicious;
        }
        i += 1;
    }
    Verdict::Clean
}

/// Process-id probe: `Suspicious` when the reported process id is below 10.
/// The caller reports the id only on Windows, the platform this check targets.
pub fn thread_probe(pid: Option<u32>) -> (r: Verdict)
    ensures
        r == thread_verdict(pid),
{
    match pid {
        Some(p) => if p < 10 {
            Verdict::Suspicious
        } else {
            Verdict::Clean
        },
        None => Verdict::Clean,
    }
}

/// Combines a timing verdict with the environment and process-id probes.
pub fn probe_with(timing: Verdict, keys: &Vec<String>, pid: Option<u32>) -> (r: Verdict)
    ensures
        r == probe_spec(timing, names_of(keys@), pid),
{
    if !ENABLE_SHIELD {
        return Verdict::Clean;
    }
    let checks = [timing, env_probe(keys), thread_probe(pid)];
    let r = combine_checks(&checks);
    assert(checks@ =~= seq![timing, env_verdict(names_of(keys@)), thread_verdict(pid)]);
    r
}

/// Runs all probes; `Suspicious` if any of them triggers. The environment's
/// variable names and (on Windows) the process id are handed in.
pub fn probe(keys: &Vec<String>, pid: Option<u32>) -> (r: Verdict)
    ensures
        r == probe_spec(Verdict::Clean, names_of(keys@), pid) || r == probe_spec(
            Verdict::Suspicious,
            names_of(keys@),
            pid,
        ),
{
    if !ENABLE_SHIELD {
        return Verdict::Clean;
    }
    let timing = timing_probe();
    probe_with(timing, keys, pid)
}

} // verus!
