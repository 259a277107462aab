use naihe::shield::{
    combine_checks, env_probe, key_is_flagged, probe, probe_with, thread_probe, timing_probe,
    timing_verdict, workload, Verdict,
};

#[test]
fn clean_in_test_env() {
    // Timing may be slow on CI; only check that the probe runs.
    let result = timing_probe();
    let _ = result;
}

#[test]
fn env_probe_clean() {
    // The variable names of an ordinary environment.
    let keys: Vec<String> = ["PATH", "HOME", "LANG", "CARGO_PKG_NAME", "RUST_BACKTRACE"]
        .iter()
        .map(|k| k.to_string())
        .collect();
    assert_eq!(env_probe(&keys), Verdict::Clean);
}

#[test]
fn env_probe_flags_indicators() {
    let keys = vec!["PATH".to_string(), "frida_server".to_string()];
    assert_eq!(env_probe(&keys), Verdict::Suspicious);
    assert!(key_is_flagged("GHIDRA_INSTALL_DIR"));
    assert!(key_is_flagged("_java_options"));
    assert!(!key_is_flagged("JAVA_OPTIONS"));
    assert!(!key_is_flagged("MY_FRIDA_"));
    assert_eq!(env_probe(&vec!["HOME".to_string()]), Verdict::Clean);
    assert_eq!(env_probe(&Vec::new()), Verdict::Clean);
}

#[test]
fn thread_probe_threshold() {
    assert_eq!(thread_probe(None), Verdict::Clean);
    assert_eq!(thread_probe(Some(9)), Verdict::Suspicious);
    assert_eq!(thread_probe(Some(10)), Verdict::Clean);
}

#[test]
fn timing_threshold() {
    assert_eq!(timing_verdict(200), Verdict::Clean);
    assert_eq!(timing_verdict(201), Verdict::Suspicious);
}

#[test]
fn workload_value() {
    assert_eq!(workload(), 1877335674409373573);
}

#[test]
fn combining_verdicts() {
    assert_eq!(combine_checks(&[]), Verdict::Clean);
    assert_eq!(combine_checks(&[Verdict::Clean, Verdict::Clean]), Verdict::Clean);
    assert_eq!(combine_checks(&[Verdict::Clean, Verdict::Suspicious]), Verdict::Suspicious);
    let clean_keys = vec!["HOME".to_string()];
    assert_eq!(probe_with(Verdict::Clean, &clean_keys, None), Verdict::Clean);
    assert_eq!(probe_with(Verdict::Suspicious, &clean_keys, None), Verdict::Suspicious);
    assert_eq!(probe_with(Verdict::Clean, &clean_keys, Some(3)), Verdict::Suspicious);
    let flagged = vec!["FRIDA_X".to_string()];
    assert_eq!(probe(&flagged, None), Verdict::Suspicious);
}
