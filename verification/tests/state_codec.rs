use pomodoro::state::{encode_state, parse_state, state_from_bytes, SavedState};
use pomodoro::timer::PomApp;

#[test]
fn encodes_exact_bytes() {
    let e = encode_state(&SavedState { seconds_remaining: 1490 });
    assert_eq!(e, b"{\"seconds_remaining\":1490}".to_vec());
}

#[test]
fn encodes_zero() {
    let e = encode_state(&SavedState { seconds_remaining: 0 });
    assert_eq!(e, b"{\"seconds_remaining\":0}".to_vec());
}

#[test]
fn encodes_largest_value() {
    let e = encode_state(&SavedState { seconds_remaining: u64::MAX });
    assert_eq!(e, b"{\"seconds_remaining\":18446744073709551615}".to_vec());
}

#[test]
fn round_trip_recovers_value() {
    let values: Vec<u64> = vec![0, 1, 9, 10, 25, 1490, 1500, 4294967295, u64::MAX];
    for n in values {
        let e = encode_state(&SavedState { seconds_remaining: n });
        let p = parse_state(&e).expect("a canonical record must parse");
        assert_eq!(p.seconds_remaining, n);
    }
}

#[test]
fn rejects_empty_and_truncated() {
    assert!(parse_state(&b"".to_vec()).is_none());
    assert!(parse_state(&b"{}".to_vec()).is_none());
    assert!(parse_state(&b"{\"seconds_remaining\":".to_vec()).is_none());
    assert!(parse_state(&b"{\"seconds_remaining\":42".to_vec()).is_none());
}

#[test]
fn rejects_bad_number() {
    assert!(parse_state(&b"{\"seconds_remaining\":}".to_vec()).is_none());
    assert!(parse_state(&b"{\"seconds_remaining\":007}".to_vec()).is_none());
    assert!(parse_state(&b"{\"seconds_remaining\":12a}".to_vec()).is_none());
    assert!(parse_state(&b"{\"seconds_remaining\":-5}".to_vec()).is_none());
    // one past u64::MAX
    assert!(parse_state(&b"{\"seconds_remaining\":18446744073709551616}".to_vec()).is_none());
}

#[test]
fn rejects_wrong_key_and_trailing_bytes() {
    assert!(parse_state(&b"{\"seconds_remaininG\":42}".to_vec()).is_none());
    assert!(parse_state(&b"{\"seconds_remaining\":42} ".to_vec()).is_none());
    assert!(parse_state(&b"{\"seconds_remaining\":42}}".to_vec()).is_none());
}

#[test]
fn corrupt_state_resets_to_zero() {
    let st = state_from_bytes(&b"garbage".to_vec());
    assert_eq!(st.seconds_remaining, 0);
    // and the next run then behaves as a fresh start
    let app = PomApp { arg_restart: false, arg_duration: 25, saved_state: st };
    assert_eq!(app.effective_duration(), 1500);
}

#[test]
fn missing_state_reads_as_zero() {
    let st = state_from_bytes(&Vec::new());
    assert_eq!(st.seconds_remaining, 0);
}

#[test]
fn readable_state_is_recovered() {
    let st = state_from_bytes(&b"{\"seconds_remaining\":1490}".to_vec());
    assert_eq!(st.seconds_remaining, 1490);
}

#[test]
fn encoding_is_valid_json() {
    let e = encode_state(&SavedState { seconds_remaining: 1490 });
    let v: serde_json::Value = serde_json::from_slice(&e).expect("a record must be valid JSON");
    assert_eq!(v.get("seconds_remaining"), Some(&serde_json::Value::from(1490u64)));
}

#[test]
fn parses_canonical_json_from_serde() {
    let mut m = serde_json::Map::new();
    m.insert("seconds_remaining".to_string(), serde_json::Value::from(1490u64));
    let text = serde_json::to_string(&serde_json::Value::Object(m)).unwrap();
    let p = parse_state(&text.into_bytes()).expect("serde_json's canonical output must parse");
    assert_eq!(p.seconds_remaining, 1490);
}

#[test]
fn zero_round_trip_is_idempotent() {
    let e = encode_state(&SavedState { seconds_remaining: 0 });
    let loaded = state_from_bytes(&e);
    assert_eq!(loaded.seconds_remaining, 0);
    // a run from the loaded state equals a fresh run of the requested duration
    let next = PomApp { arg_restart: false, arg_duration: 25, saved_state: loaded };
    let fresh = PomApp {
        arg_restart: false,
        arg_duration: 25,
        saved_state: SavedState { seconds_remaining: 0 },
    };
    assert_eq!(next.effective_duration(), fresh.effective_duration());
    let a = next.run(Some(10));
    let b = fresh.run(Some(10));
    assert_eq!(a.completed_naturally, b.completed_naturally);
    assert_eq!(a.remaining, b.remaining);
}
