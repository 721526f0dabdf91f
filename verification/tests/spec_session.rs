use specific::spec_session::{file_name, session_name, PublishError, SpecSession};

fn session() -> SpecSession {
    SpecSession { directory: std::path::PathBuf::from("inbox"), sequence: 0 }
}

#[test]
fn publishes_immutable_ordered_snapshots() {
    let mut session = session();
    for (sequence, expected) in [(1u64, "first \"quoted\"\n\\path\t"), (2, "second")] {
        let snapshot = session.prepare(expected).unwrap();
        assert_eq!(snapshot.sequence, sequence);
        assert_eq!(snapshot.file_name, format!("{sequence:020}.json"));
        let value: serde_json::Value = serde_json::from_slice(&snapshot.message).unwrap();
        assert_eq!(value["text"], expected);
    }
    assert_eq!(session.sequence, 2);
}

#[test]
fn invalid_updates_are_not_published() {
    let mut session = session();
    assert_eq!(session.prepare("").err(), Some(PublishError::Empty));
    assert_eq!(session.prepare(" \n").err(), Some(PublishError::Empty));
    let large = "a".repeat(8 * 1024 * 1024);
    assert_eq!(session.prepare(&large).err(), Some(PublishError::TooLarge));
    assert_eq!(session.sequence, 0);
}

#[test]
fn message_matches_the_json_object_form() {
    let mut session = session();
    let text = "tab\tand \u{1f600}";
    let snapshot = session.prepare(text).unwrap();
    let mut map = serde_json::Map::new();
    map.insert("text".to_string(), serde_json::Value::String(text.to_string()));
    assert_eq!(snapshot.message, serde_json::to_vec(&serde_json::Value::Object(map)).unwrap());
}

#[test]
fn file_names_are_zero_padded() {
    assert_eq!(file_name(0), "00000000000000000000.json");
    assert_eq!(file_name(42), "00000000000000000042.json");
    assert_eq!(file_name(u64::MAX), "18446744073709551615.json");
}

#[test]
fn largest_message_is_published() {
    let mut session = session();
    let json_len = 8 * 1024 * 1024 - 9;
    let ok = session.snapshot_from_json(&vec![b'x'; json_len]);
    assert!(ok.is_ok());
    let too_large = session.snapshot_from_json(&vec![b'x'; json_len + 1]);
    assert_eq!(too_large.err(), Some(PublishError::TooLarge));
    assert_eq!(session.sequence, 1);
}

#[test]
fn session_names_join_process_and_time() {
    assert_eq!(session_name(0, 0), "0-0");
    assert_eq!(session_name(4321, 1700000000123456789), "4321-1700000000123456789");
    assert_eq!(session_name(u32::MAX, u128::MAX), format!("{}-{}", u32::MAX, u128::MAX));
}

#[test]
fn messages_escape_like_serde_json() {
    let mut session = session();
    let text = "q\"b\\s\u{8}\u{c}\n\r\t\u{1}\u{1f}\u{7f}/\u{e9}";
    let snapshot = session.prepare(text).unwrap();
    let expected = "{\"text\":\"q\\\"b\\\\s\\b\\f\\n\\r\\t\\u0001\\u001f\u{7f}/\u{e9}\"}";
    assert_eq!(snapshot.message, expected.as_bytes());
}

#[test]
fn sequence_bound_matters_only_on_success() {
    let mut session = SpecSession { directory: std::path::PathBuf::from("inbox"), sequence: u64::MAX };
    assert_eq!(session.prepare(" \t").err(), Some(PublishError::Empty));
    assert_eq!(session.sequence, u64::MAX);
}
