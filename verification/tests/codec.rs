use re_tester::codec::{from_json, to_json};
use re_tester::history::{Execution, History};

fn record(time: &str, op: &str, pattern: &str, string: &str, count: u32) -> Execution {
    Execution {
        time: time.to_string(),
        operation: op.to_string(),
        pattern: pattern.to_string(),
        string: string.to_string(),
        count,
    }
}

fn records_of(h: &History) -> Vec<Execution> {
    let mut v = Vec::new();
    let mut i = 0;
    while i < h.len() {
        v.push(h.get(i).clone());
        i += 1;
    }
    v
}

#[test]
fn empty_history_encodes_as_an_empty_array() {
    assert_eq!(to_json(&History::new()), b"[]");
}

#[test]
fn empty_array_decodes_as_an_empty_history() {
    let h = from_json(b"[]").unwrap();
    assert_eq!(h.len(), 0);
}

#[test]
fn one_record_encodes_exactly() {
    let h = History::from_records(vec![record("T1", "match", "a+", "x", 1)]);
    let expected = "[\n  {\n    \"time\": \"T1\",\n    \"operation\": \"match\",\n    \
                    \"pattern\": \"a+\",\n    \"string\": \"x\",\n    \"count\": 1\n  }\n]";
    assert_eq!(to_json(&h), expected.as_bytes());
}

#[test]
fn quotes_and_backslashes_are_escaped() {
    let h = History::from_records(vec![record("T", "match", "a\\d\"b", "x", 2)]);
    let encoded = to_json(&h);
    let text = String::from_utf8(encoded).unwrap();
    assert!(text.contains("\"pattern\": \"a\\\\d\\\"b\""));
}

#[test]
fn control_characters_are_escaped() {
    let h = History::from_records(vec![record("T", "match", "a", "x\ny\t\u{1}", 1)]);
    let encoded = to_json(&h);
    let text = String::from_utf8(encoded).unwrap();
    assert!(text.contains("\"string\": \"x\\u000ay\\u0009\\u0001\""));
}

#[test]
fn round_trip_preserves_records_and_order() {
    let h = History::from_records(vec![
        record("2024-01-02T03:04:05+00:00", "match", "a+", "baaab", 2),
        record("2024-01-02T03:04:06+00:00", "find", "(\"|\\\\)", "say \"hi\"\n", 1),
        record("2024-01-02T03:04:07+00:00", "split", "", "\u{3b1},\u{3b2}", 9),
    ]);
    let before = records_of(&h);
    let bytes = to_json(&h);
    let loaded = from_json(&bytes).unwrap();
    assert_eq!(records_of(&loaded), before);
}

#[test]
fn round_trip_after_real_additions() {
    let mut h = History::new();
    h.add(Execution::new("match", "a+", "baaab"));
    h.add(Execution::new("find", "\\d+", "a1b22"));
    h.add(Execution::new("find", "a+", "baaab"));
    let before = records_of(&h);
    let loaded = from_json(&to_json(&h)).unwrap();
    assert_eq!(records_of(&loaded), before);
}

#[test]
fn garbage_is_rejected() {
    assert!(from_json(b"").is_none());
    assert!(from_json(b"{}").is_none());
    assert!(from_json(b"[1, 2]").is_none());
    assert!(from_json("not json at all".as_bytes()).is_none());
}

#[test]
fn truncated_input_is_rejected() {
    let h = History::from_records(vec![record("T1", "match", "a+", "x", 1)]);
    let bytes = to_json(&h);
    assert!(from_json(&bytes[..bytes.len() - 1]).is_none());
    assert!(from_json(&bytes[..bytes.len() / 2]).is_none());
}

#[test]
fn trailing_bytes_are_rejected() {
    let h = History::from_records(vec![record("T1", "match", "a+", "x", 1)]);
    let mut bytes = to_json(&h);
    bytes.push(b'\n');
    assert!(from_json(&bytes).is_none());
}

#[test]
fn invalid_utf8_in_a_field_is_rejected() {
    let h = History::from_records(vec![record("T1", "match", "a+", "x", 1)]);
    let mut bytes = to_json(&h);
    // overwrite the pattern byte 'a' with a lone continuation byte
    let pos = bytes.windows(4).position(|w| w == b"\"a+\"").unwrap();
    bytes[pos + 1] = 0xff;
    assert!(from_json(&bytes).is_none());
}

#[test]
fn an_oversized_count_is_rejected() {
    let good = "[\n  {\n    \"time\": \"T\",\n    \"operation\": \"m\",\n    \
                \"pattern\": \"p\",\n    \"string\": \"s\",\n    \"count\": 4294967295\n  }\n]";
    assert_eq!(from_json(good.as_bytes()).unwrap().get(0).count, u32::MAX);
    let bad = good.replace("4294967295", "4294967296");
    assert!(from_json(bad.as_bytes()).is_none());
}
