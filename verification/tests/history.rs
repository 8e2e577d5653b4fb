use re_tester::history::{Execution, History};
use re_tester::digits::u64_dec;

fn record(time: &str, op: &str, pattern: &str, string: &str, count: u32) -> Execution {
    Execution {
        time: time.to_string(),
        operation: op.to_string(),
        pattern: pattern.to_string(),
        string: string.to_string(),
        count,
    }
}

#[test]
fn new_history_is_empty() {
    let h = History::new();
    assert_eq!(h.len(), 0);
    assert!(h.last().is_none());
}

#[test]
fn add_same_pair_twice_keeps_one_record() {
    let mut h = History::new();
    h.add(Execution::new("match", "a+", "baaab"));
    h.add(Execution::new("find", "a+", "baaab"));
    assert_eq!(h.len(), 1);
    assert_eq!(h.get(0).count, 2);
    assert_eq!(h.get(0).operation, "find");
    assert_eq!(h.get(0).pattern, "a+");
    assert_eq!(h.get(0).string, "baaab");
}

#[test]
fn add_distinct_pairs_appends() {
    let mut h = History::new();
    h.add(Execution::new("match", "a+", "x"));
    h.add(Execution::new("match", "a+", "y"));
    h.add(Execution::new("match", "b+", "x"));
    assert_eq!(h.len(), 3);
    assert_eq!(h.get(0).string, "x");
    assert_eq!(h.get(1).string, "y");
    assert_eq!(h.get(2).pattern, "b+");
    assert_eq!(h.get(0).count, 1);
}

#[test]
fn rerunning_an_old_pair_moves_it_to_the_end() {
    let mut h = History::new();
    h.add(Execution::new("match", "a+", "x"));
    h.add(Execution::new("match", "b+", "y"));
    h.add(Execution::new("split", "a+", "x"));
    assert_eq!(h.len(), 2);
    assert_eq!(h.get(0).pattern, "b+");
    assert_eq!(h.get(1).pattern, "a+");
    assert_eq!(h.get(1).count, 2);
    assert_eq!(h.get(1).operation, "split");
}

#[test]
fn count_saturates_at_the_largest_value() {
    let mut h = History::from_records(vec![record("t", "match", "a", "x", u32::MAX)]);
    h.add(Execution::new("find", "a", "x"));
    assert_eq!(h.len(), 1);
    assert_eq!(h.get(0).count, u32::MAX);
}

#[test]
fn last_returns_the_most_recent_record() {
    let mut h = History::new();
    h.add(Execution::new("match", "a+", "x"));
    h.add(Execution::new("find", "b+", "y"));
    let last = h.last().unwrap();
    assert_eq!(last.pattern, "b+");
    assert_eq!(last.operation, "find");
}

#[test]
fn render_is_most_recent_first() {
    let h = History::from_records(vec![
        record("t1", "match", "a", "x", 1),
        record("t2", "find", "b", "y", 3),
    ]);
    assert_eq!(
        h.to_str(),
        "1: 3: t2 Op: \"find\" RE: \"b\" str: \"y\"\n0: 1: t1 Op: \"match\" RE: \"a\" str: \"x\"\n"
    );
}

#[test]
fn render_of_empty_history() {
    assert_eq!(History::new().to_str(), "No history as yet");
}

#[test]
fn render_line_of_one_record() {
    let e = record("2024-01-02T03:04:05+00:00", "split", "a,b", "x", 7);
    assert_eq!(
        e.render(),
        "7: 2024-01-02T03:04:05+00:00 Op: \"split\" RE: \"a,b\" str: \"x\""
    );
}

#[test]
fn fresh_execution_keeps_its_arguments() {
    let e = Execution::new("match", "a+", "baaab");
    assert_eq!(e.operation, "match");
    assert_eq!(e.pattern, "a+");
    assert_eq!(e.string, "baaab");
    assert_eq!(e.count, 0);
}

#[test]
fn default_history_is_empty() {
    let h = History::default();
    assert_eq!(h.len(), 0);
}

#[test]
fn decimal_rendering_is_exact() {
    assert_eq!(u64_dec(0), "0");
    assert_eq!(u64_dec(9), "9");
    assert_eq!(u64_dec(10), "10");
    assert_eq!(u64_dec(907), "907");
    assert_eq!(u64_dec(u64::MAX), "18446744073709551615");
}
