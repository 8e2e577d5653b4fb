use re_tester::evaluator::{evaluate, find, split, Op};
use re_tester::pieces::split_parts;

fn match_op(p: &str, s: &str) -> (String, bool) {
    re_tester::evaluator::matches(p, s)
}

#[test]
fn match_reports_groups() {
    let (report, ok) = match_op("a+", "baaab");
    assert!(ok);
    assert_eq!(report, "Matching: \"a+\"\nAgainst: \"baaab\"\n\ngroup[0] = \"aaa\"\n");
}

#[test]
fn match_reports_capture_groups_by_index() {
    let (report, ok) = match_op("(a)(x)?(b)", "ab");
    assert!(ok);
    assert_eq!(
        report,
        "Matching: \"(a)(x)?(b)\"\nAgainst: \"ab\"\n\n\
         group[0] = \"ab\"\ngroup[1] = \"a\"\ngroup[2] = None\ngroup[3] = \"b\"\n"
    );
}

#[test]
fn match_rejects_bad_pattern() {
    let (report, ok) = match_op("(", "x");
    assert!(!ok);
    assert!(report.starts_with("Error with pattern:"));
}

#[test]
fn match_reports_no_match() {
    let (report, ok) = match_op("z+", "baaab");
    assert!(!ok);
    assert_eq!(report, "String:\n\"baaab\"\nDoes not match Pattern:\n\"z+\"");
}

#[test]
fn match_ok_iff_pattern_matches() {
    assert!(match_op("a+", "baaab").1);
    assert!(match_op("^$", "").1);
    assert!(!match_op("a+", "bbb").1);
    assert!(!match_op("^x", "yx").1);
}

#[test]
fn find_reports_every_match_with_its_range() {
    let (report, ok) = find("\\d+", "a1b22c333");
    assert!(ok);
    assert_eq!(
        report,
        "Find pattern:\n\"\\d+\"\nIn:\n\"a1b22c333\"\n\n\
         Iteration 0 found \"1\" at (1..2)\n\
         Iteration 1 found \"22\" at (3..5)\n\
         Iteration 2 found \"333\" at (6..9)\n"
    );
}

#[test]
fn find_reports_nothing_on_zero_matches() {
    let (report, ok) = find("\\d+", "abc");
    assert!(!ok);
    assert_eq!(report, "Find pattern:\n\"\\d+\"\nIn:\n\"abc\"\n\nFound nothing");
}

#[test]
fn find_rejects_bad_pattern() {
    let (report, ok) = find("[", "abc");
    assert!(!ok);
    assert!(report.starts_with("Error with pattern:"));
}

#[test]
fn find_honors_empty_pattern() {
    // the empty pattern matches the empty string at every position
    let (report, ok) = find("", "ab");
    assert!(ok);
    assert_eq!(
        report,
        "Find pattern:\n\"\"\nIn:\n\"ab\"\n\n\
         Iteration 0 found \"\" at (0..0)\n\
         Iteration 1 found \"\" at (1..1)\n\
         Iteration 2 found \"\" at (2..2)\n"
    );
}

#[test]
fn split_enumerates_pieces() {
    let (report, ok) = split(",", "a,b,,c");
    assert!(ok);
    assert_eq!(
        report,
        "Splitting with pattern:\n\",\"\nString:\n\"a,b,,c\"\n\n\
         Index 0 is \"a\"\nIndex 1 is \"b\"\nIndex 2 is \"\"\nIndex 3 is \"c\"\n"
    );
}

#[test]
fn split_rejects_bad_pattern() {
    let (report, ok) = split("(", "a,b");
    assert!(!ok);
    assert!(report.starts_with("Error with pattern:"));
}

#[test]
fn split_honors_empty_pattern() {
    let (report, ok) = split("", "ab");
    assert!(ok);
    assert_eq!(
        report,
        "Splitting with pattern:\n\"\"\nString:\n\"ab\"\n\n\
         Index 0 is \"\"\nIndex 1 is \"a\"\nIndex 2 is \"b\"\nIndex 3 is \"\"\n"
    );
}

#[test]
fn split_parts_yields_pieces_and_separators() {
    let parts = split_parts(",", "a,b,,c").unwrap();
    assert_eq!(parts.0, vec!["a", "b", "", "c"]);
    assert_eq!(parts.1, vec![",", ",", ","]);
}

#[test]
fn split_parts_rejects_bad_pattern() {
    assert!(split_parts("(", "a,b").is_none());
}

#[test]
fn split_pieces_rejoined_reconstruct_subject() {
    let cases = [
        ("\\s+", "  alpha  beta gamma "),
        (",", "a,b,,c"),
        ("", "ab"),
        (",", "\u{3b1},\u{3b2}"),
        ("\u{3b2}", "\u{3b1}\u{3b2}\u{3b3}"),
        ("x", ""),
    ];
    for (p, s) in cases {
        let (pieces, seps) = split_parts(p, s).unwrap();
        assert_eq!(pieces.len(), seps.len() + 1);
        let mut rejoined = String::new();
        for (i, piece) in pieces.iter().enumerate() {
            rejoined.push_str(piece);
            if i < seps.len() {
                rejoined.push_str(&seps[i]);
            }
        }
        assert_eq!(rejoined, s);
    }
}

#[test]
fn evaluate_dispatches_operations() {
    assert_eq!(evaluate(Op::Match, "a+", "baaab"), match_op("a+", "baaab"));
    assert_eq!(evaluate(Op::Find, "a+", "baaab"), find("a+", "baaab"));
    assert_eq!(evaluate(Op::Split, "a+", "baaab"), split("a+", "baaab"));
}
