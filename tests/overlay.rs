use voltaire::issue::{GrammarError, Options, RawIssue};
use voltaire::offsets::{get_range, range_chars, range_utf8, replace_range};
use voltaire::render::{decimal_string, Voltaire, CROSSED, GREEN, RED, RESET};
use voltaire::resolve::{find_folded, resolve, HouseRule};

fn options(text: &str, number: u8, verbose: bool) -> Options {
    Options { text: text.to_string(), number, verbose }
}

fn raw(offset: i64, length: i64, candidates: &[&str]) -> RawIssue {
    RawIssue {
        message: Some("msg".to_string()),
        offset: Some(offset),
        length: Some(length),
        candidates: candidates.iter().map(|c| c.to_string()).collect(),
    }
}

fn spans(v: &Voltaire) -> Vec<(usize, usize, String)> {
    v.errors
        .iter()
        .map(|e| (e.get_start(), e.get_end(), e.suggestions[0].clone()))
        .collect()
}

#[test]
fn translator_round_trip_multibyte() {
    let s = "a\u{1F600}bc".to_string();
    let r = range_utf8(&s, 1, 3);
    assert_eq!((r.start, r.end), (1, 6));
    let back = range_chars(&s, r.start, r.end);
    assert_eq!((back.start, back.end), (1, 3));
    let whole = range_utf8(&s, 0, 4);
    assert_eq!((whole.start, whole.end), (0, 7));
}

#[test]
fn translator_ascii_is_identity() {
    let s = "plain text".to_string();
    let r = range_utf8(&s, 2, 7);
    assert_eq!((r.start, r.end), (2, 7));
}

#[test]
fn multibyte_span_is_addressed_exactly() {
    let s = "\u{1F600} hello".to_string();
    assert_eq!(get_range(&s, 2, 7), "hello");
    assert_eq!(get_range(&s, 0, 1), "\u{1F600}");
    let mut t = s.clone();
    replace_range(&mut t, 2, 7, "world".to_string());
    assert_eq!(t, "\u{1F600} world");
}

#[test]
fn normalizer_caps_suggestions_in_order() {
    let o = options("Hello there", 3, false);
    let e = GrammarError::from_raw(raw(0, 5, &["a", "b", "c", "d", "e"]), &o).unwrap();
    assert_eq!(e.suggestions, vec!["a", "b", "c"]);
    let e = GrammarError::from_raw(raw(0, 5, &["x", "y"]), &o).unwrap();
    assert_eq!(e.suggestions, vec!["x", "y"]);
    assert_eq!((e.get_start(), e.get_end()), (0, 5));
}

#[test]
fn normalizer_rejects_malformed_records() {
    let o = options("Hello", 3, false);
    let mut no_message = raw(0, 2, &["x"]);
    no_message.message = None;
    assert!(GrammarError::from_raw(no_message, &o).is_none());
    let mut no_offset = raw(0, 2, &["x"]);
    no_offset.offset = None;
    assert!(GrammarError::from_raw(no_offset, &o).is_none());
    assert!(GrammarError::from_raw(raw(-1, 2, &["x"]), &o).is_none());
    assert!(GrammarError::from_raw(raw(0, -2, &["x"]), &o).is_none());
    assert!(GrammarError::from_raw(raw(3, 3, &["x"]), &o).is_none());
    assert!(GrammarError::from_raw(raw(0, 2, &[]), &o).is_none());
    assert!(GrammarError::from_raw(raw(0, 5, &["x"]), &o).is_some());
}

#[test]
fn normalize_keeps_actionable_in_order() {
    let o = options("Hello world", 2, false);
    let raws = vec![raw(6, 5, &["World"]), raw(0, 1, &[]), raw(0, 5, &["Hi", "Hey", "Yo"])];
    let out = GrammarError::normalize(raws, &o);
    assert_eq!(out.len(), 2);
    assert_eq!(out[0].get_start(), 6);
    assert_eq!(out[1].suggestions, vec!["Hi", "Hey"]);
}

#[test]
fn resolver_output_is_disjoint() {
    let o = options("abcdefghijklmnop", 3, false);
    let raws = vec![
        raw(8, 2, &["X"]),
        raw(0, 10, &["0123456789"]),
        raw(2, 1, &["Y"]),
        raw(12, 2, &["Z"]),
    ];
    let v = Voltaire::from_raw_issues(raws, o, &Vec::new());
    let s = spans(&v);
    assert_eq!(s.len(), 2);
    for w in s.windows(2) {
        assert!(w[0].1 <= w[1].0);
    }
    assert_eq!((s[0].0, s[0].1), (0, 10));
    assert_eq!((s[1].0, s[1].1), (12, 14));
}

#[test]
fn resolver_is_idempotent() {
    let text = "the quick brown fox".to_string();
    let o = options("the quick brown fox", 3, false);
    let raws = vec![raw(4, 5, &["slow"]), raw(0, 3, &["A"]), raw(8, 3, &["k b"])];
    let once = resolve(GrammarError::normalize(raws, &o), &text, &Vec::new());
    let first: Vec<(usize, usize, Vec<String>)> =
        once.iter().map(|e| (e.get_start(), e.get_end(), e.suggestions.clone())).collect();
    let twice = resolve(once, &text, &Vec::new());
    let second: Vec<(usize, usize, Vec<String>)> =
        twice.iter().map(|e| (e.get_start(), e.get_end(), e.suggestions.clone())).collect();
    assert_eq!(first, second);
}

#[test]
fn renderer_non_interference() {
    let o = options("The cat runs fast", 3, false);
    let raws = vec![raw(0, 3, &["Bob"]), raw(5, 3, &["runs"])];
    let v = Voltaire::from_raw_issues(raws, o, &Vec::new());
    let r = v.render();
    let expected = format!("{GREEN}Bob{RESET} c{GREEN}runs{RESET}runs fast");
    assert_eq!(r.corrected, expected);
    let marked = format!("{CROSSED}{RED}The{RESET} c{CROSSED}{RED}at_{RESET}runs fast");
    assert_eq!(r.marked, marked);
    assert!(!r.clean);
}

#[test]
fn empty_input_renders_clean() {
    let o = options("Hello world", 3, true);
    let v = Voltaire::from_raw_issues(Vec::new(), o, &Vec::new());
    assert!(v.errors.is_empty());
    let r = v.render();
    assert!(r.clean);
    assert_eq!(r.headline, format!("{GREEN}Great{RESET}"));
    assert_eq!(r.marked, "Hello world");
    assert_eq!(r.corrected, "Hello world");
    assert!(r.explanations.is_empty());
}

#[test]
fn nested_overlap_merges() {
    let o = options("Hello", 3, false);
    let raws = vec![raw(0, 5, &["Howdy"]), raw(2, 3, &["ey"])];
    let v = Voltaire::from_raw_issues(raws, o, &Vec::new());
    let s = spans(&v);
    assert_eq!(s, vec![(0, 5, "Hoey".to_string())]);
}

#[test]
fn touching_annotations_merge() {
    let o = options("abcdef", 3, false);
    let raws = vec![raw(3, 3, &["XYZ"]), raw(0, 3, &["uvw"])];
    let v = Voltaire::from_raw_issues(raws, o, &Vec::new());
    assert_eq!(spans(&v), vec![(0, 6, "uvwXYZ".to_string())]);
}

#[test]
fn triple_overlap_cascades() {
    let o = options("abcdefgh", 3, false);
    let raws = vec![raw(0, 4, &["ABCD"]), raw(2, 4, &["cdef"]), raw(5, 3, &["FGH"])];
    let v = Voltaire::from_raw_issues(raws, o, &Vec::new());
    assert_eq!(spans(&v), vec![(0, 8, "ABcdeFGH".to_string())]);
}

#[test]
fn house_rule_forces_annotation() {
    let o = options("I use Teh word and teh other", 3, false);
    let rules = vec![HouseRule {
        pattern: "teh".to_string(),
        replacement: "the".to_string(),
        explanation: "typo".to_string(),
    }];
    let v = Voltaire::from_raw_issues(vec![raw(0, 1, &["We"])], o, &rules);
    assert_eq!(spans(&v), vec![(0, 1, "We".to_string()), (6, 9, "the".to_string())]);
    assert_eq!(v.errors[1].explanation, "typo");
}

#[test]
fn folded_search() {
    assert_eq!(find_folded("Hello World", "WORLD"), Some(6));
    assert_eq!(find_folded("Hello", "xyz"), None);
    assert_eq!(find_folded("Hello", ""), None);
    assert_eq!(find_folded("ab", "abc"), None);
}

#[test]
fn styled_pieces() {
    let o = options("big cat sat", 3, false);
    let e = GrammarError::from_raw(raw(0, 7, &["a b", "c"]), &o).unwrap();
    assert_eq!(e.get_word(RED, CROSSED), format!("{CROSSED}{RED}big_cat{RESET}"));
    assert_eq!(
        e.get_suggestions(GREEN, ""),
        format!("{GREEN}a_b{RESET}, {GREEN}c{RESET}")
    );
    assert_eq!(e.get_explanation("", ""), format!("msg{RESET}"));
}

#[test]
fn verbose_explanations_ascend() {
    let o = options("one two three", 3, true);
    let raws = vec![raw(8, 5, &["3"]), raw(0, 3, &["1"])];
    let v = Voltaire::from_raw_issues(raws, o, &Vec::new());
    let r = v.render();
    assert_eq!(r.explanations.len(), 2);
    assert_eq!(
        r.explanations[0],
        format!("0: {RED}one{RESET} -> {GREEN}1{RESET}: msg{RESET}")
    );
    assert_eq!(
        r.explanations[1],
        format!("8: {RED}three{RESET} -> {GREEN}3{RESET}: msg{RESET}")
    );
    assert_eq!(r.headline, format!("{RED}Disappointing...{RESET}"));
}

#[test]
fn decimal_notation() {
    assert_eq!(decimal_string(0), "0");
    assert_eq!(decimal_string(7), "7");
    assert_eq!(decimal_string(1234), "1234");
}

#[test]
fn json_entries_become_annotations() {
    let entry: serde_json::Value = serde_json::from_str(
        r#"{"message":"Use a greeting","offset":0,"length":5,
            "replacements":[{"value":"Hi"},{"other":1},{"value":"Hey"},{"value":"Yo"}]}"#,
    )
    .unwrap();
    let o = options("Hello world", 2, false);
    let e = GrammarError::from_json(&entry, &o).unwrap();
    assert_eq!(e.suggestions, vec!["Hi", "Hey"]);
    assert_eq!(e.explanation, "Use a greeting");
    assert_eq!((e.get_start(), e.get_end()), (0, 5));

    let bad: serde_json::Value =
        serde_json::from_str(r#"{"offset":0,"length":5,"replacements":[{"value":"Hi"}]}"#)
            .unwrap();
    assert!(GrammarError::from_json(&bad, &o).is_none());
}

#[test]
fn json_analysis_is_resolved() {
    let analysis: serde_json::Value = serde_json::from_str(
        r#"{"matches":[
            {"message":"b","offset":6,"length":5,"replacements":[{"value":"World"}]},
            {"message":"a","offset":0,"length":5,"replacements":[{"value":"Hi"}]},
            {"message":"skip","offset":0,"length":5,"replacements":[]}
        ]}"#,
    )
    .unwrap();
    let o = options("Hello world", 3, false);
    let v = Voltaire::from_analysis(analysis, &o);
    assert_eq!(
        spans(&v),
        vec![(0, 5, "Hi".to_string()), (6, 11, "World".to_string())]
    );
    let r = v.render();
    assert_eq!(r.corrected, format!("{GREEN}Hi{RESET} {GREEN}World{RESET}"));
}

#[test]
fn json_skips_replacements_without_string_before_cap() {
    let entry: serde_json::Value = serde_json::from_str(
        r#"{"message":"m","offset":0,"length":1,
            "replacements":[{"value":1},{"value":"x"},{"other":"y"}]}"#,
    )
    .unwrap();
    let o = options("Hello", 3, false);
    let e = GrammarError::from_json(&entry, &o).unwrap();
    assert_eq!(e.suggestions, vec!["x"]);
    let one: serde_json::Value = serde_json::from_str(
        r#"{"message":"m","offset":0,"length":1,
            "replacements":[{"value":1},{"value":"x"},{"value":"y"}]}"#,
    )
    .unwrap();
    let o1 = options("Hello", 1, false);
    assert_eq!(GrammarError::from_json(&one, &o1).unwrap().suggestions, vec!["x"]);
}

#[test]
fn json_without_matches_has_no_annotations() {
    let o = options("Hello", 3, false);
    for text in [r#"{}"#, r#"{"matches":3}"#, r#"{"matches":{"a":1}}"#] {
        let analysis: serde_json::Value = serde_json::from_str(text).unwrap();
        let v = Voltaire::from_analysis(analysis, &o);
        assert!(v.errors.is_empty());
        assert_eq!(v.sentence, "Hello");
    }
}

#[test]
fn json_analysis_with_house_rule() {
    let analysis: serde_json::Value = serde_json::from_str(
        r#"{"matches":[{"message":"a","offset":0,"length":1,"replacements":[{"value":"We"}]}]}"#,
    )
    .unwrap();
    let o = options("I use Teh word", 3, false);
    let rules = vec![HouseRule {
        pattern: "teh".to_string(),
        replacement: "the".to_string(),
        explanation: "typo".to_string(),
    }];
    let v = Voltaire::from_analysis_with_rules(analysis, &o, &rules);
    assert_eq!(spans(&v), vec![(0, 1, "We".to_string()), (6, 9, "the".to_string())]);
    assert_eq!(v.errors[1].explanation, "typo");
}

#[test]
fn raw_issue_reads_fields() {
    let entry: serde_json::Value = serde_json::from_str(
        r#"{"message":"m","offset":2,"length":"x","replacements":[{"value":"a"},{"value":"b"}]}"#,
    )
    .unwrap();
    let r = voltaire::json::raw_issue(&entry);
    assert_eq!(r.message.as_deref(), Some("m"));
    assert_eq!(r.offset, Some(2));
    assert_eq!(r.length, None);
    assert_eq!(r.candidates, vec!["a", "b"]);
}
