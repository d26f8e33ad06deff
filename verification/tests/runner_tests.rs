use supporter::runner::classify;
use supporter::runner::expected_name;
use supporter::runner::lex_le;
use supporter::runner::plan_tests;
use supporter::runner::report;
use supporter::runner::sort_names;
use supporter::runner::TestOutcome;

#[test]
fn classify_accepted() {
    assert_eq!(classify("3\n", Some("3\n")), TestOutcome::Accepted);
}

#[test]
fn classify_accepted_with_trailing_space() {
    assert_eq!(classify("3 \n", Some("3\n")), TestOutcome::Accepted);
}

#[test]
fn classify_wrong_answer() {
    assert_eq!(classify("4\n", Some("3\n")), TestOutcome::WrongAnswer);
}

#[test]
fn classify_no_expected_output() {
    assert_eq!(classify("4\n", None), TestOutcome::NoExpectedOutput);
}

#[test]
fn expected_name_swaps_extension() {
    assert_eq!(expected_name("1.in"), "1.out");
    assert_eq!(expected_name("a.b.in"), "a.b.out");
}

#[test]
fn plan_keeps_only_input_fixtures_sorted() {
    let entries = vec![
        "2.in".to_string(),
        "readme.md".to_string(),
        "1.out".to_string(),
        "1.in".to_string(),
        ".in".to_string(),
    ];
    let cases = plan_tests(&entries);
    assert_eq!(cases.len(), 2);
    assert_eq!(cases[0].input, "1.in");
    assert_eq!(cases[0].expected, "1.out");
    assert_eq!(cases[1].input, "2.in");
    assert_eq!(cases[1].expected, "2.out");
}

#[test]
fn plan_orders_lexicographically() {
    let entries = vec!["10.in".to_string(), "2.in".to_string()];
    let cases = plan_tests(&entries);
    assert_eq!(cases[0].input, "10.in");
    assert_eq!(cases[1].input, "2.in");
}

#[test]
fn mixed_fixture_set_classifies_in_order() {
    // a directory holding 1.in with its answer file, and 2.in without one
    let entries = vec!["1.in".to_string(), "1.out".to_string(), "2.in".to_string()];
    let cases = plan_tests(&entries);
    assert_eq!(cases.len(), 2);
    let mut outcomes = Vec::new();
    for case in &cases {
        let expected_present = entries.iter().any(|e| *e == case.expected);
        let expected_text = if expected_present { Some("3\n") } else { None };
        outcomes.push(classify("3\n", expected_text));
    }
    assert_eq!(outcomes, vec![TestOutcome::Accepted, TestOutcome::NoExpectedOutput]);
}

#[test]
fn sort_names_orders_and_keeps() {
    let names = vec!["b.in".to_string(), "a.in".to_string(), "a.in".to_string()];
    let sorted = sort_names(names);
    assert_eq!(sorted, vec!["a.in".to_string(), "a.in".to_string(), "b.in".to_string()]);
}

#[test]
fn lex_le_basic() {
    assert!(lex_le("a", "b"));
    assert!(!lex_le("b", "a"));
    assert!(lex_le("a", "a"));
    assert!(lex_le("a", "ab"));
    assert!(!lex_le("ab", "a"));
    assert!(lex_le("10", "2"));
}

#[test]
fn report_carries_everything() {
    let r = report("3\n".to_string(), Some("3\n".to_string()), 42);
    assert_eq!(r.outcome, TestOutcome::Accepted);
    assert_eq!(r.actual, "3\n");
    assert_eq!(r.expected, Some("3\n".to_string()));
    assert_eq!(r.elapsed_ms, 42);

    let r = report("3\n".to_string(), None, 7);
    assert_eq!(r.outcome, TestOutcome::NoExpectedOutput);
    assert_eq!(r.expected, None);
}
