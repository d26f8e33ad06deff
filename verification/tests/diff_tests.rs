use supporter::diff::check_diff;

#[test]
fn identical_single_line() {
    assert!(check_diff("3\n", "3\n"));
}

#[test]
fn trailing_space_tolerated() {
    assert!(check_diff("3 \n", "3\n"));
}

#[test]
fn trailing_tab_tolerated() {
    assert!(check_diff("a\t\n", "a\n"));
}

#[test]
fn trailing_space_in_expected_tolerated() {
    assert!(check_diff("3\n", "3 \n"));
}

#[test]
fn blank_expected_line_is_wildcard() {
    assert!(check_diff("anything\n", "\n"));
}

#[test]
fn wildcard_consumes_one_actual_line() {
    assert!(check_diff("junk\n3\n", "\n3\n"));
}

#[test]
fn missing_second_line_fails() {
    assert!(!check_diff("3\n", "3\n4\n"));
}

#[test]
fn extra_expected_empty_lines_ok() {
    assert!(check_diff("3\n", "3\n\n\n"));
}

#[test]
fn mismatch_fails() {
    assert!(!check_diff("4\n", "3\n"));
}

#[test]
fn empty_both() {
    assert!(check_diff("", ""));
}

#[test]
fn blank_actual_remainder_ok() {
    assert!(check_diff("3\n\n \n", "3\n"));
}

#[test]
fn nonblank_actual_remainder_fails() {
    assert!(!check_diff("3\nx\n", "3\n"));
}

#[test]
fn blank_lines_against_empty_expected_ok() {
    assert!(check_diff("\n \n", ""));
}

#[test]
fn nonblank_against_empty_expected_fails() {
    assert!(!check_diff("a\n", ""));
}

#[test]
fn whitespace_only_expected_line_is_no_wildcard() {
    // only a truly empty expected line stands for anything
    assert!(!check_diff("x\n", " \n"));
    assert!(check_diff(" \n", " \n"));
}

#[test]
fn crlf_matches_lf() {
    assert!(check_diff("3\r\n", "3\n"));
}

#[test]
fn final_newline_optional() {
    assert!(check_diff("a\nb", "a\nb\n"));
    assert!(check_diff("a\nb\n", "a\nb"));
}

#[test]
fn lone_carriage_return_is_trailing_whitespace() {
    assert!(check_diff("a\r", "a"));
}

#[test]
fn wildcard_satisfied_without_actual_line() {
    assert!(check_diff("", "\n"));
}

#[test]
fn empty_actual_against_content_fails() {
    assert!(!check_diff("", "3\n"));
}

#[test]
fn internal_whitespace_not_normalized() {
    assert!(!check_diff("a b\n", "a  b\n"));
}

#[test]
fn case_sensitive() {
    assert!(!check_diff("A\n", "a\n"));
}
