use supporter::config::online;
use supporter::config::Info;
use supporter::contest::contest_dir_name;
use supporter::contest::contest_is_remote;
use supporter::paths::combined_source_path;
use supporter::paths::compiled_binary_path;
use supporter::paths::join_path;
use supporter::paths::problem_binary_path;
use supporter::paths::source;
use supporter::paths::source_candidate;

#[test]
fn source_in_directory() {
    assert_eq!(source("p", true, true), Some("p/main.cpp".to_string()));
}

#[test]
fn source_direct_file() {
    assert_eq!(source("p/x.cpp", false, true), Some("p/x.cpp".to_string()));
}

#[test]
fn source_missing() {
    assert_eq!(source("p", true, false), None);
    assert_eq!(source("nope.cpp", false, false), None);
}

#[test]
fn candidate_no_doubled_separator() {
    assert_eq!(source_candidate("p/", true), "p/main.cpp");
    assert_eq!(source_candidate("", true), "main.cpp");
}

#[test]
fn join_path_basic() {
    assert_eq!(join_path("p", "main"), "p/main");
    assert_eq!(join_path("p/", "main"), "p/main");
    assert_eq!(join_path("", "main"), "main");
}

#[test]
fn problem_binary_has_fixed_name() {
    assert_eq!(problem_binary_path("abc100/a"), "abc100/a/main");
}

#[test]
fn compiled_binary_strips_extension() {
    assert_eq!(compiled_binary_path("p/main.cpp"), "p/main");
    assert_eq!(compiled_binary_path("main.cpp"), "main");
}

#[test]
fn compiled_binary_keeps_dotless_and_hidden_names() {
    assert_eq!(compiled_binary_path("dir.d/main"), "dir.d/main");
    assert_eq!(compiled_binary_path(".in"), ".in");
}

#[test]
fn combined_source_name() {
    assert_eq!(combined_source_path("c/p/main.cpp"), "c/p/main_combined.cpp");
    assert_eq!(combined_source_path("main.cpp"), "main_combined.cpp");
}

#[test]
fn online_follows_contest_url() {
    let with_url = Info {
        contest_url: Some("https://atcoder.jp/contests/abc100".to_string()),
        problem_url: None,
    };
    let without = Info { contest_url: None, problem_url: None };
    assert!(online(&with_url));
    assert!(!online(&without));
}

#[test]
fn remote_contest_is_a_url() {
    assert!(contest_is_remote("https://atcoder.jp/contests/abc100"));
    assert!(!contest_is_remote("abc100"));
}

#[test]
fn contest_dir_name_trims() {
    assert_eq!(contest_dir_name("atcoder-abc100\n"), Some("atcoder-abc100".to_string()));
    assert_eq!(contest_dir_name("  x \t"), Some("x".to_string()));
    assert_eq!(contest_dir_name("plain"), Some("plain".to_string()));
}

#[test]
fn contest_dir_name_rejects_blank() {
    assert_eq!(contest_dir_name(""), None);
    assert_eq!(contest_dir_name(" \n\t"), None);
}
