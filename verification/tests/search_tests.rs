use minigrep::search;
use minigrep::search::search_with_mode;
use minigrep::search_case_insensitive;

#[test]
fn case_sensitive() {
    let query = "tape";
    let contents = "\
Rust:
safe, fast, productive.
Pick three.
Duct Tape.";

    assert_eq!(vec!["Duct Tape."], search_case_insensitive(query, contents));
}

#[test]
fn test_search() {
    let query = "three";
    let contents = "\
Rust:
safe, fast, productive.
Pick three
Duct Tape.";
    assert_eq!(vec!["Pick three"], search(query, contents));
}

#[test]
fn sensitive_exact_substring_only() {
    let query = "three";
    let contents = "\
Rust:
safe, fast, productive.
Pick three.
Duct Tape.";
    assert_eq!(vec!["Pick three."], search(query, contents));
}

#[test]
fn sensitive_does_not_fold_case() {
    let query = "tape";
    let contents = "\
Rust:
safe, fast, productive.
Pick three.
Duct Tape.";
    assert_eq!(Vec::<&str>::new(), search(query, contents));
}

#[test]
fn insensitive_returns_original_line() {
    let query = "RUST";
    let contents = "Rust:\nsafe, fast, productive.";
    assert_eq!(vec!["Rust:"], search_case_insensitive(query, contents));
}

#[test]
fn empty_query_returns_every_line_in_order() {
    let contents = "alpha\nBeta\ngamma";
    assert_eq!(vec!["alpha", "Beta", "gamma"], search("", contents));
    assert_eq!(vec!["alpha", "Beta", "gamma"], search_case_insensitive("", contents));
}

#[test]
fn empty_contents_yield_no_lines() {
    assert_eq!(Vec::<&str>::new(), search("anything", ""));
    assert_eq!(Vec::<&str>::new(), search_case_insensitive("anything", ""));
    assert_eq!(Vec::<&str>::new(), search("", ""));
    assert_eq!(Vec::<&str>::new(), search_case_insensitive("", ""));
}

#[test]
fn no_match_yields_empty_result() {
    let contents = "one\ntwo\nthree";
    assert_eq!(Vec::<&str>::new(), search("four", contents));
    assert_eq!(Vec::<&str>::new(), search_case_insensitive("four", contents));
}

#[test]
fn trailing_newline_adds_no_empty_line() {
    let contents = "one\ntwo\n";
    assert_eq!(vec!["one", "two"], search("", contents));
}

#[test]
fn carriage_return_before_newline_is_stripped() {
    let contents = "one\r\ntwo";
    assert_eq!(vec!["one", "two"], search("", contents));
    assert_eq!(vec!["one"], search("one", contents));
}

#[test]
fn lone_carriage_return_stays_in_its_line() {
    let contents = "one\rtwo\nthree";
    assert_eq!(vec!["one\rtwo", "three"], search("", contents));
}

#[test]
fn duplicate_matching_lines_are_all_kept() {
    let contents = "echo\nother\necho";
    assert_eq!(vec!["echo", "echo"], search("echo", contents));
}

#[test]
fn insensitive_finds_at_least_what_sensitive_finds() {
    let query = "duct";
    let contents = "Duct tape\nduct work\nnothing here";
    let sensitive = search(query, contents);
    let insensitive = search_case_insensitive(query, contents);
    assert_eq!(vec!["duct work"], sensitive);
    assert_eq!(vec!["Duct tape", "duct work"], insensitive);
    assert!(sensitive.len() <= insensitive.len());
}

#[test]
fn query_longer_than_line_does_not_match() {
    let contents = "ab\nabc";
    assert_eq!(vec!["abc"], search("abc", contents));
}

#[test]
fn mode_flag_selects_the_search() {
    let contents = "Duct tape\nduct work";
    assert_eq!(vec!["duct work"], search_with_mode("duct", contents, true));
    assert_eq!(vec!["Duct tape", "duct work"], search_with_mode("duct", contents, false));
}

#[test]
fn non_ascii_characters_match_literally() {
    let contents = "caf\u{e9} au lait\nplain coffee";
    assert_eq!(vec!["caf\u{e9} au lait"], search("caf\u{e9}", contents));
    assert_eq!(vec!["caf\u{e9} au lait"], search_case_insensitive("CAF\u{e9}", contents));
}
