use minigrep::lines_of;
use minigrep::search;
use minigrep::search_case_insensitive;

#[test]
fn case_sensitive() {
    let query = "duct";
    let contents = "\
Rust:
safe, fast, productive.
Pick three.
Duct tape.";

    assert_eq!(vec!["safe, fast, productive."], search(query, contents))
}

#[test]
fn case_insensitive() {
    let query = "rUsT";
    let contents = "\
Rust:
safe, fast, productive.
Pick three.
Trust me.";

    assert_eq!(
        vec!["Rust:", "Trust me."],
        search_case_insensitive(query, contents)
    )
}

#[test]
fn empty_query_returns_every_line() {
    let contents = "first\nsecond\nthird";
    assert_eq!(vec!["first", "second", "third"], search("", contents));
}

#[test]
fn empty_contents_has_no_matches() {
    let empty: Vec<&str> = Vec::new();
    assert_eq!(empty, search("anything", ""));
    assert_eq!(empty, search("", ""));
    assert_eq!(empty, search_case_insensitive("anything", ""));
}

#[test]
fn trailing_newline_adds_no_line() {
    assert_eq!(vec!["alpha", "beta"], search("", "alpha\nbeta\n"));
}

#[test]
fn crlf_terminators_are_stripped() {
    assert_eq!(vec!["one", "two"], search("", "one\r\ntwo\r\n"));
}

#[test]
fn lone_carriage_return_stays_in_the_line() {
    assert_eq!(vec!["a\rx"], search("\r", "a\rx\nb"));
}

#[test]
fn duplicate_lines_each_match() {
    assert_eq!(vec!["dup", "dup"], search("dup", "dup\nother\ndup"));
}

#[test]
fn matches_keep_file_order() {
    let contents = "cherry\napple\ncandle\nberry\ncoal";
    assert_eq!(vec!["cherry", "candle", "coal"], search("c", contents));
}

#[test]
fn query_spanning_lines_never_matches() {
    let empty: Vec<&str> = Vec::new();
    assert_eq!(empty, search("a\nb", "a\nb"));
}

#[test]
fn case_insensitive_query_case_is_irrelevant() {
    let contents = "Rust:\nsafe, fast, productive.\nPick three.\nTrust me.";
    let lowered = search_case_insensitive("rust", contents);
    assert_eq!(lowered, search_case_insensitive("rUsT", contents));
    assert_eq!(lowered, search_case_insensitive("RUST", contents));
}

#[test]
fn lines_of_splits_without_terminators() {
    assert_eq!(vec!["a", "", "b"], lines_of("a\n\nb"));
    let empty: Vec<&str> = Vec::new();
    assert_eq!(empty, lines_of(""));
    assert_eq!(vec![""], lines_of("\n"));
}
