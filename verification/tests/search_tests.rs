use greppy::search;
use greppy::search_case_insensitive;

#[test]
fn case_sensitive() {
    let query = "duct";
    let contents = "\
Rust:
safe, fast, productive.
Pick three.
Duct tape.";
    assert_eq!(vec!["safe, fast, productive."], search(query, contents));
}

#[test]
fn case_insensitive() {
    let query = "rUsT";
    let contents = "\
Rust:
safe, fast, productive.
Pick three.
Trust me.";
    assert_eq!(vec!["Rust:", "Trust me."], search_case_insensitive(query, contents));
}

#[test]
fn empty_query_returns_all_lines() {
    let contents = "alpha\nbeta\ngamma";
    assert_eq!(vec!["alpha", "beta", "gamma"], search("", contents));
    assert_eq!(vec!["alpha", "beta", "gamma"], search_case_insensitive("", contents));
}

#[test]
fn empty_content_returns_nothing() {
    assert!(search("x", "").is_empty());
    assert!(search_case_insensitive("x", "").is_empty());
}

#[test]
fn query_longer_than_any_line_never_matches() {
    assert!(search("abcdef", "abc\nde").is_empty());
}

#[test]
fn search_twice_gives_identical_results() {
    let contents = "one\ntwo\nthree\ntwenty two";
    assert_eq!(search("tw", contents), search("tw", contents));
    assert_eq!(
        search_case_insensitive("TW", contents),
        search_case_insensitive("TW", contents)
    );
}

#[test]
fn order_of_matching_lines_is_preserved() {
    let contents = "b1 x\na\nb2 x\nb3 x";
    assert_eq!(vec!["b1 x", "b2 x", "b3 x"], search("x", contents));
}

#[test]
fn trailing_newline_adds_no_empty_line() {
    assert_eq!(vec!["aa", "ab"], search("a", "aa\nab\n"));
    assert_eq!(vec!["aa", "ab", ""], search("", "aa\nab\n\n"));
}

#[test]
fn case_insensitive_keeps_original_casing() {
    assert_eq!(
        vec!["HeLLo there"],
        search_case_insensitive("hello", "HeLLo there\nnope")
    );
}
