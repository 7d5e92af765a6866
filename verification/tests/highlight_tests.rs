use greppy::line_segments;
use greppy::match_positions;
use greppy::matching_lines;
use greppy::render_line;
use greppy::Config;

#[test]
fn match_at_line_start_is_detected() {
    assert_eq!(vec![0], match_positions("duct tape", "duct"));
}

#[test]
fn match_at_line_end_is_detected() {
    assert_eq!(vec![6], match_positions("use a duct", "duct"));
}

#[test]
fn occurrences_are_found_left_to_right_without_overlap() {
    assert_eq!(vec![0, 2], match_positions("aaaa", "aa"));
    assert_eq!(vec![2, 7], match_positions("a duct duct b", "duct"));
}

#[test]
fn empty_query_highlights_nothing() {
    assert!(match_positions("abc", "").is_empty());
}

#[test]
fn segments_split_the_line_around_matches() {
    let segs = line_segments("a duct b", "duct");
    let texts: Vec<&str> = segs.iter().map(|s| s.text).collect();
    let marks: Vec<bool> = segs.iter().map(|s| s.is_match).collect();
    assert_eq!(vec!["a ", "duct", " b"], texts);
    assert_eq!(vec![false, true, false], marks);
}

#[test]
fn segment_at_line_start_is_delimited() {
    let segs = line_segments("duct tape", "duct");
    assert_eq!(3, segs.len());
    assert_eq!("", segs[0].text);
    assert!(!segs[0].is_match);
    assert_eq!("duct", segs[1].text);
    assert!(segs[1].is_match);
    assert_eq!(" tape", segs[2].text);
    assert!(!segs[2].is_match);
}

#[test]
fn segment_at_line_end_is_delimited() {
    let segs = line_segments("use a duct", "duct");
    assert_eq!(3, segs.len());
    assert_eq!("use a ", segs[0].text);
    assert_eq!("duct", segs[1].text);
    assert!(segs[1].is_match);
    assert_eq!("", segs[2].text);
}

#[test]
fn unmatched_line_renders_unchanged() {
    assert_eq!("Pick three.", render_line("Pick three.", "duct"));
}

#[test]
fn empty_query_renders_line_unchanged() {
    assert_eq!("Pick three.", render_line("Pick three.", ""));
}

#[test]
fn rendered_match_keeps_the_query_text() {
    let out = render_line("a duct b", "duct");
    assert!(out.contains("duct"));
    assert!(out.starts_with("a "));
    assert!(out.ends_with(" b"));
}

#[test]
fn matching_lines_respects_the_mode() {
    let contents = "Rust is great\ntrust the rust";
    let sensitive = Config {
        query: "rust".to_string(),
        filename: "f".to_string(),
        case_sensitive: true,
    };
    assert_eq!(vec!["trust the rust"], matching_lines(&sensitive, contents));
    let insensitive = Config {
        query: "rust".to_string(),
        filename: "f".to_string(),
        case_sensitive: false,
    };
    assert_eq!(
        vec!["Rust is great", "trust the rust"],
        matching_lines(&insensitive, contents)
    );
}
