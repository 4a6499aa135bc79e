use logview::filter::{level_rank, passes_level_floor, Filter};
use logview::parse::parse_line;

#[test]
fn substring_filter_is_case_insensitive() {
    let line = parse_line("a", 0, "Connection Refused by upstream");
    let f = Filter::new("refused");
    assert!(f.matches(&line));
}

#[test]
fn invalid_regex_falls_back_to_literal_substring() {
    // `[abc` is an invalid regex (unterminated class) but a
    // perfectly reasonable literal string to search for.
    let line = parse_line("a", 0, "seen: [abc in the raw log line");
    let f = Filter::new("[abc");
    assert!(matches!(f, Filter::Substring(_)));
    assert!(f.matches(&line));
}

#[test]
fn valid_regex_is_used_as_regex() {
    let line = parse_line("a", 0, "user id=482 logged in");
    let f = Filter::new(r"id=\d+");
    assert!(matches!(f, Filter::Regex(_)));
    assert!(f.matches(&line));
    let line2 = parse_line("a", 0, "user id=abc logged in");
    assert!(!f.matches(&line2));
}

#[test]
fn empty_pattern_matches_everything() {
    let f = Filter::new("");
    let line = parse_line("a", 0, "anything at all");
    assert!(f.matches(&line));
}

#[test]
fn level_floor_hides_below_threshold_but_never_hides_unparsed() {
    let info = parse_line("a", 0, "[2026-08-23T14:32:10Z INFO  x] just info");
    let error = parse_line("a", 0, "[2026-08-23T14:32:10Z ERROR x] bad thing");
    let unparsed = parse_line("a", 0, "totally free text");

    assert!(!passes_level_floor(&info, Some("WARN")));
    assert!(passes_level_floor(&error, Some("WARN")));
    assert!(passes_level_floor(&unparsed, Some("WARN")));
}

#[test]
fn empty_pattern_gives_the_all_filter() {
    assert!(matches!(Filter::new(""), Filter::All));
}

#[test]
fn regex_filter_ignores_case() {
    let f = Filter::new("disk.*FULL");
    assert!(matches!(f, Filter::Regex(_)));
    assert!(f.matches(&parse_line("a", 0, "Disk is full")));
    assert!(!f.matches(&parse_line("a", 0, "full disk")));
}

#[test]
fn fallback_substring_is_lower_cased_and_ignores_line_case() {
    let f = Filter::new("(Open");
    match &f {
        Filter::Substring(s) => assert_eq!(s, "(open"),
        _ => panic!("expected a substring filter"),
    }
    assert!(f.matches(&parse_line("a", 0, "x (OPEN y")));
    assert!(!f.matches(&parse_line("a", 0, "x open y")));
}

#[test]
fn level_ranks_are_ordered_and_unknown_is_info() {
    assert_eq!(level_rank("TRACE"), 0);
    assert_eq!(level_rank("DEBUG"), 1);
    assert_eq!(level_rank("INFO"), 2);
    assert_eq!(level_rank("WARN"), 3);
    assert_eq!(level_rank("ERROR"), 4);
    assert_eq!(level_rank("FATAL"), 5);
    assert_eq!(level_rank("NOTICE"), 2);
    assert_eq!(level_rank("warn"), 2);
}

#[test]
fn no_floor_passes_everything_and_equal_rank_passes() {
    let debug = parse_line("a", 0, "[t DEBUG x] d");
    assert!(passes_level_floor(&debug, None));
    assert!(passes_level_floor(&debug, Some("DEBUG")));
    assert!(!passes_level_floor(&debug, Some("INFO")));
    assert!(passes_level_floor(&debug, Some("TRACE")));
}

#[test]
fn cloned_filters_match_the_same_lines() {
    let line = parse_line("a", 0, "user id=482 logged in");
    let other = parse_line("a", 1, "nothing here");
    for pattern in ["", "ID=4", r"id=\d+", "[abc"] {
        let f = Filter::new(pattern);
        let g = f.clone();
        assert_eq!(f.matches(&line), g.matches(&line));
        assert_eq!(f.matches(&other), g.matches(&other));
    }
}
