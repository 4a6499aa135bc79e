use logview::app::App;
use logview::parse::parse_line;
use logview::ui::{
    decimal_text, display_segments, level_emphasis, pad_right, status_line, truncate,
    visible_window, Emphasis,
};

#[test]
fn truncate_keeps_short_names() {
    assert_eq!(truncate("app.log", 12), "app.log");
    assert_eq!(truncate("exactly12chr", 12), "exactly12chr");
}

#[test]
fn truncate_cuts_long_names_with_an_ellipsis() {
    assert_eq!(truncate("a-very-long-name.log", 12), "a-very-long…");
    assert_eq!(truncate("ab", 0), "…");
    assert_eq!(truncate("aé", 2), "a…");
}

#[test]
fn visible_window_shows_the_last_lines_above_the_scroll() {
    assert_eq!(visible_window(100, 0, 10), (90, 100));
    assert_eq!(visible_window(100, 5, 10), (85, 95));
    assert_eq!(visible_window(5, 0, 10), (0, 5));
    assert_eq!(visible_window(5, 9, 10), (0, 0));
}

#[test]
fn decimal_text_writes_numbers_like_to_string() {
    for n in [0usize, 7, 10, 305, 1000, 987654321, usize::MAX] {
        assert_eq!(decimal_text(n), n.to_string());
    }
}

#[test]
fn status_line_describes_filter_floor_and_count() {
    let mut app = App::new(10);
    app.push_raw_line("a", "one");
    app.push_raw_line("a", "two");
    assert_eq!(
        status_line(&app),
        "no filter | all levels | 2 lines shown | / filter  w/e/a level  j/k or ↑/↓ scroll  G bottom  g top  q quit"
    );
    app.filter_pattern = "one".to_string();
    app.confirm_filter();
    app.set_level_floor(Some("WARN"));
    assert_eq!(
        status_line(&app),
        "filter:one | level>=WARN | 1 lines shown | / filter  w/e/a level  j/k or ↑/↓ scroll  G bottom  g top  q quit"
    );
    app.start_editing_filter();
    app.apply_filter_input('x');
    assert_eq!(status_line(&app), "/onex");
}

#[test]
fn levels_decide_emphasis() {
    assert_eq!(level_emphasis(Some("ERROR")), Emphasis::Alarm);
    assert_eq!(level_emphasis(Some("FATAL")), Emphasis::Alarm);
    assert_eq!(level_emphasis(Some("WARN")), Emphasis::Warning);
    assert_eq!(level_emphasis(Some("DEBUG")), Emphasis::Faint);
    assert_eq!(level_emphasis(Some("TRACE")), Emphasis::Faint);
    assert_eq!(level_emphasis(Some("INFO")), Emphasis::Plain);
    assert_eq!(level_emphasis(None), Emphasis::Plain);
}

#[test]
fn pad_right_fills_with_spaces_by_characters() {
    assert_eq!(pad_right("ab", 5), "ab   ");
    assert_eq!(pad_right("abcdef", 5), "abcdef");
    assert_eq!(pad_right("é", 3), "é  ");
    assert_eq!(pad_right("", 0), "");
}

#[test]
fn display_segments_of_a_leveled_line_from_several_sources() {
    let line = parse_line("a-very-long-source.log", 0, "[t ERROR x] disk failed");
    let segs = display_segments(&line, true);
    let got: Vec<(String, Emphasis)> = segs.into_iter().map(|g| (g.text, g.emphasis)).collect();
    assert_eq!(
        got,
        vec![
            ("a-very-long… ".to_string(), Emphasis::Source),
            ("ERROR ".to_string(), Emphasis::Alarm),
            ("disk failed".to_string(), Emphasis::Alarm),
        ]
    );
}

#[test]
fn display_segments_of_a_plain_line_from_one_source() {
    let line = parse_line("app.log", 0, "free text");
    let got: Vec<(String, Emphasis)> =
        display_segments(&line, false).into_iter().map(|g| (g.text, g.emphasis)).collect();
    assert_eq!(got, vec![("free text".to_string(), Emphasis::Plain)]);
    let line = parse_line("app.log", 0, "[t WARN x] careful");
    let got: Vec<(String, Emphasis)> =
        display_segments(&line, true).into_iter().map(|g| (g.text, g.emphasis)).collect();
    assert_eq!(
        got,
        vec![
            ("app.log      ".to_string(), Emphasis::Source),
            ("WARN  ".to_string(), Emphasis::Warning),
            ("careful".to_string(), Emphasis::Warning),
        ]
    );
}

#[test]
fn truncate_never_gives_more_characters_than_the_limit() {
    assert_eq!(truncate("ééééééé", 5), "éé…");
    assert!(truncate("ééééééé", 5).chars().count() <= 5);
    assert_eq!(truncate("日本語のファイル名", 7), "日本…");
    assert!(truncate("日本語のファイル名", 7).chars().count() <= 7);
}
