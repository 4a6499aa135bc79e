use logview::formats::{parse_bracket, parse_plain};

fn parts(t: (&str, &str, &str)) -> Option<(String, String, String)> {
    Some((t.0.to_string(), t.1.to_string(), t.2.to_string()))
}

#[test]
fn bracket_layout_parts() {
    assert_eq!(
        parse_bracket("[2026-08-23T14:32:10Z INFO  actix_server::builder] starting service"),
        parts(("2026-08-23T14:32:10Z", "INFO", "starting service"))
    );
    assert_eq!(parse_bracket("[ts WARNING] m"), parts(("ts", "WARN", "m")));
    assert_eq!(parse_bracket("[ts ERROR]"), parts(("ts", "ERROR", "")));
    assert_eq!(parse_bracket("[ts DEBUG]  two spaces"), parts(("ts", "DEBUG", " two spaces")));
    assert_eq!(parse_bracket("[ts TRACE]\tx"), parts(("ts", "TRACE", "x")));
}

#[test]
fn bracket_layout_rejections() {
    assert_eq!(parse_bracket("ts INFO] m"), None);
    assert_eq!(parse_bracket("[ INFO] m"), None);
    assert_eq!(parse_bracket("[ts] m"), None);
    assert_eq!(parse_bracket("[ts info] m"), None);
    assert_eq!(parse_bracket("[ts INFO m"), None);
    assert_eq!(parse_bracket("[ts FATAL] m"), None);
    assert_eq!(parse_bracket("[ts INFO] a\nb"), None);
    assert_eq!(parse_bracket(""), None);
}

#[test]
fn bracket_layout_line_feed_right_after_bracket() {
    assert_eq!(parse_bracket("[ts INFO]\nrest"), parts(("ts", "INFO", "rest")));
}

#[test]
fn plain_layout_parts() {
    assert_eq!(
        parse_plain("2026-08-23 14:32:10 LOG:  postgres startup complete"),
        parts(("2026-08-23 14:32:10", "LOG", "postgres startup complete"))
    );
    assert_eq!(
        parse_plain("2026-08-23T14:32:10.201Z WARNING something"),
        parts(("2026-08-23T14:32:10.201Z", "WARNING", "something"))
    );
    assert_eq!(
        parse_plain("2026-08-23T14:32:10+05:30 FATAL: x"),
        parts(("2026-08-23T14:32:10+05:30", "FATAL", "x"))
    );
    assert_eq!(
        parse_plain("2026-08-23T14:32:10-0700 DEBUG"),
        parts(("2026-08-23T14:32:10-0700", "DEBUG", ""))
    );
}

#[test]
fn plain_layout_needs_a_whole_level_word() {
    assert_eq!(parse_plain("2026-08-23 14:32:10 INFOX msg"), None);
    assert_eq!(parse_plain("2026-08-23 14:32:10 WARNINGS msg"), None);
    assert_eq!(parse_plain("2026-08-23 14:32:10 WARN_x msg"), None);
    assert_eq!(
        parse_plain("2026-08-23 14:32:10 WARN-x msg"),
        parts(("2026-08-23 14:32:10", "WARN", "-x msg"))
    );
    assert_eq!(parse_plain("2026-08-23 14:32:10 INFOé msg"), None);
}

#[test]
fn plain_layout_rejections() {
    assert_eq!(parse_plain("2026-08-23 14:32 INFO m"), None);
    assert_eq!(parse_plain("2026-08-23 14:32:10. INFO m"), None);
    assert_eq!(parse_plain("2026-08-23 14:32:10+5 INFO m"), None);
    assert_eq!(parse_plain("2026-08-23 14:32:10INFO m"), None);
    assert_eq!(parse_plain("2026-08-23 14:32:10 NOTICE m"), None);
    assert_eq!(parse_plain("2026-08-23 14:32:10 INFO a\nb"), None);
}

#[test]
fn plain_layout_digits_are_any_decimal_digits() {
    assert_eq!(
        parse_plain("٢٠٢٦-08-23 14:32:10 INFO hi"),
        parts(("٢٠٢٦-08-23 14:32:10", "INFO", "hi"))
    );
}

#[test]
fn unicode_white_space_separates_the_bracketed_header() {
    assert_eq!(
        parse_bracket("[2026-08-23T14:32:10Z\u{3000}INFO x]\u{a0}message"),
        parts(("2026-08-23T14:32:10Z", "INFO", "message"))
    );
}

#[test]
fn superscript_digits_are_not_decimal_digits() {
    assert_eq!(parse_plain("²⁰²⁶-08-23 14:32:10 INFO hi"), None);
}
