use logview::parse::{
    json_fields, normalize_level, parse_line, parse_timestamp, JsonMember, Timestamp,
};

#[test]
fn parses_env_logger_bracket_format() {
    let line = parse_line(
        "app.log",
        0,
        "[2026-08-23T14:32:10Z INFO  actix_server::builder] starting service",
    );
    assert_eq!(line.level.as_deref(), Some("INFO"));
    assert_eq!(line.message, "starting service");
    assert!(line.timestamp.is_some());
}

#[test]
fn parses_json_lines_with_common_field_names() {
    let line = parse_line(
        "app.log",
        0,
        r#"{"timestamp":"2026-08-23T14:32:10Z","level":"error","msg":"boom"}"#,
    );
    assert_eq!(line.level.as_deref(), Some("ERROR"));
    assert_eq!(line.message, "boom");
    assert!(line.timestamp.is_some());
}

#[test]
fn json_takes_priority_over_plain_text_regexes() {
    // This line would also loosely match plain_re if JSON parsing were
    // skipped, so this pins the intended precedence.
    let line = parse_line(
        "app.log",
        0,
        r#"{"level":"warn","message":"disk almost full"}"#,
    );
    assert_eq!(line.level.as_deref(), Some("WARN"));
    assert_eq!(line.message, "disk almost full");
}

#[test]
fn unparseable_line_is_kept_verbatim_as_message() {
    let line = parse_line("app.log", 0, "just some free-text output, no structure");
    assert_eq!(line.level, None);
    assert_eq!(line.timestamp, None);
    assert_eq!(line.message, "just some free-text output, no structure");
}

#[test]
fn warning_and_log_levels_normalize() {
    let l1 = parse_line("a", 0, "[2026-08-23T14:32:10Z WARN  x] msg");
    assert_eq!(l1.level.as_deref(), Some("WARN"));
    let l2 = parse_line(
        "a",
        0,
        "2026-08-23 14:32:10 LOG:  postgres startup complete",
    );
    assert_eq!(l2.level.as_deref(), Some("INFO"));
}

#[test]
fn parse_keeps_source_seq_and_raw() {
    let line = parse_line("src.log", 42, "[x INFO m] hello");
    assert_eq!(line.source, "src.log");
    assert_eq!(line.seq, 42);
    assert_eq!(line.raw, "[x INFO m] hello");
    assert_eq!(line.message, "hello");
    assert_eq!(line.timestamp, None);
}

#[test]
fn rfc3339_timestamps_are_read_exactly() {
    assert_eq!(
        parse_timestamp("2026-08-23T14:32:10Z"),
        Some(Timestamp { secs: 1787495530, nanos: 0 })
    );
    assert_eq!(
        parse_timestamp("2026-08-23T14:32:10.5+02:00"),
        Some(Timestamp { secs: 1787488330, nanos: 500_000_000 })
    );
}

#[test]
fn naive_timestamps_are_read_as_utc() {
    assert_eq!(
        parse_timestamp("2026-08-23 14:32:10"),
        Some(Timestamp { secs: 1787495530, nanos: 0 })
    );
    assert_eq!(
        parse_timestamp("2026-08-23T14:32:10.25"),
        Some(Timestamp { secs: 1787495530, nanos: 250_000_000 })
    );
    assert_eq!(parse_timestamp("yesterday"), None);
    assert_eq!(parse_timestamp(""), None);
}

#[test]
fn bracket_and_plain_timestamps_reach_the_line() {
    let b = parse_line("a", 0, "[2026-08-23T14:32:10Z INFO x] m");
    assert_eq!(b.timestamp, Some(Timestamp { secs: 1787495530, nanos: 0 }));
    let p = parse_line("a", 0, "2026-08-23 14:32:10 ERROR disk");
    assert_eq!(p.timestamp, Some(Timestamp { secs: 1787495530, nanos: 0 }));
    assert_eq!(p.level.as_deref(), Some("ERROR"));
    assert_eq!(p.message, "disk");
}

#[test]
fn normalize_level_upper_cases_and_folds_aliases() {
    assert_eq!(normalize_level("warning"), "WARN");
    assert_eq!(normalize_level("Log"), "INFO");
    assert_eq!(normalize_level("debug"), "DEBUG");
    assert_eq!(normalize_level("notice"), "NOTICE");
    assert_eq!(normalize_level("ärger"), "äRGER");
}

fn member(key: &str, text: Option<&str>) -> JsonMember {
    JsonMember { key: key.to_string(), text: text.map(|t| t.to_string()) }
}

#[test]
fn json_fields_pick_the_first_string_member_of_each_list() {
    let members = vec![
        member("time", Some("2026-08-23T14:32:10Z")),
        member("timestamp", None),
        member("lvl", Some("warning")),
        member("severity", Some("error")),
        member("msg", Some("hello")),
    ];
    let (ts, level, message) = json_fields(&members, "RAW");
    assert_eq!(ts, Some(Timestamp { secs: 1787495530, nanos: 0 }));
    assert_eq!(level.as_deref(), Some("WARN"));
    assert_eq!(message, "hello");
}

#[test]
fn json_fields_without_message_use_the_whole_line() {
    let members = vec![member("message", None), member("other", Some("x"))];
    let (ts, level, message) = json_fields(&members, "RAW");
    assert_eq!(ts, None);
    assert_eq!(level, None);
    assert_eq!(message, "RAW");
}

#[test]
fn json_that_is_not_an_object_is_parsed_as_text() {
    let line = parse_line("a", 0, "[1, 2, 3]");
    assert_eq!(line.level, None);
    assert_eq!(line.message, "[1, 2, 3]");
    let line = parse_line("a", 0, r#"{"level": 3, "severity": "fatal", "ts": "bad"}"#);
    assert_eq!(line.level.as_deref(), Some("FATAL"));
    assert_eq!(line.timestamp, None);
    assert_eq!(line.message, r#"{"level": 3, "severity": "fatal", "ts": "bad"}"#);
}

#[test]
fn bare_dates_are_read_as_midnight_utc() {
    assert_eq!(
        parse_timestamp("2026-08-23"),
        Some(Timestamp { secs: 1787443200, nanos: 0 })
    );
    assert_eq!(parse_timestamp("2026-13-01"), None);
}
