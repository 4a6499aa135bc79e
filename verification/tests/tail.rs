use logview::tail::{seed_start, trim_end_carriage_returns, LineAssembler};

#[test]
fn feed_returns_complete_lines_and_holds_partial_ones() {
    let mut a = LineAssembler::new();
    let lines = a.feed(b"first line\nsecond line\nno newline yet");
    assert_eq!(lines, vec!["first line", "second line"]);
    let lines = a.feed(" — completed\n".as_bytes());
    assert_eq!(lines, vec!["no newline yet — completed"]);
}

#[test]
fn feed_with_nothing_new_returns_empty() {
    let mut a = LineAssembler::new();
    assert_eq!(a.feed(b"one line\n"), vec!["one line"]);
    assert_eq!(a.feed(b""), Vec::<String>::new());
}

#[test]
fn feed_handles_crlf_line_endings() {
    let mut a = LineAssembler::new();
    assert_eq!(a.feed(b"windows style\r\nanother\r\n"), vec!["windows style", "another"]);
}

#[test]
fn feed_keeps_empty_lines_and_strips_every_trailing_cr() {
    let mut a = LineAssembler::new();
    assert_eq!(a.feed(b"\n\nx\r\r\n\ry\n"), vec!["", "", "x", "\ry"]);
}

#[test]
fn feed_replaces_invalid_utf8() {
    let mut a = LineAssembler::new();
    assert_eq!(a.feed(b"a\xffb\n"), vec!["a\u{fffd}b"]);
}

#[test]
fn feed_across_a_multibyte_character_split() {
    let bytes = "é\n".as_bytes();
    let mut a = LineAssembler::new();
    assert!(a.feed(&bytes[..1]).is_empty());
    assert_eq!(a.feed(&bytes[1..]), vec!["é"]);
}

#[test]
fn chunking_does_not_change_the_lines() {
    let text = b"alpha\nbeta\r\ngam";
    let mut whole = LineAssembler::new();
    let all = whole.feed(text);
    let mut parts = LineAssembler::new();
    let mut got = Vec::new();
    for chunk in text.chunks(3) {
        got.extend(parts.feed(chunk));
    }
    assert_eq!(got, all);
    assert_eq!(whole.feed(b"ma\n"), vec!["gamma"]);
    assert_eq!(parts.feed(b"ma\n"), vec!["gamma"]);
}

#[test]
fn seed_start_reads_at_most_the_cap() {
    assert_eq!(seed_start(1000, 200), 799);
    assert_eq!(seed_start(100, 200), 0);
    assert_eq!(seed_start(200, 200), 0);
    assert_eq!(seed_start(201, 200), 0);
    assert_eq!(seed_start(202, 200), 1);
}

#[test]
fn trim_removes_only_trailing_carriage_returns() {
    assert_eq!(trim_end_carriage_returns("a\r\rb\r\r"), "a\r\rb");
    assert_eq!(trim_end_carriage_returns("\r"), "");
}

#[test]
fn lines_joined_with_line_feeds_give_back_the_text_read() {
    let text = "früh\nmittag — noon\n\nabend\nunfinished";
    let mut a = LineAssembler::new();
    let mut lines = Vec::new();
    for chunk in text.as_bytes().chunks(4) {
        lines.extend(a.feed(chunk));
    }
    let mut joined = String::new();
    for l in &lines {
        joined.push_str(l);
        joined.push('\n');
    }
    assert_eq!(joined, "früh\nmittag — noon\n\nabend\n");
    assert!(lines.iter().all(|l| !l.contains('\n')));
}

fn seed(contents: &[u8], cap: u64) -> Vec<String> {
    let start = seed_start(contents.len() as u64, cap);
    let mut a = if start > 0 { LineAssembler::after_seek() } else { LineAssembler::new() };
    a.feed(&contents[start as usize..])
}

#[test]
fn seed_from_near_end_bounds_the_initial_read() {
    let mut contents = String::new();
    for i in 0..1000 {
        contents.push_str(&format!("line {i}\n"));
    }
    let lines = seed(contents.as_bytes(), 200);
    assert!(lines.len() < 1000);
    assert!(!lines.is_empty());
    assert_eq!(lines.last().unwrap(), "line 999");
    assert!(lines.iter().all(|l| l.starts_with("line ")));
}

#[test]
fn seeding_keeps_a_line_that_starts_the_window_and_drops_a_cut_one() {
    // "ab\ncd\n": a window of the last three bytes starts exactly at "cd".
    assert_eq!(seed(b"ab\ncd\n", 3), vec!["cd"]);
    // The last four bytes, "\ncd\n", start with the end of the cut line "ab".
    assert_eq!(seed(b"ab\ncd\n", 4), vec!["cd"]);
    // A window of the last two bytes cuts "cd": nothing complete is left.
    assert_eq!(seed(b"ab\ncd\n", 2), Vec::<String>::new());
    // The whole file fits: every line comes back.
    assert_eq!(seed(b"ab\ncd\n", 10), vec!["ab", "cd"]);
}

#[test]
fn a_cut_first_line_is_passed_over_across_chunks() {
    let mut a = LineAssembler::after_seek();
    assert!(a.feed(b"tail of a").is_empty());
    assert!(a.feed(b" long line").is_empty());
    assert_eq!(a.feed(b"\nnext\nla"), vec!["next"]);
    assert_eq!(a.feed(b"st\n"), vec!["last"]);
}
