use logview::app::{App, Key};

#[test]
fn ring_buffer_drops_oldest_once_full() {
    let mut app = App::new(3);
    for i in 0..5 {
        app.push_raw_line("a", &format!("line {i}"));
    }
    assert_eq!(app.lines.len(), 3);
    assert_eq!(app.lines.front().unwrap().message, "line 2");
    assert_eq!(app.lines.back().unwrap().message, "line 4");
}

#[test]
fn scroll_up_clamps_to_available_filtered_lines() {
    let mut app = App::new(10);
    app.push_raw_line("a", "one");
    app.push_raw_line("a", "two");
    for _ in 0..10 {
        app.scroll_up_one();
    }
    assert_eq!(app.scroll_up, 1, "only 2 lines exist, max scroll is 1");
}

#[test]
fn jump_to_bottom_resumes_following() {
    let mut app = App::new(10);
    app.push_raw_line("a", "one");
    app.push_raw_line("a", "two");
    app.scroll_up_one();
    assert!(!app.is_following());
    app.jump_to_bottom();
    assert!(app.is_following());
}

#[test]
fn filter_hides_non_matching_lines() {
    let mut app = App::new(10);
    app.push_raw_line("a", "everything is fine");
    app.push_raw_line("a", "disk is full");
    app.filter_pattern = "full".to_string();
    app.confirm_filter();
    let filtered = app.filtered();
    assert_eq!(filtered.len(), 1);
    assert_eq!(filtered[0].message, "disk is full");
}

#[test]
fn canceling_filter_edit_keeps_previous_filter_applied() {
    let mut app = App::new(10);
    app.push_raw_line("a", "keep me");
    app.push_raw_line("a", "drop me");
    app.filter_pattern = "keep".to_string();
    app.confirm_filter();

    app.start_editing_filter();
    app.apply_filter_input('x');
    app.apply_filter_input('x');
    app.cancel_filter_edit();

    assert_eq!(
        app.filtered().len(),
        1,
        "the 'keep' filter must still be applied, not 'keepxx'"
    );
}

#[test]
fn new_app_is_empty_and_following() {
    let app = App::new(5);
    assert_eq!(app.lines.len(), 0);
    assert_eq!(app.max_lines, 5);
    assert_eq!(app.seq_counter, 0);
    assert!(app.filter_pattern.is_empty());
    assert!(app.level_floor.is_none());
    assert!(app.is_following());
    assert!(!app.editing_filter);
    assert!(!app.should_quit);
}

#[test]
fn zero_capacity_keeps_nothing() {
    let mut app = App::new(0);
    app.push_raw_line("a", "first");
    app.push_raw_line("a", "second");
    assert_eq!(app.lines.len(), 0);
    assert_eq!(app.seq_counter, 2);
}

#[test]
fn push_numbers_lines_in_arrival_order() {
    let mut app = App::new(10);
    app.push_raw_line("src", "a");
    app.push_raw_line("src", "b");
    assert_eq!(app.seq_counter, 2);
    assert_eq!(app.lines[0].seq, 0);
    assert_eq!(app.lines[1].seq, 1);
    assert_eq!(app.lines[1].source, "src");
    assert_eq!(app.lines[1].raw, "b");
}

#[test]
fn scroll_down_stops_at_bottom_and_top_jumps_to_oldest() {
    let mut app = App::new(10);
    for i in 0..4 {
        app.push_raw_line("a", &format!("l{i}"));
    }
    app.jump_to_top();
    assert_eq!(app.scroll_up, 3);
    app.scroll_down_one();
    assert_eq!(app.scroll_up, 2);
    app.jump_to_bottom();
    app.scroll_down_one();
    assert_eq!(app.scroll_up, 0);
}

#[test]
fn jump_to_top_on_empty_buffer_stays_at_bottom() {
    let mut app = App::new(10);
    app.jump_to_top();
    assert_eq!(app.scroll_up, 0);
    app.scroll_up_one();
    assert_eq!(app.scroll_up, 0);
}

#[test]
fn level_floor_restricts_filtered_lines() {
    let mut app = App::new(10);
    app.push_raw_line("a", "[2026-08-23T14:32:10Z INFO x] info");
    app.push_raw_line("a", "[2026-08-23T14:32:10Z ERROR x] error");
    app.push_raw_line("a", "free text");
    app.set_level_floor(Some("WARN"));
    let shown: Vec<String> = app.filtered().iter().map(|l| l.message.clone()).collect();
    assert_eq!(shown, vec!["error".to_string(), "free text".to_string()]);
    app.set_level_floor(None);
    assert_eq!(app.filtered().len(), 3);
}

#[test]
fn backspace_undoes_typing() {
    let mut app = App::new(10);
    app.start_editing_filter();
    app.apply_filter_input('a');
    app.apply_filter_input('b');
    app.backspace_filter_input();
    assert_eq!(app.filter_pattern, "a");
    app.backspace_filter_input();
    app.backspace_filter_input();
    assert_eq!(app.filter_pattern, "");
}

#[test]
fn keys_while_editing_build_and_apply_the_filter() {
    let mut app = App::new(10);
    app.push_raw_line("a", "keep me");
    app.push_raw_line("a", "drop me");
    app.handle_key(Key::Char('/'));
    assert!(app.editing_filter);
    for c in "keepq".chars() {
        app.handle_key(Key::Char(c));
    }
    app.handle_key(Key::Backspace);
    app.handle_key(Key::Up);
    assert_eq!(app.scroll_up, 0);
    assert_eq!(app.filter_pattern, "keep");
    assert_eq!(app.filtered().len(), 2);
    app.handle_key(Key::Enter);
    assert!(!app.editing_filter);
    assert_eq!(app.filtered().len(), 1);
    assert!(!app.should_quit);
}

#[test]
fn escape_leaves_editing_without_applying() {
    let mut app = App::new(10);
    app.push_raw_line("a", "keep me");
    app.push_raw_line("a", "drop me");
    app.handle_key(Key::Char('/'));
    app.handle_key(Key::Char('k'));
    app.handle_key(Key::Esc);
    assert!(!app.editing_filter);
    assert_eq!(app.filtered().len(), 2);
}

#[test]
fn keys_outside_editing_scroll_set_floor_and_quit() {
    let mut app = App::new(10);
    for i in 0..3 {
        app.push_raw_line("a", &format!("l{i}"));
    }
    app.handle_key(Key::Char('k'));
    app.handle_key(Key::Up);
    app.handle_key(Key::Up);
    assert_eq!(app.scroll_up, 2);
    app.handle_key(Key::Char('j'));
    assert_eq!(app.scroll_up, 1);
    app.handle_key(Key::Char('G'));
    assert_eq!(app.scroll_up, 0);
    app.handle_key(Key::Home);
    assert_eq!(app.scroll_up, 2);
    app.handle_key(Key::End);
    assert_eq!(app.scroll_up, 0);
    app.handle_key(Key::Char('g'));
    assert_eq!(app.scroll_up, 2);
    app.handle_key(Key::Down);
    assert_eq!(app.scroll_up, 1);
    app.handle_key(Key::Char('w'));
    assert_eq!(app.level_floor, Some("WARN"));
    app.handle_key(Key::Char('e'));
    assert_eq!(app.level_floor, Some("ERROR"));
    app.handle_key(Key::Char('a'));
    assert_eq!(app.level_floor, None);
    app.handle_key(Key::Other);
    app.handle_key(Key::Char('x'));
    assert!(!app.should_quit);
    app.handle_key(Key::Char('q'));
    assert!(app.should_quit);
}

#[test]
fn lines_from_several_files_are_shown_in_time_order() {
    let mut app = App::new(10);
    app.push_raw_line("b.log", "[2026-08-23T14:32:12Z INFO x] later");
    app.push_raw_line("a.log", "[2026-08-23T14:32:10Z INFO x] earlier");
    app.push_raw_line("b.log", "[2026-08-23T14:32:11Z INFO x] middle");
    let shown: Vec<String> = app.filtered().iter().map(|l| l.message.clone()).collect();
    assert_eq!(shown, vec!["earlier", "middle", "later"]);
}

#[test]
fn timestamped_lines_never_pass_a_line_without_one() {
    let mut app = App::new(10);
    app.push_raw_line("a.log", "no timestamp");
    app.push_raw_line("b.log", "[2026-08-23T14:32:10Z INFO x] stamped");
    let shown: Vec<String> = app.filtered().iter().map(|l| l.message.clone()).collect();
    assert_eq!(shown, vec!["no timestamp", "stamped"]);

    let mut app = App::new(10);
    app.push_raw_line("b.log", "[2026-08-23T14:32:12Z INFO x] later");
    app.push_raw_line("a.log", "[2026-08-23T14:32:10Z INFO x] earlier");
    app.push_raw_line("a.log", "no timestamp");
    app.push_raw_line("b.log", "[2026-08-23T14:32:11Z INFO x] middle");
    let shown: Vec<String> = app.filtered().iter().map(|l| l.message.clone()).collect();
    assert_eq!(shown, vec!["earlier", "later", "no timestamp", "middle"]);
}

#[test]
fn a_full_buffer_drops_the_line_that_arrived_first() {
    let mut app = App::new(2);
    app.push_raw_line("b.log", "[2026-08-23T14:32:12Z INFO x] later");
    app.push_raw_line("a.log", "[2026-08-23T14:32:10Z INFO x] earlier");
    assert_eq!(app.lines[0].message, "earlier");
    app.push_raw_line("a.log", "third");
    let kept: Vec<String> = app.lines.iter().map(|l| l.message.clone()).collect();
    assert_eq!(kept, vec!["earlier", "third"]);
}

#[test]
fn escape_puts_back_the_applied_filter_text() {
    let mut app = App::new(10);
    app.push_raw_line("a", "keep me");
    app.push_raw_line("a", "drop me");
    app.handle_key(Key::Char('/'));
    for c in "keep".chars() {
        app.handle_key(Key::Char(c));
    }
    app.handle_key(Key::Enter);
    app.handle_key(Key::Char('/'));
    app.handle_key(Key::Char('x'));
    app.handle_key(Key::Char('x'));
    assert_eq!(app.filter_pattern, "keepxx");
    app.handle_key(Key::Esc);
    assert_eq!(app.filter_pattern, "keep");
    assert_eq!(app.applied_pattern, "keep");
    assert_eq!(app.filtered().len(), 1);
    assert!(logview::ui::status_line(&app).starts_with("filter:keep | "));
}
