use logview::merge::merge_sorted;
use logview::parse::{parse_line, LogLine, Timestamp};

#[test]
fn reorders_by_timestamp_across_sources() {
    let a = parse_line(
        "app-a.log",
        0,
        "[2026-08-23T14:32:12Z INFO x] second in wall-clock time",
    );
    let b = parse_line(
        "app-b.log",
        1,
        "[2026-08-23T14:32:10Z INFO x] first in wall-clock time",
    );
    let merged = merge_sorted(vec![a.clone(), b.clone()]);
    assert_eq!(merged[0].message, "first in wall-clock time");
    assert_eq!(merged[1].message, "second in wall-clock time");
}

#[test]
fn lines_without_timestamps_keep_arrival_order() {
    let a = parse_line("app.log", 0, "line one, no structure");
    let b = parse_line("app.log", 1, "line two, no structure");
    let c = parse_line("app.log", 2, "line three, no structure");
    // Fed in out of seq order on purpose.
    let merged = merge_sorted(vec![c.clone(), a.clone(), b.clone()]);
    assert_eq!(
        merged.iter().map(|l| l.seq).collect::<Vec<_>>(),
        vec![0, 1, 2]
    );
}

#[test]
fn mixed_timestamped_and_untimestamped_lines_dont_panic_or_scramble_ties() {
    let a = parse_line("app.log", 0, "[2026-08-23T14:32:10Z INFO x] timestamped");
    let b = parse_line("app.log", 1, "no timestamp at all");
    let merged = merge_sorted(vec![b.clone(), a.clone()]);
    assert_eq!(merged.len(), 2);
}

fn line(seq: u64, ts: Option<(i64, u32)>) -> LogLine {
    LogLine {
        source: "s".to_string(),
        raw: format!("r{seq}"),
        seq,
        timestamp: ts.map(|(secs, nanos)| Timestamp { secs, nanos }),
        level: None,
        message: format!("m{seq}"),
    }
}

#[test]
fn equal_timestamps_go_by_arrival_then_nanoseconds_count() {
    let merged = merge_sorted(vec![
        line(5, Some((10, 0))),
        line(2, Some((10, 0))),
        line(1, Some((10, 7))),
        line(9, Some((9, 999))),
    ]);
    assert_eq!(merged.iter().map(|l| l.seq).collect::<Vec<_>>(), vec![9, 2, 5, 1]);
}

#[test]
fn merge_keeps_every_line_and_an_empty_input_stays_empty() {
    assert!(merge_sorted(Vec::new()).is_empty());
    let input = vec![line(3, None), line(1, Some((5, 0))), line(2, None)];
    let merged = merge_sorted(input.clone());
    assert_eq!(merged.len(), 3);
    for l in &input {
        assert!(merged.contains(l));
    }
    for w in merged.windows(2) {
        let later_goes_first = match (w[1].timestamp, w[0].timestamp) {
            (Some(x), Some(y)) => (x.secs, x.nanos, w[1].seq) < (y.secs, y.nanos, w[0].seq),
            _ => w[1].seq < w[0].seq,
        };
        assert!(!later_goes_first);
    }
}

#[test]
fn identical_lines_keep_their_input_order() {
    let mut a = line(4, None);
    a.message = "first".to_string();
    let mut b = line(4, None);
    b.message = "second".to_string();
    let merged = merge_sorted(vec![a, b]);
    assert_eq!(merged[0].message, "first");
    assert_eq!(merged[1].message, "second");
}

#[test]
fn unstamped_lines_keep_arrival_order_among_stamped_ones() {
    let merged = merge_sorted(vec![
        line(5, None),
        line(6, Some((100, 0))),
        line(1, Some((200, 0))),
        line(3, None),
    ]);
    assert_eq!(merged.iter().map(|l| l.seq).collect::<Vec<_>>(), vec![3, 5, 6, 1]);
}

#[test]
fn stamped_lines_sort_by_time_across_an_unstamped_one() {
    let a = parse_line("x", 1, "[2026-08-23T14:32:12Z INFO x] late");
    let b = parse_line("x", 2, "no timestamp");
    let c = parse_line("x", 3, "[2026-08-23T14:32:10Z INFO x] early");
    let merged = merge_sorted(vec![a, b, c]);
    let messages: Vec<&str> = merged.iter().map(|l| l.message.as_str()).collect();
    assert_eq!(messages, vec!["no timestamp", "early", "late"]);
}

#[test]
fn merged_stream_orders_each_kind_throughout() {
    let input = vec![
        line(9, Some((50, 0))),
        line(2, None),
        line(7, Some((10, 0))),
        line(1, None),
        line(4, Some((30, 0))),
        line(8, None),
    ];
    let merged = merge_sorted(input);
    for i in 0..merged.len() {
        for j in i + 1..merged.len() {
            match (merged[i].timestamp, merged[j].timestamp) {
                (Some(x), Some(y)) => assert!((x.secs, x.nanos, merged[i].seq) <= (y.secs, y.nanos, merged[j].seq)),
                (None, None) => assert!(merged[i].seq <= merged[j].seq),
                _ => {}
            }
        }
    }
}
