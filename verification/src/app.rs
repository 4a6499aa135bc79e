//! The viewer's state: a bounded buffer of parsed lines, the text filter
//! being edited and the one applied, the level floor and the scroll
//! position, and how each key changes them.

use std::collections::VecDeque;

use vstd::prelude::*;

use crate::filter::{filter_accepts, filter_for, opt_str, passes_floor, passes_level_floor, Filter};
use crate::merge::{
    class_ordered, lemma_line_before_asymmetric, lemma_not_before_transitive, line_before, precedes,
    same_class,
};
use crate::parse::{parse_line, parsed_line, LogLine, Timestamp};
use crate::text::{pop_char, push_char};

verus! {

pub struct App {
    pub lines: VecDeque<LogLine>,
    pub max_lines: usize,
    pub seq_counter: u64,
    /// The filter text as typed; while editing, what has been typed so far.
    pub filter_pattern: String,
    /// The text of the filter in effect, restored when an edit is cancelled.
    pub applied_pattern: String,
    pub filter: Filter,
    pub level_floor: Option<&'static str>,
    /// Lines scrolled up from the bottom. 0 means "following" (new lines
    /// keep the view pinned to the bottom, tail -f style).
    pub scroll_up: usize,
    pub editing_filter: bool,
    pub should_quit: bool,
}

/// A key press, as far as the viewer tells keys apart.
#[derive(Clone, Copy, Debug, PartialEq, Eq)]
pub enum Key {
    Char(char),
    Backspace,
    Enter,
    Esc,
    Up,
    Down,
    Home,
    End,
    Other,
}

/// Whether `app` shows `line`: the applied filter lets it through and it
/// passes the level floor.
pub open spec fn shows(app: App, line: LogLine) -> bool {
    filter_accepts(app.filter@, line@.raw) && passes_floor(line@.level, opt_str(app.level_floor))
}

/// `shows` as a predicate on lines.
pub open spec fn shows_pred(app: App) -> spec_fn(LogLine) -> bool {
    |l: LogLine| shows(app, l)
}

/// The lines `app` shows, oldest first.
pub open spec fn shown_lines(app: App) -> Seq<LogLine> {
    app.lines@.filter(shows_pred(app))
}

/// `n - 1`, or 0 when `n` is 0.
pub open spec fn minus_one(n: int) -> int {
    if n > 0 {
        n - 1
    } else {
        0
    }
}

/// The largest scroll position: one line less than the shown lines.
pub open spec fn max_scroll(app: App) -> int {
    minus_one(shown_lines(app).len() as int)
}

/// At most `max_lines` lines are kept.
pub open spec fn within_capacity(app: App) -> bool {
    app.lines@.len() <= app.max_lines
}

/// The position of the line that arrived first among the first `n` lines
/// of `t` (the first such position should two share an arrival number).
pub open spec fn oldest_index(t: Seq<LogLine>, n: int) -> int
    decreases n,
{
    if n <= 1 {
        0
    } else {
        let k = oldest_index(t, n - 1);
        if t[n - 1].seq < t[k].seq {
            n - 1
        } else {
            k
        }
    }
}

proof fn lemma_oldest_index(t: Seq<LogLine>, n: int)
    requires
        1 <= n <= t.len(),
    ensures
        0 <= oldest_index(t, n) < n,
        forall|k: int| 0 <= k < n ==> t[oldest_index(t, n)].seq <= (#[trigger] t[k]).seq,
    decreases n,
{
    if n > 1 {
        lemma_oldest_index(t, n - 1);
    }
}

/// The lines kept before a new one is added: when the buffer is full, the
/// line that arrived first is dropped.
pub open spec fn kept_before_push(app: App) -> Seq<LogLine> {
    if app.lines@.len() >= app.max_lines && app.lines@.len() > 0 {
        app.lines@.remove(oldest_index(app.lines@, app.lines@.len() as int))
    } else {
        app.lines@
    }
}

/// `b` is `a` after typing `c` into the filter being edited.
pub open spec fn typed(a: App, b: App, c: char) -> bool {
    b.filter_pattern@ == a.filter_pattern@.push(c) && b == App { filter_pattern: b.filter_pattern, ..a }
}

/// `b` is `a` after removing the last character of the filter being edited.
pub open spec fn erased(a: App, b: App) -> bool {
    &&& a.filter_pattern@.len() > 0 ==> b.filter_pattern@ == a.filter_pattern@.drop_last()
    &&& a.filter_pattern@.len() == 0 ==> b.filter_pattern@ == a.filter_pattern@
    &&& b == App { filter_pattern: b.filter_pattern, ..a }
}

/// `b` is `a` after applying the filter being edited and leaving editing.
pub open spec fn confirmed(a: App, b: App) -> bool {
    &&& b.filter@ == filter_for(a.filter_pattern@)
    &&& b.applied_pattern@ == a.filter_pattern@
    &&& b == App { filter: b.filter, applied_pattern: b.applied_pattern, editing_filter: false, ..a }
}

/// `b` is `a` after cancelling the edit: the text of the filter in effect
/// is back, and editing stops.
pub open spec fn cancelled(a: App, b: App) -> bool {
    &&& b.filter_pattern@ == a.applied_pattern@
    &&& b == App { filter_pattern: b.filter_pattern, editing_filter: false, ..a }
}

/// `b` is `a` with the scroll position `s`.
pub open spec fn scrolled_to(a: App, b: App, s: int) -> bool {
    b.scroll_up == s && b == App { scroll_up: b.scroll_up, ..a }
}

/// The scroll position one line further up, never past the oldest shown
/// line.
pub open spec fn one_up(a: App) -> int {
    if a.scroll_up + 1 <= max_scroll(a) {
        a.scroll_up + 1
    } else {
        max_scroll(a)
    }
}

/// The scroll position one line further down, never below the bottom.
pub open spec fn one_down(a: App) -> int {
    minus_one(a.scroll_up as int)
}

/// What a key does to the state `a`, leading to `b`. While a filter is
/// being edited: characters are typed, Backspace erases, Enter applies the
/// filter, Esc leaves editing, putting back the text of the filter in
/// effect, and other keys do
/// nothing. Otherwise: `q` quits, `/` starts editing, `w`/`e`/`a` set the
/// level floor to WARN, ERROR or none, Up/`k` and Down/`j` scroll by one
/// line, `G`/End jump to the bottom and `g`/Home to the top.
pub open spec fn key_effect(a: App, b: App, key: Key) -> bool {
    if a.editing_filter {
        match key {
            Key::Char(c) => typed(a, b, c),
            Key::Backspace => erased(a, b),
            Key::Enter => confirmed(a, b),
            Key::Esc => cancelled(a, b),
            _ => b == a,
        }
    } else {
        match key {
            Key::Char('q') => b == App { should_quit: true, ..a },
            Key::Char('/') => b == App { editing_filter: true, ..a },
            Key::Char('w') => b == App { level_floor: Some("WARN"), ..a },
            Key::Char('e') => b == App { level_floor: Some("ERROR"), ..a },
            Key::Char('a') => b == App { level_floor: None, ..a },
            Key::Up | Key::Char('k') => scrolled_to(a, b, one_up(a)),
            Key::Down | Key::Char('j') => scrolled_to(a, b, one_down(a)),
            Key::Char('G') | Key::End => scrolled_to(a, b, 0),
            Key::Char('g') | Key::Home => scrolled_to(a, b, max_scroll(a)),
            _ => b == a,
        }
    }
}


/// Scrolling up never passes the oldest shown line.
pub proof fn lemma_scroll_up_stays_within_shown(a: App, b: App)
    requires
        scrolled_to(a, b, one_up(a)),
    ensures
        b.scroll_up <= max_scroll(b),
{
    assert(shows_pred(b) =~= shows_pred(a));
    assert(shown_lines(b) == shown_lines(a));
}

/// While a filter is being edited, no key but Enter changes the applied
/// filter, the level floor or the lines shown: cancelling leaves the filter
/// applied before in effect.
pub proof fn lemma_editing_keeps_applied_filter(a: App, b: App, key: Key)
    requires
        a.editing_filter,
        key != Key::Enter,
        key_effect(a, b, key),
    ensures
        b.filter == a.filter,
        b.applied_pattern == a.applied_pattern,
        b.level_floor == a.level_floor,
        shown_lines(b) == shown_lines(a),
{
    assert(shows_pred(b) =~= shows_pred(a));
    assert(shown_lines(b) == shown_lines(a));
}

/// Erasing right after typing a character restores the filter text.
pub proof fn lemma_erase_undoes_typing(a: App, b: App, c: char, d: App)
    requires
        typed(a, b, c),
        erased(b, d),
    ensures
        d.filter_pattern@ == a.filter_pattern@,
        d.lines == a.lines,
        d.filter == a.filter,
{
    assert(a.filter_pattern@.push(c).drop_last() =~= a.filter_pattern@);
}


/// Only `q`, pressed outside filter editing, makes the viewer quit.
pub proof fn lemma_only_q_quits(a: App, b: App, key: Key)
    requires
        key_effect(a, b, key),
        !a.should_quit,
        b.should_quit,
    ensures
        !a.editing_filter,
        key == Key::Char('q'),
{
}

/// Outside filter editing, every key but `q`, `/`, `w`, `e`, `a`, Up or
/// `k`, Down or `j`, `G` or End and `g` or Home (Esc, Enter and Backspace
/// among them) leaves the state as it was.
pub proof fn lemma_unbound_keys_change_nothing(a: App, b: App, key: Key)
    requires
        !a.editing_filter,
        key_effect(a, b, key),
        key != Key::Char('q'),
        key != Key::Char('/'),
        key != Key::Char('w'),
        key != Key::Char('e'),
        key != Key::Char('a'),
        key != Key::Up,
        key != Key::Char('k'),
        key != Key::Down,
        key != Key::Char('j'),
        key != Key::Char('G'),
        key != Key::End,
        key != Key::Char('g'),
        key != Key::Home,
    ensures
        b == a,
{
}

/// While a filter is being edited, keys other than characters, Backspace,
/// Enter and Esc leave the state as it was.
pub proof fn lemma_editing_ignores_other_keys(a: App, b: App, key: Key)
    requires
        a.editing_filter,
        key_effect(a, b, key),
        !(key is Char),
        key != Key::Backspace,
        key != Key::Enter,
        key != Key::Esc,
    ensures
        b == a,
{
}

/// Scrolling, counted in lines up from the newest shown line: Up moves one
/// line up but never to or past the number of shown lines, Down one line
/// down but never below the newest, Home to the oldest shown line and End
/// to the newest; the lines shown stay the same.
pub proof fn lemma_scroll_keys(a: App, b: App, key: Key)
    requires
        !a.editing_filter,
        key_effect(a, b, key),
        key == Key::Up || key == Key::Down || key == Key::Home || key == Key::End,
    ensures
        shown_lines(b) == shown_lines(a),
        key == Key::Up ==> (if a.scroll_up + 1 < shown_lines(a).len() {
            b.scroll_up == a.scroll_up + 1
        } else {
            b.scroll_up + 1 == shown_lines(a).len() || (shown_lines(a).len() == 0 && b.scroll_up
                == 0)
        }),
        key == Key::Down ==> b.scroll_up == if a.scroll_up > 0 {
            a.scroll_up - 1
        } else {
            0
        },
        key == Key::Home ==> b.scroll_up + 1 == shown_lines(a).len() || (shown_lines(a).len() == 0
            && b.scroll_up == 0),
        key == Key::End ==> b.scroll_up == 0,
        b.lines == a.lines,
        b.filter == a.filter,
        b.level_floor == a.level_floor,
{
    assert(shows_pred(b) =~= shows_pred(a));
}

/// Whether a line is shown depends on its raw text and its level only: two
/// lines that agree on both are both shown or both hidden, whatever their
/// messages, sources or timestamps.
pub proof fn lemma_shown_by_raw_text_and_level(app: App, l1: LogLine, l2: LogLine)
    requires
        l1@.raw == l2@.raw,
        l1@.level == l2@.level,
    ensures
        shows(app, l1) == shows(app, l2),
{
}

/// The lines shown are the buffered lines, in buffer order, whose raw text
/// the applied filter accepts and whose level passes the floor; every such
/// line is shown and no other.
pub proof fn lemma_shown_lines_are_accepted_lines(app: App, line: LogLine)
    ensures
        shown_lines(app).contains(line) <==> (app.lines@.contains(line) && filter_accepts(
            app.filter@,
            line@.raw,
        ) && passes_floor(line@.level, opt_str(app.level_floor))),
{
    broadcast use vstd::seq_lib::group_filter_ensures;

    let t = app.lines@;
    if shown_lines(app).contains(line) {
        t.lemma_filter_contains_rev(shows_pred(app), line);
    }
    if t.contains(line) && shows(app, line) {
        let k = choose|k: int| 0 <= k < t.len() && t[k] == line;
        assert(shows_pred(app)(t[k]));
        t.lemma_filter_contains(shows_pred(app), k);
    }
}

/// The filter in effect is the one its text describes, and outside editing
/// the filter text is that text.
pub open spec fn filter_in_sync(app: App) -> bool {
    &&& app.filter@ == filter_for(app.applied_pattern@)
    &&& !app.editing_filter ==> app.filter_pattern@ == app.applied_pattern@
}

/// Every key keeps the filter in effect in step with its text.
pub proof fn lemma_keys_keep_filter_in_sync(a: App, b: App, key: Key)
    requires
        filter_in_sync(a),
        key_effect(a, b, key),
    ensures
        filter_in_sync(b),
{
}

/// Cancelling an edit, whatever was typed or erased since it began, gives
/// back the filter text of before and leaves the filter in effect as it
/// was: `a0` is the state when editing began, `a` the state when Esc is
/// pressed.
pub proof fn lemma_cancel_restores_filter(a0: App, a: App, b: App)
    requires
        filter_in_sync(a0),
        !a0.editing_filter,
        a.applied_pattern == a0.applied_pattern,
        a.filter == a0.filter,
        a.editing_filter,
        key_effect(a, b, Key::Esc),
    ensures
        b.filter_pattern@ == a0.filter_pattern@,
        b.filter == a0.filter,
        !b.editing_filter,
{
}

/// Whether a new line with timestamp `ts` and arrival number `seq` is put
/// in front of the buffered line `y`: only when both have a timestamp and
/// the new line goes first by time, then arrival. A new line never moves
/// past a line without a timestamp.
pub open spec fn placed_before(ts: Option<Timestamp>, seq: u64, y: LogLine) -> bool {
    ts is Some && y.timestamp is Some && precedes(ts, seq, y.timestamp, y.seq)
}

/// Where a new line goes into `t`, moving forward from position `j`.
pub open spec fn placement(t: Seq<LogLine>, ts: Option<Timestamp>, seq: u64, j: int) -> int
    decreases j,
{
    if j > 0 && placed_before(ts, seq, t[j - 1]) {
        placement(t, ts, seq, j - 1)
    } else {
        j
    }
}

/// Of two lines at least one of which has no timestamp, the one that
/// arrived first comes first.
pub open spec fn arrival_kept(s: Seq<LogLine>) -> bool {
    forall|i: int, j: int|
        0 <= i < j < s.len() && (s[i].timestamp is None || s[j].timestamp is None) ==> (
        #[trigger] s[i]).seq < (#[trigger] s[j]).seq
}

/// Every line strictly between positions `i` and `j` has a timestamp.
pub open spec fn stamped_between(s: Seq<LogLine>, i: int, j: int) -> bool {
    forall|k: int| i < k < j ==> (#[trigger] s[k]).timestamp is Some
}

/// Two timestamped lines with no line without a timestamp between them go
/// by time, then arrival.
pub open spec fn runs_sorted(s: Seq<LogLine>) -> bool {
    forall|i: int, j: int|
        0 <= i < j < s.len() && s[i].timestamp is Some && s[j].timestamp is Some && stamped_between(
            s,
            i,
            j,
        ) ==> !line_before(#[trigger] s[j], #[trigger] s[i])
}

/// The buffer's order: lines without a timestamp, and each pair of a line
/// with and one without, stay in arrival order; timestamped lines are sorted
/// by time and arrival between the lines without; every buffered line
/// arrived before the next arrival number.
pub open spec fn in_merge_order(app: App) -> bool {
    &&& arrival_kept(app.lines@)
    &&& runs_sorted(app.lines@)
    &&& forall|k: int| 0 <= k < app.lines@.len() ==> (#[trigger] app.lines@[k]).seq < app.seq_counter
}

/// Every line of `s` has a timestamp.
pub open spec fn all_stamped(s: Seq<LogLine>) -> bool {
    forall|k: int| 0 <= k < s.len() ==> (#[trigger] s[k]).timestamp is Some
}

proof fn lemma_placement_bounds(t: Seq<LogLine>, ts: Option<Timestamp>, seq: u64, j: int)
    requires
        0 <= j <= t.len(),
    ensures
        0 <= placement(t, ts, seq, j) <= j,
        forall|k: int| placement(t, ts, seq, j) <= k < j ==> placed_before(ts, seq, #[trigger] t[k]),
        placement(t, ts, seq, j) > 0 ==> !placed_before(ts, seq, t[placement(t, ts, seq, j) - 1]),
    decreases j,
{
    if j > 0 && placed_before(ts, seq, t[j - 1]) {
        lemma_placement_bounds(t, ts, seq, j - 1);
    }
}

proof fn lemma_insert_keeps_order(t: Seq<LogLine>, x: LogLine, bound: u64)
    requires
        arrival_kept(t),
        runs_sorted(t),
        forall|k: int| 0 <= k < t.len() ==> (#[trigger] t[k]).seq < bound,
        x.seq == bound,
    ensures
        arrival_kept(t.insert(placement(t, x.timestamp, x.seq, t.len() as int), x)),
        runs_sorted(t.insert(placement(t, x.timestamp, x.seq, t.len() as int), x)),
{
    let n = t.len() as int;
    let p = placement(t, x.timestamp, x.seq, n);
    lemma_placement_bounds(t, x.timestamp, x.seq, n);
    let r = t.insert(p, x);
    assert forall|i: int, j: int|
        0 <= i < j < r.len() && (r[i].timestamp is None || r[j].timestamp is None) implies (
        #[trigger] r[i]).seq < (#[trigger] r[j]).seq by {
        if j < p {
            assert(r[i] == t[i] && r[j] == t[j]);
        } else if i > p {
            assert(r[i] == t[i - 1] && r[j] == t[j - 1]);
        } else if i < p && j > p {
            assert(r[i] == t[i] && r[j] == t[j - 1]);
        } else if i == p {
            assert(r[j] == t[j - 1]);
            assert(placed_before(x.timestamp, x.seq, t[j - 1]));
        } else {
            assert(r[i] == t[i] && r[j] == x);
        }
    }
    assert forall|i: int, j: int|
        0 <= i < j < r.len() && r[i].timestamp is Some && r[j].timestamp is Some && stamped_between(
            r,
            i,
            j,
        ) implies !line_before(#[trigger] r[j], #[trigger] r[i]) by {
        if j < p {
            assert(r[i] == t[i] && r[j] == t[j]);
            assert forall|k: int| i < k < j implies (#[trigger] t[k]).timestamp is Some by {
                assert(r[k] == t[k]);
            }
        } else if i > p {
            assert(r[i] == t[i - 1] && r[j] == t[j - 1]);
            assert forall|k: int| i - 1 < k < j - 1 implies (#[trigger] t[k]).timestamp is Some by {
                assert(r[k + 1] == t[k]);
            }
        } else if i < p && j > p {
            assert(r[i] == t[i] && r[j] == t[j - 1]);
            assert forall|k: int| i < k < j - 1 implies (#[trigger] t[k]).timestamp is Some by {
                if k < p {
                    assert(r[k] == t[k]);
                } else {
                    assert(r[k + 1] == t[k]);
                }
            }
        } else if i == p {
            assert(r[j] == t[j - 1]);
            assert(placed_before(x.timestamp, x.seq, t[j - 1]));
            lemma_line_before_asymmetric(x, t[j - 1]);
        } else {
            // j == p: the new line comes after r[i] == t[i].
            assert(r[i] == t[i] && r[j] == x);
            assert(!placed_before(x.timestamp, x.seq, t[p - 1]));
            if i < p - 1 {
                assert(r[p - 1] == t[p - 1]);
                assert(t[p - 1].timestamp is Some);
                assert forall|k: int| i < k < p - 1 implies (#[trigger] t[k]).timestamp is Some by {
                    assert(r[k] == t[k]);
                }
                assert(!line_before(t[p - 1], t[i]));
                lemma_not_before_transitive(t[i], t[p - 1], x);
            }
        }
    }
}

proof fn lemma_remove_keeps_order(t: Seq<LogLine>, p: int)
    requires
        arrival_kept(t),
        runs_sorted(t),
        0 <= p < t.len(),
        p == 0 || t[p].timestamp is Some,
    ensures
        arrival_kept(t.remove(p)),
        runs_sorted(t.remove(p)),
{
    let r = t.remove(p);
    assert forall|i: int, j: int|
        0 <= i < j < r.len() && (r[i].timestamp is None || r[j].timestamp is None) implies (
        #[trigger] r[i]).seq < (#[trigger] r[j]).seq by {
        let ii = if i < p { i } else { i + 1 };
        let jj = if j < p { j } else { j + 1 };
        assert(r[i] == t[ii] && r[j] == t[jj]);
    }
    assert forall|i: int, j: int|
        0 <= i < j < r.len() && r[i].timestamp is Some && r[j].timestamp is Some && stamped_between(
            r,
            i,
            j,
        ) implies !line_before(#[trigger] r[j], #[trigger] r[i]) by {
        let ii = if i < p { i } else { i + 1 };
        let jj = if j < p { j } else { j + 1 };
        assert(r[i] == t[ii] && r[j] == t[jj]);
        assert forall|k: int| ii < k < jj implies (#[trigger] t[k]).timestamp is Some by {
            if k < p {
                assert(r[k] == t[k]);
            } else if k > p {
                assert(r[k - 1] == t[k]);
            }
        }
    }
}

/// The line that arrived first is either timestamped or at the front.
proof fn lemma_oldest_is_front_or_stamped(t: Seq<LogLine>)
    requires
        arrival_kept(t),
        t.len() > 0,
    ensures
        oldest_index(t, t.len() as int) == 0 || t[oldest_index(t, t.len() as int)].timestamp is Some,
{
    let n = t.len() as int;
    lemma_oldest_index(t, n);
    let p = oldest_index(t, n);
    if p > 0 && t[p].timestamp is None {
        assert(t[0].seq < t[p].seq);
    }
}

proof fn lemma_filter_keeps_arrival(s: Seq<LogLine>, f: spec_fn(LogLine) -> bool)
    requires
        arrival_kept(s),
    ensures
        arrival_kept(s.filter(f)),
    decreases s.len(),
{
    broadcast use vstd::seq_lib::group_filter_ensures;

    reveal_with_fuel(Seq::filter, 1);
    if s.len() > 0 {
        let d = s.drop_last();
        assert forall|i: int, j: int|
            0 <= i < j < d.len() && (d[i].timestamp is None || d[j].timestamp is None) implies (
            #[trigger] d[i]).seq < (#[trigger] d[j]).seq by {
            assert(d[i] == s[i] && d[j] == s[j]);
        }
        lemma_filter_keeps_arrival(d, f);
        let g = d.filter(f);
        if f(s.last()) {
            let r = g.push(s.last());
            assert forall|i: int, j: int|
                0 <= i < j < r.len() && (r[i].timestamp is None || r[j].timestamp is None) implies (
                #[trigger] r[i]).seq < (#[trigger] r[j]).seq by {
                if j < g.len() {
                    assert(r[i] == g[i] && r[j] == g[j]);
                } else {
                    assert(r[i] == g[i]);
                    assert(g.contains(g[i]));
                    d.lemma_filter_contains_rev(f, g[i]);
                    let k = choose|k: int| 0 <= k < d.len() && d[k] == g[i];
                    assert(s[k] == g[i]);
                    assert(s[s.len() - 1] == s.last());
                }
            }
        }
    }
}

proof fn lemma_filter_keeps_class_order(s: Seq<LogLine>, f: spec_fn(LogLine) -> bool)
    requires
        class_ordered(s),
    ensures
        class_ordered(s.filter(f)),
    decreases s.len(),
{
    broadcast use vstd::seq_lib::group_filter_ensures;

    reveal_with_fuel(Seq::filter, 1);
    if s.len() > 0 {
        let d = s.drop_last();
        assert forall|i: int, j: int|
            0 <= i < j < d.len() && same_class(#[trigger] d[i], #[trigger] d[j]) implies !line_before(
            d[j],
            d[i],
        ) by {
            assert(d[i] == s[i] && d[j] == s[j]);
        }
        lemma_filter_keeps_class_order(d, f);
        let g = d.filter(f);
        if f(s.last()) {
            let r = g.push(s.last());
            assert forall|i: int, j: int|
                0 <= i < j < r.len() && same_class(#[trigger] r[i], #[trigger] r[j]) implies !line_before(
                r[j],
                r[i],
            ) by {
                if j < g.len() {
                    assert(r[i] == g[i] && r[j] == g[j]);
                } else {
                    assert(r[i] == g[i]);
                    assert(g.contains(g[i]));
                    d.lemma_filter_contains_rev(f, g[i]);
                    let k = choose|k: int| 0 <= k < d.len() && d[k] == g[i];
                    assert(s[k] == g[i]);
                    assert(s[s.len() - 1] == s.last());
                }
            }
        }
    }
}

/// The lines shown keep the buffer's arrival order for every pair with a
/// line without a timestamp; when every buffered line has a timestamp, the
/// lines shown are sorted by time and arrival.
pub proof fn lemma_shown_in_merge_order(app: App)
    requires
        in_merge_order(app),
    ensures
        arrival_kept(shown_lines(app)),
        all_stamped(app.lines@) ==> class_ordered(shown_lines(app)),
{
    lemma_filter_keeps_arrival(app.lines@, shows_pred(app));
    if all_stamped(app.lines@) {
        let t = app.lines@;
        assert forall|i: int, j: int|
            0 <= i < j < t.len() && same_class(#[trigger] t[i], #[trigger] t[j]) implies !line_before(
            t[j],
            t[i],
        ) by {
            assert(t[i].timestamp is Some && t[j].timestamp is Some);
            assert forall|k: int| i < k < j implies (#[trigger] t[k]).timestamp is Some by {
                assert(t[k].timestamp is Some);
            }
        }
        lemma_filter_keeps_class_order(t, shows_pred(app));
    }
}

/// No key changes the buffered lines or the arrival counter, so every key
/// keeps the buffer in merge order.
pub proof fn lemma_keys_keep_merge_order(a: App, b: App, key: Key)
    requires
        key_effect(a, b, key),
    ensures
        b.lines == a.lines,
        b.seq_counter == a.seq_counter,
        in_merge_order(a) ==> in_merge_order(b),
{
}

fn placed_before_exec(ts: Option<Timestamp>, seq: u64, y: &LogLine) -> (res: bool)
    ensures
        res == placed_before(ts, seq, *y),
{
    match (ts, y.timestamp) {
        (Some(x), Some(t)) => x.secs < t.secs || (x.secs == t.secs && x.nanos < t.nanos) || (x.secs
            == t.secs && x.nanos == t.nanos && seq < y.seq),
        _ => false,
    }
}

/// The position of the line that arrived first.
fn oldest_position(lines: &VecDeque<LogLine>) -> (res: usize)
    requires
        lines@.len() > 0,
    ensures
        res == oldest_index(lines@, lines@.len() as int),
{
    let mut best: usize = 0;
    let mut k: usize = 1;
    while k < lines.len()
        invariant
            1 <= k <= lines@.len(),
            best < k,
            best == oldest_index(lines@, k as int),
        decreases lines@.len() - k,
    {
        if lines[k].seq < lines[best].seq {
            best = k;
        }
        k = k + 1;
    }
    best
}

impl App {
    /// An empty viewer that keeps at most `max_lines` lines.
    pub fn new(max_lines: usize) -> (res: App)
        ensures
            res.lines@.len() == 0,
            res.max_lines == max_lines,
            res.seq_counter == 0,
            res.filter_pattern@.len() == 0,
            res.applied_pattern@.len() == 0,
            res.filter@ == filter_for(Seq::empty()),
            res.level_floor is None,
            res.scroll_up == 0,
            !res.editing_filter,
            !res.should_quit,
            within_capacity(res),
            in_merge_order(res),
            filter_in_sync(res),
    {
        let cap = if max_lines < 1024 {
            max_lines
        } else {
            1024
        };
        App {
            lines: VecDeque::with_capacity(cap),
            max_lines,
            seq_counter: 0,
            filter_pattern: String::new(),
            applied_pattern: String::new(),
            filter: Filter::All,
            level_floor: None,
            scroll_up: 0,
            editing_filter: false,
            should_quit: false,
        }
    }

    /// Parses `raw` (read from `source`) as the next line. When the buffer
    /// is full, the line that arrived first is dropped; with a capacity of 0
    /// nothing is kept. The new line goes last, except that a timestamped
    /// line moves in front of the trailing timestamped lines it goes before
    /// by time (then arrival); it never moves past a line without a
    /// timestamp.
    #[verifier::spinoff_prover]
    #[verifier::rlimit(40)]
    pub fn push_raw_line(&mut self, source: &str, raw: &str)
        requires
            old(self).seq_counter < u64::MAX,
        ensures
            ({
                let kept = kept_before_push(*old(self));
                let v = parsed_line(source@, old(self).seq_counter, raw@);
                let p = placement(kept, v.timestamp, v.seq, kept.len() as int);
                &&& old(self).max_lines == 0 ==> final(self).lines@ == kept
                &&& old(self).max_lines > 0 ==> {
                    &&& 0 <= p <= kept.len()
                    &&& final(self).lines@.len() == kept.len() + 1
                    &&& final(self).lines@.remove(p) == kept
                    &&& final(self).lines@[p]@ == v
                }
            }),
            final(self).seq_counter == old(self).seq_counter + 1,
            *final(self) == (App {
                lines: final(self).lines,
                seq_counter: final(self).seq_counter,
                ..*old(self)
            }),
            within_capacity(*old(self)) ==> within_capacity(*final(self)),
            in_merge_order(*old(self)) ==> in_merge_order(*final(self)),
    {
        let seq = self.seq_counter;
        self.seq_counter = self.seq_counter + 1;
        let line = parse_line(source, seq, raw);
        let ghost before = self.lines@;
        if self.lines.len() >= self.max_lines && self.lines.len() > 0 {
            let oldest = oldest_position(&self.lines);
            proof {
                lemma_oldest_index(before, before.len() as int);
                if in_merge_order(*old(self)) {
                    lemma_oldest_is_front_or_stamped(before);
                    lemma_remove_keeps_order(before, oldest as int);
                }
            }
            self.lines.remove(oldest);
        }
        let ghost kept = self.lines@;
        assert(kept =~= kept_before_push(*old(self)));
        proof {
            if in_merge_order(*old(self)) && before.len() >= old(self).max_lines && before.len() > 0 {
                assert forall|k: int| 0 <= k < kept.len() implies (#[trigger] kept[k]).seq < seq by {
                    let o = oldest_index(before, before.len() as int);
                    if k < o {
                        assert(kept[k] == before[k]);
                    } else {
                        assert(kept[k] == before[k + 1]);
                    }
                }
            }
        }
        if self.max_lines == 0 {
            return;
        }
        let mut j = self.lines.len();
        while j > 0 && placed_before_exec(line.timestamp, seq, &self.lines[j - 1])
            invariant
                self.lines@ == kept,
                j <= kept.len(),
                placement(kept, line.timestamp, seq, kept.len() as int) == placement(
                    kept,
                    line.timestamp,
                    seq,
                    j as int,
                ),
            decreases j,
        {
            j = j - 1;
        }
        proof {
            lemma_placement_bounds(kept, line.timestamp, seq, kept.len() as int);
            if in_merge_order(*old(self)) {
                lemma_insert_keeps_order(kept, line, seq);
            }
        }
        self.lines.insert(j, line);
        proof {
            assert(self.lines@.remove(j as int) =~= kept);
            if in_merge_order(*old(self)) {
                assert forall|k: int| 0 <= k < self.lines@.len() implies (
                #[trigger] self.lines@[k]).seq < self.seq_counter by {
                    if k < j {
                        assert(self.lines@[k] == kept[k]);
                    } else if k > j {
                        assert(self.lines@[k] == kept[k - 1]);
                    }
                }
            }
        }
    }

    /// The lines currently shown, in buffer (merge) order.
    pub fn filtered(&self) -> (res: Vec<&LogLine>)
        ensures
            res@.len() == shown_lines(*self).len(),
            forall|i: int| 0 <= i < res@.len() ==> *res@[i] == #[trigger] shown_lines(*self)[i],
            in_merge_order(*self) ==> arrival_kept(shown_lines(*self)),
            in_merge_order(*self) && all_stamped(self.lines@) ==> class_ordered(shown_lines(*self)),
    {
        proof {
            if in_merge_order(*self) {
                lemma_shown_in_merge_order(*self);
            }
        }
        let mut res: Vec<&LogLine> = Vec::new();
        let mut i: usize = 0;
        while i < self.lines.len()
            invariant
                i <= self.lines@.len(),
                res@.len() == self.lines@.take(i as int).filter(shows_pred(*self)).len(),
                forall|k: int|
                    0 <= k < res@.len() ==> *res@[k] == #[trigger] self.lines@.take(i as int).filter(
                        shows_pred(*self),
                    )[k],
            decreases self.lines@.len() - i,
        {
            let line = &self.lines[i];
            let ghost prefix = self.lines@.take(i as int);
            assert(self.lines@.take(i + 1).drop_last() =~= prefix);
            assert(self.lines@.take(i + 1).last() == *line);
            reveal_with_fuel(Seq::filter, 1);
            if self.filter.matches(line) && passes_level_floor(line, self.level_floor) {
                res.push(line);
            }
            i = i + 1;
        }
        assert(self.lines@.take(i as int) =~= self.lines@);
        res
    }

    fn shown_count(&self) -> (res: usize)
        ensures
            res == shown_lines(*self).len(),
    {
        self.filtered().len()
    }

    /// Whether the view follows new lines (it is scrolled to the bottom).
    pub fn is_following(&self) -> (res: bool)
        ensures
            res == (self.scroll_up == 0),
    {
        self.scroll_up == 0
    }

    /// Scrolls one line up, never past the oldest shown line.
    pub fn scroll_up_one(&mut self)
        requires
            old(self).scroll_up < usize::MAX,
        ensures
            scrolled_to(*old(self), *final(self), one_up(*old(self))),
    {
        let n = self.shown_count();
        let max = if n > 0 {
            n - 1
        } else {
            0
        };
        let next = self.scroll_up + 1;
        self.scroll_up = if next <= max {
            next
        } else {
            max
        };
    }

    /// Scrolls one line down, never below the bottom.
    pub fn scroll_down_one(&mut self)
        ensures
            scrolled_to(*old(self), *final(self), one_down(*old(self))),
    {
        self.scroll_up = self.scroll_up.saturating_sub(1);
    }

    /// Jumps to the bottom: the view follows new lines again.
    pub fn jump_to_bottom(&mut self)
        ensures
            scrolled_to(*old(self), *final(self), 0),
    {
        self.scroll_up = 0;
    }

    /// Jumps to the oldest shown line.
    pub fn jump_to_top(&mut self)
        ensures
            scrolled_to(*old(self), *final(self), max_scroll(*old(self))),
    {
        let n = self.shown_count();
        self.scroll_up = n.saturating_sub(1);
    }

    /// Starts editing the filter; the applied filter stays in effect.
    pub fn start_editing_filter(&mut self)
        ensures
            *final(self) == (App { editing_filter: true, ..*old(self) }),
    {
        self.editing_filter = true;
    }

    /// Types one character into the filter being edited.
    pub fn apply_filter_input(&mut self, c: char)
        ensures
            typed(*old(self), *final(self), c),
    {
        push_char(&mut self.filter_pattern, c);
    }

    /// Erases the last character of the filter being edited, if any.
    pub fn backspace_filter_input(&mut self)
        ensures
            erased(*old(self), *final(self)),
    {
        pop_char(&mut self.filter_pattern);
    }

    /// Applies the filter being edited and stops editing.
    pub fn confirm_filter(&mut self)
        ensures
            confirmed(*old(self), *final(self)),
    {
        self.filter = Filter::new(self.filter_pattern.as_str());
        self.applied_pattern = self.filter_pattern.clone();
        self.editing_filter = false;
    }

    /// Stops editing; the filter in effect stays, and its text is put back.
    pub fn cancel_filter_edit(&mut self)
        ensures
            cancelled(*old(self), *final(self)),
    {
        self.filter_pattern = self.applied_pattern.clone();
        self.editing_filter = false;
    }

    /// Sets the level floor (`None`: every level is shown).
    pub fn set_level_floor(&mut self, floor: Option<&'static str>)
        ensures
            *final(self) == (App { level_floor: floor, ..*old(self) }),
    {
        self.level_floor = floor;
    }

    /// Applies one key press (see `key_effect`).
    pub fn handle_key(&mut self, key: Key)
        requires
            old(self).editing_filter || (key != Key::Up && key != Key::Char('k'))
                || old(self).scroll_up < usize::MAX,
        ensures
            key_effect(*old(self), *final(self), key),
    {
        if self.editing_filter {
            match key {
                Key::Char(c) => self.apply_filter_input(c),
                Key::Backspace => self.backspace_filter_input(),
                Key::Enter => self.confirm_filter(),
                Key::Esc => self.cancel_filter_edit(),
                _ => {},
            }
            return ;
        }
        match key {
            Key::Char('q') => self.should_quit = true,
            Key::Char('/') => self.start_editing_filter(),
            Key::Char('w') => self.set_level_floor(Some("WARN")),
            Key::Char('e') => self.set_level_floor(Some("ERROR")),
            Key::Char('a') => self.set_level_floor(None),
            Key::Up | Key::Char('k') => self.scroll_up_one(),
            Key::Down | Key::Char('j') => self.scroll_down_one(),
            Key::Char('G') | Key::End => self.jump_to_bottom(),
            Key::Char('g') | Key::Home => self.jump_to_top(),
            _ => {},
        }
    }
}

} // verus!
