//! Computations behind the screen: which shown lines fit the log area, and
//! how a source name is shortened to a column.

use vstd::prelude::*;
use vstd::string::StringSliceAdditionalSpecFns;
use vstd::utf8::{decode_utf8, encode_utf8, is_char_boundary};

use crate::app::{shown_lines, App};
use crate::filter::opt_str;
use crate::parse::{opt_text, LogLine};
use crate::text::{chars_of, push_char, same_text};

verus! {

broadcast use vstd::utf8::encode_utf8_decode_utf8;

/// The range `start..end` of shown lines that the log area displays: the
/// last `height` lines above the `scroll_up` newest ones.
pub fn visible_window(total: usize, scroll_up: usize, height: usize) -> (res: (usize, usize))
    ensures
        res.1 == if total > scroll_up {
            total - scroll_up
        } else {
            0
        },
        res.0 == if res.1 > height {
            res.1 - height
        } else {
            0
        },
        res.0 <= res.1 <= total,
{
    let end = total.saturating_sub(scroll_up);
    let start = end.saturating_sub(height);
    (start, end)
}

/// Where a text longer than `max` bytes is cut: one byte less than `max`,
/// to leave room for the ellipsis.
pub open spec fn cut_at(max: usize) -> int {
    if max > 0 {
        max - 1
    } else {
        0
    }
}

/// A text has no more characters than its UTF-8 encoding has bytes.
proof fn lemma_chars_within_bytes(s: Seq<char>)
    ensures
        s.len() <= encode_utf8(s).len(),
    decreases s.len(),
{
    if s.len() > 0 {
        lemma_chars_within_bytes(s.drop_first());
    }
}

/// `s` when it has at most `max` bytes; else its first `max - 1` bytes (none
/// when `max` is 0) followed by `…`. The cut must fall on a character
/// boundary. For `max` of at least 1 the result has at most `max`
/// characters.
pub fn truncate(s: &str, max: usize) -> (res: String)
    requires
        s.spec_bytes().len() <= usize::MAX,
        s.spec_bytes().len() <= max || is_char_boundary(s.spec_bytes(), cut_at(max)),
    ensures
        s.spec_bytes().len() <= max ==> res@ == s@,
        s.spec_bytes().len() > max ==> res@ == decode_utf8(s.spec_bytes().subrange(0, cut_at(max)))
            + "…"@,
        max >= 1 ==> res@.len() <= max,
{
    proof {
        reveal_strlit("…");
        lemma_chars_within_bytes(s@);
    }
    if s.len() <= max {
        s.to_owned()
    } else {
        let cut = max.saturating_sub(1);
        let (head, _tail) = s.split_at(cut);
        assert(head.spec_bytes() == s.spec_bytes().subrange(0, cut_at(max)));
        assert(head@ == decode_utf8(head.spec_bytes()));
        proof {
            lemma_chars_within_bytes(head@);
        }
        let mut res = head.to_owned();
        res.append("…");
        assert(res@ == head@ + "…"@);
        res
    }
}


/// The decimal digit character for `d` (0 to 9).
pub open spec fn digit_char(d: nat) -> char {
    (('0' as u32) + d) as char
}

/// The decimal numeral of `n`, without leading zeros.
pub open spec fn decimal(n: nat) -> Seq<char>
    decreases n,
{
    if n < 10 {
        seq![digit_char(n)]
    } else {
        decimal(n / 10).push(digit_char(n % 10))
    }
}

/// The decimal numeral of `n` (what `n.to_string()` gives).
pub fn decimal_text(n: usize) -> (res: String)
    ensures
        res@ == decimal(n as nat),
{
    // Collect the digits from the lowest up, then emit them from the top.
    let mut digits: Vec<char> = Vec::new();
    let mut m = n;
    let ghost mut tails: Seq<nat> = seq![];
    while m >= 10
        invariant
            digits@.len() == tails.len(),
            forall|i: int|
                0 <= i < digits@.len() ==> #[trigger] digits@[i] == digit_char(tails[i] % 10) && tails[i]
                    >= 10 && decimal(tails[i] as nat) == decimal((tails[i] / 10) as nat).push(
                    digits@[i],
                ),
            forall|i: int| 0 <= i < tails.len() - 1 ==> #[trigger] tails[i + 1] == tails[i] / 10,
            tails.len() > 0 ==> m as nat == tails[tails.len() - 1] / 10,
            tails.len() == 0 ==> m == n,
            tails.len() > 0 ==> tails[0] == n,
        decreases m,
    {
        let d = m % 10;
        let c = ((48 + d) as u8) as char;
        assert(c == digit_char((m as nat) % 10));
        digits.push(c);
        proof {
            tails = tails.push(m as nat);
        }
        m = m / 10;
    }
    let c0 = ((48 + m) as u8) as char;
    assert(c0 == digit_char(m as nat));
    let mut res = String::new();
    push_char(&mut res, c0);
    assert(res@ == decimal(m as nat));
    let mut k = digits.len();
    while k > 0
        invariant
            k <= digits@.len(),
            digits@.len() == tails.len(),
            forall|i: int|
                0 <= i < digits@.len() ==> #[trigger] digits@[i] == digit_char(tails[i] % 10) && tails[i]
                    >= 10 && decimal(tails[i] as nat) == decimal((tails[i] / 10) as nat).push(
                    digits@[i],
                ),
            forall|i: int| 0 <= i < tails.len() - 1 ==> #[trigger] tails[i + 1] == tails[i] / 10,
            tails.len() > 0 ==> m as nat == tails[tails.len() - 1] / 10,
            tails.len() == 0 ==> m == n,
            tails.len() > 0 ==> tails[0] == n,
            k == tails.len() ==> res@ == decimal(m as nat),
            k < tails.len() ==> res@ == decimal(tails[k as int]),
        decreases k,
    {
        k = k - 1;
        proof {
            if k + 1 < tails.len() {
                assert(tails[k + 1] == tails[k as int] / 10);
            }
        }
        push_char(&mut res, digits[k]);
    }
    res
}


/// The status bar: the filter being typed while editing; otherwise the
/// applied filter text, the level floor, how many lines are shown and the
/// key help.
pub open spec fn status_text(
    editing: bool,
    pattern: Seq<char>,
    floor: Option<Seq<char>>,
    shown: nat,
) -> Seq<char> {
    if editing {
        "/"@ + pattern
    } else {
        let filter_desc = if pattern.len() == 0 {
            "no filter"@
        } else {
            "filter:"@ + pattern
        };
        let level_desc = match floor {
            Some(l) => "level>="@ + l,
            None => "all levels"@,
        };
        filter_desc + " | "@ + level_desc + " | "@ + decimal(shown) + " lines shown | / filter  w/e/a level  j/k or ↑/↓ scroll  G bottom  g top  q quit"@
    }
}

/// The status bar text for `app` (see `status_text`).
pub fn status_line(app: &App) -> (res: String)
    ensures
        res@ == status_text(
            app.editing_filter,
            app.filter_pattern@,
            opt_str(app.level_floor),
            shown_lines(*app).len(),
        ),
{
    if app.editing_filter {
        let mut res = "/".to_owned();
        res.append(app.filter_pattern.as_str());
        return res;
    }
    let mut res = if app.filter_pattern.as_str().is_empty() {
        "no filter".to_owned()
    } else {
        let mut d = "filter:".to_owned();
        d.append(app.filter_pattern.as_str());
        d
    };
    res.append(" | ");
    match app.level_floor {
        Some(l) => {
            res.append("level>=");
            res.append(l);
        },
        None => res.append("all levels"),
    }
    res.append(" | ");
    let count = decimal_text(app.filtered().len());
    res.append(count.as_str());
    res.append(
        " lines shown | / filter  w/e/a level  j/k or ↑/↓ scroll  G bottom  g top  q quit",
    );
    res
}


/// How a piece of a displayed line stands out.
#[derive(Clone, Copy, Debug, PartialEq, Eq)]
pub enum Emphasis {
    /// The source column.
    Source,
    /// `ERROR` and `FATAL` lines: red and bold.
    Alarm,
    /// `WARN` lines: yellow.
    Warning,
    /// `DEBUG` and `TRACE` lines: dimmed.
    Faint,
    /// Everything else.
    Plain,
}

/// The emphasis of a line of level `level`.
pub open spec fn emphasis_of(level: Option<Seq<char>>) -> Emphasis {
    match level {
        Some(l) => if l == "ERROR"@ || l == "FATAL"@ {
            Emphasis::Alarm
        } else if l == "WARN"@ {
            Emphasis::Warning
        } else if l == "DEBUG"@ || l == "TRACE"@ {
            Emphasis::Faint
        } else {
            Emphasis::Plain
        },
        None => Emphasis::Plain,
    }
}

/// The emphasis of a line of level `level` (see `emphasis_of`).
pub fn level_emphasis(level: Option<&str>) -> (res: Emphasis)
    ensures
        res == emphasis_of(opt_str(level)),
{
    match level {
        Some(l) => if same_text(l, "ERROR") || same_text(l, "FATAL") {
            Emphasis::Alarm
        } else if same_text(l, "WARN") {
            Emphasis::Warning
        } else if same_text(l, "DEBUG") || same_text(l, "TRACE") {
            Emphasis::Faint
        } else {
            Emphasis::Plain
        },
        None => Emphasis::Plain,
    }
}

/// `s` followed by spaces up to `width` characters (`{:<width}`).
pub open spec fn padded(s: Seq<char>, width: nat) -> Seq<char> {
    if s.len() < width {
        s + Seq::new((width - s.len()) as nat, |_i: int| ' ')
    } else {
        s
    }
}

/// Pads `s` with spaces to `width` characters.
pub fn pad_right(s: &str, width: usize) -> (res: String)
    ensures
        res@ == padded(s@, width as nat),
{
    let v = chars_of(s);
    let mut res = s.to_owned();
    let mut n = v.len();
    while n < width
        invariant
            v@ == s@,
            v.len() <= n <= width || (n == v.len() && n >= width),
            res@ == s@ + Seq::new((n - v.len()) as nat, |_i: int| ' '),
        decreases width - n,
    {
        push_char(&mut res, ' ');
        assert(s@ + Seq::new((n + 1 - v.len()) as nat, |_i: int| ' ') =~= (s@ + Seq::new(
            (n - v.len()) as nat,
            |_i: int| ' ',
        )).push(' '));
        n = n + 1;
    }
    if v.len() >= width {
        assert(res@ =~= s@);
    }
    res
}

/// One piece of a displayed line.
#[derive(Debug)]
pub struct Segment {
    pub text: String,
    pub emphasis: Emphasis,
}

/// The source column of a line: the source name shortened to 12 bytes (see
/// `truncate`), padded to 12 characters, and a space.
pub open spec fn source_column(source: Seq<char>) -> Seq<char> {
    let bytes = encode_utf8(source);
    padded(
        if bytes.len() <= 12 {
            source
        } else {
            decode_utf8(bytes.subrange(0, cut_at(12))) + "…"@
        },
        12,
    ) + " "@
}

/// The pieces a line is displayed as, each with its emphasis: the source
/// column when several sources are shown; the level padded to five
/// characters and a space, when there is a level; the message. The level
/// decides the emphasis of the level and of the message.
pub open spec fn display_pieces(line: LogLine, show_source: bool) -> Seq<(Seq<char>, Emphasis)> {
    let source = if show_source {
        seq![(source_column(line.source@), Emphasis::Source)]
    } else {
        Seq::empty()
    };
    let level = match opt_text(line.level) {
        Some(l) => seq![(padded(l, 5) + " "@, emphasis_of(Some(l)))],
        None => Seq::empty(),
    };
    source + level + seq![(line.message@, emphasis_of(opt_text(line.level)))]
}

/// The text and emphasis of each segment.
pub open spec fn segments_view(v: Seq<Segment>) -> Seq<(Seq<char>, Emphasis)> {
    v.map_values(|g: Segment| (g.text@, g.emphasis))
}

/// The pieces `line` is displayed as (see `display_pieces`). Shortening the
/// source name must cut it on a character boundary.
pub fn display_segments(line: &LogLine, show_source: bool) -> (res: Vec<Segment>)
    requires
        show_source ==> encode_utf8(line.source@).len() <= usize::MAX,
        show_source ==> encode_utf8(line.source@).len() <= 12 || is_char_boundary(
            encode_utf8(line.source@),
            cut_at(12),
        ),
    ensures
        segments_view(res@) == display_pieces(*line, show_source),
{
    let mut res: Vec<Segment> = Vec::new();
    if show_source {
        let short = truncate(line.source.as_str(), 12);
        let mut text = pad_right(short.as_str(), 12);
        text.append(" ");
        res.push(Segment { text, emphasis: Emphasis::Source });
    }
    let ghost before_level = res@;
    let emphasis = match &line.level {
        Some(l) => level_emphasis(Some(l.as_str())),
        None => level_emphasis(None),
    };
    if let Some(level) = &line.level {
        let mut text = pad_right(level.as_str(), 5);
        text.append(" ");
        res.push(Segment { text, emphasis });
    }
    res.push(Segment { text: line.message.clone(), emphasis });
    assert(segments_view(res@) =~= display_pieces(*line, show_source));
    res
}

} // verus!
