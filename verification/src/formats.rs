//! The two plain-text log line layouts: `env_logger`'s bracketed header
//! (`[2026-08-23T14:32:10Z INFO  module] message`) and a leading date-time
//! followed by a level keyword (`2026-08-23 14:32:10 LOG:  message`).
//!
//! Each layout is stated as a spec function on the line's characters that
//! yields the timestamp text, the level keyword and the message, or nothing
//! when the line does not have that layout; the executable recognisers are
//! proved to compute exactly these functions.

use vstd::prelude::*;

use crate::text::{
    chars_of, decimal_digit, decimal_digit_ranges, digit_ranges, is_decimal_digit, is_white_space,
    occurs_at, string_of, white_space,
};

verus! {

// ---------------------------------------------------------------------------
// Scanning
// ---------------------------------------------------------------------------

/// The first position at or after `i` whose character does not satisfy `p`
/// (the end of `s` when every remaining character does).
pub open spec fn skip_while(s: Seq<char>, i: int, p: spec_fn(char) -> bool) -> int
    decreases s.len() - i,
{
    if 0 <= i < s.len() && p(s[i]) {
        skip_while(s, i + 1, p)
    } else {
        i
    }
}

/// White space (`\s`).
pub open spec fn space_class() -> spec_fn(char) -> bool {
    |c: char| is_white_space(c)
}

/// Decimal digits (`\d`).
pub open spec fn digit_class() -> spec_fn(char) -> bool {
    |c: char| is_decimal_digit(c)
}

/// Anything but white space and `]` (`[^\s\]]`).
pub open spec fn stamp_class() -> spec_fn(char) -> bool {
    |c: char| !is_white_space(c) && c != ']'
}

/// Anything but `]` (`[^\]]`).
pub open spec fn not_close_class() -> spec_fn(char) -> bool {
    |c: char| c != ']'
}

/// `skip_while` is the end of the run of characters satisfying `p`.
pub proof fn lemma_skip_while(s: Seq<char>, i: int, j: int, p: spec_fn(char) -> bool)
    requires
        0 <= i <= j <= s.len(),
        forall|k: int| i <= k < j ==> p(s[k]),
        j == s.len() || !p(s[j]),
    ensures
        skip_while(s, i, p) == j,
    decreases j - i,
{
    if i < j {
        lemma_skip_while(s, i + 1, j, p);
    }
}

/// `skip_while` never moves backwards and never passes the end.
pub proof fn lemma_skip_while_bounds(s: Seq<char>, i: int, p: spec_fn(char) -> bool)
    requires
        0 <= i <= s.len(),
    ensures
        i <= skip_while(s, i, p) <= s.len(),
    decreases s.len() - i,
{
    if i < s.len() && p(s[i]) {
        lemma_skip_while_bounds(s, i + 1, p);
    }
}

fn skip_spaces(v: &Vec<char>, i: usize) -> (j: usize)
    requires
        i <= v.len(),
    ensures
        j == skip_while(v@, i as int, space_class()),
{
    let mut j = i;
    while j < v.len() && white_space(v[j])
        invariant
            i <= j <= v.len(),
            forall|k: int| i <= k < j ==> is_white_space(v@[k]),
        decreases v.len() - j,
    {
        j = j + 1;
    }
    proof {
        lemma_skip_while(v@, i as int, j as int, space_class());
    }
    j
}

fn skip_digits(v: &Vec<char>, i: usize, digits: &Vec<(char, char)>) -> (j: usize)
    requires
        i <= v.len(),
        digits@ == digit_ranges(),
    ensures
        j == skip_while(v@, i as int, digit_class()),
{
    let mut j = i;
    while j < v.len() && decimal_digit(digits, v[j])
        invariant
            i <= j <= v.len(),
            digits@ == digit_ranges(),
            forall|k: int| i <= k < j ==> is_decimal_digit(v@[k]),
        decreases v.len() - j,
    {
        j = j + 1;
    }
    proof {
        lemma_skip_while(v@, i as int, j as int, digit_class());
    }
    j
}

fn skip_stamp(v: &Vec<char>, i: usize) -> (j: usize)
    requires
        i <= v.len(),
    ensures
        j == skip_while(v@, i as int, stamp_class()),
{
    let mut j = i;
    while j < v.len() && !white_space(v[j]) && v[j] != ']'
        invariant
            i <= j <= v.len(),
            forall|k: int| i <= k < j ==> !is_white_space(v@[k]) && v@[k] != ']',
        decreases v.len() - j,
    {
        j = j + 1;
    }
    proof {
        lemma_skip_while(v@, i as int, j as int, stamp_class());
    }
    j
}

fn skip_to_close(v: &Vec<char>, i: usize) -> (j: usize)
    requires
        i <= v.len(),
    ensures
        j == skip_while(v@, i as int, not_close_class()),
{
    let mut j = i;
    while j < v.len() && v[j] != ']'
        invariant
            i <= j <= v.len(),
            forall|k: int| i <= k < j ==> v@[k] != ']',
        decreases v.len() - j,
    {
        j = j + 1;
    }
    proof {
        lemma_skip_while(v@, i as int, j as int, not_close_class());
    }
    j
}

/// Whether `kw` occurs in `v` at position `i`.
fn text_at(v: &Vec<char>, i: usize, kw: &str) -> (res: bool)
    requires
        i <= v.len(),
    ensures
        res == occurs_at(v@, kw@, i as int),
{
    let k = chars_of(kw);
    if k.len() > v.len() - i {
        return false;
    }
    let mut j: usize = 0;
    while j < k.len()
        invariant
            k@ == kw@,
            i + k.len() <= v.len(),
            j <= k.len(),
            forall|m: int| 0 <= m < j ==> v@[i + m] == k@[m],
        decreases k.len() - j,
    {
        if v[i + j] != k[j] {
            assert(v@.subrange(i as int, i + k.len())[j as int] != k@[j as int]);
            return false;
        }
        j = j + 1;
    }
    assert(v@.subrange(i as int, i + k.len()) =~= k@);
    true
}

/// `s` holds a line feed.
pub open spec fn has_line_feed(s: Seq<char>) -> bool {
    s.contains('\n')
}

fn find_line_feed(v: &Vec<char>, from: usize) -> (res: bool)
    requires
        from <= v.len(),
    ensures
        res == has_line_feed(v@.skip(from as int)),
{
    let mut j = from;
    while j < v.len()
        invariant
            from <= j <= v.len(),
            forall|k: int| from <= k < j ==> v@[k] != '\n',
        decreases v.len() - j,
    {
        if v[j] == '\n' {
            assert(v@.skip(from as int)[j - from] == '\n');
            return true;
        }
        j = j + 1;
    }
    assert forall|k: int| 0 <= k < v@.skip(from as int).len() implies v@.skip(from as int)[k]
        != '\n' by {
        assert(v@.skip(from as int)[k] == v@[from + k]);
    }
    false
}

// ---------------------------------------------------------------------------
// The bracketed layout
// ---------------------------------------------------------------------------

/// The level keyword of the bracketed layout found at `u`, the first of
/// `TRACE`, `DEBUG`, `INFO`, `WARN`, `ERROR` that occurs there.
pub open spec fn bracket_level_at(s: Seq<char>, u: int) -> Option<Seq<char>> {
    if occurs_at(s, "TRACE"@, u) {
        Some("TRACE"@)
    } else if occurs_at(s, "DEBUG"@, u) {
        Some("DEBUG"@)
    } else if occurs_at(s, "INFO"@, u) {
        Some("INFO"@)
    } else if occurs_at(s, "WARN"@, u) {
        Some("WARN"@)
    } else if occurs_at(s, "ERROR"@, u) {
        Some("ERROR"@)
    } else {
        None
    }
}

/// The message part after the closing bracket: one white-space character
/// right after the bracket is dropped.
pub open spec fn after_bracket(r: Seq<char>) -> Seq<char> {
    if r.len() > 0 && is_white_space(r[0]) {
        r.skip(1)
    } else {
        r
    }
}

/// The bracketed layout `[TS LEVEL ...] MESSAGE`:
/// - `[` first;
/// - `TS`: one or more characters that are neither white space nor `]`;
/// - one or more white-space characters;
/// - `LEVEL`: `TRACE`, `DEBUG`, `INFO`, `WARN` or `ERROR` (whatever follows
///   it up to the first `]` is ignored);
/// - the first `]` after the level, then at most one white-space character;
/// - `MESSAGE`: the rest of the line, which holds no line feed.
///
/// Yields `(TS, LEVEL, MESSAGE)`, or `None` when the line has another shape.
pub open spec fn bracket_parts(s: Seq<char>) -> Option<(Seq<char>, Seq<char>, Seq<char>)> {
    if s.len() == 0 || s[0] != '[' {
        None
    } else {
        let t = skip_while(s, 1, stamp_class());
        if t == 1 || t >= s.len() || !is_white_space(s[t]) {
            None
        } else {
            let u = skip_while(s, t, space_class());
            match bracket_level_at(s, u) {
                None => None,
                Some(level) => {
                    let b = skip_while(s, u + level.len(), not_close_class());
                    if b >= s.len() {
                        None
                    } else {
                        let msg = after_bracket(s.skip(b + 1));
                        if has_line_feed(msg) {
                            None
                        } else {
                            Some((s.subrange(1, t), level, msg))
                        }
                    }
                }
            }
        }
    }
}

fn bracket_level_exec(v: &Vec<char>, u: usize) -> (res: Option<&'static str>)
    requires
        u <= v.len(),
    ensures
        match res {
            Some(kw) => bracket_level_at(v@, u as int) == Some(kw@),
            None => bracket_level_at(v@, u as int) is None,
        },
{
    if text_at(v, u, "TRACE") {
        Some("TRACE")
    } else if text_at(v, u, "DEBUG") {
        Some("DEBUG")
    } else if text_at(v, u, "INFO") {
        Some("INFO")
    } else if text_at(v, u, "WARN") {
        Some("WARN")
    } else if text_at(v, u, "ERROR") {
        Some("ERROR")
    } else {
        None
    }
}

/// Recognises the bracketed layout; yields `(TS, LEVEL, MESSAGE)` exactly
/// when `bracket_parts` does.
pub fn parse_bracket(raw: &str) -> (res: Option<(String, String, String)>)
    ensures
        match res {
            Some((ts, level, msg)) => bracket_parts(raw@) == Some((ts@, level@, msg@)),
            None => bracket_parts(raw@) is None,
        },
{
    let v = chars_of(raw);
    let ghost s = raw@;
    if v.len() == 0 || v[0] != '[' {
        return None;
    }
    let t = skip_stamp(&v, 1);
    proof {
        lemma_skip_while_bounds(s, 1, stamp_class());
    }
    if t == 1 || t >= v.len() || !white_space(v[t]) {
        return None;
    }
    let u = skip_spaces(&v, t);
    proof {
        lemma_skip_while_bounds(s, t as int, space_class());
    }
    let level = match bracket_level_exec(&v, u) {
        None => {
            return None;
        },
        Some(kw) => kw,
    };
    let lv = chars_of(level);
    assert(u + lv.len() <= v.len());
    let b = skip_to_close(&v, u + lv.len());
    if b >= v.len() {
        return None;
    }
    let mut m = b + 1;
    if m < v.len() && white_space(v[m]) {
        m = m + 1;
    }
    assert(after_bracket(s.skip(b + 1)) =~= s.skip(m as int));
    if find_line_feed(&v, m) {
        return None;
    }
    let ts = string_of(&v, 1, t);
    let msg = string_of(&v, m, v.len());
    assert(s.skip(m as int) =~= s.subrange(m as int, s.len() as int));
    Some((ts, level.to_owned(), msg))
}


// ---------------------------------------------------------------------------
// The date-time-first layout
// ---------------------------------------------------------------------------

/// Whether `c` is a Unicode word character (`\w`): one of the `Alphabetic`
/// or `Join_Control` properties, or of the `Decimal_Number`, `Mark` or
/// `Connector_Punctuation` general categories.
pub uninterp spec fn unicode_word_char(c: char) -> bool;

/// `regex_syntax::is_word_character`. Claimed: the result is
/// `unicode_word_char(c)`, and among ASCII characters exactly the letters,
/// the digits and `_` are word characters. The full Unicode table is not
/// restated here.
#[verifier::external_body]
fn word_character(c: char) -> (res: bool)
    ensures
        res == unicode_word_char(c),
        (c as u32) < 128 ==> (res <==> (('0' <= c <= '9') || ('A' <= c <= 'Z') || ('a' <= c
            <= 'z') || c == '_')),
{
    regex_syntax::is_word_character(c)
}

/// A decimal digit stands at position `i`.
pub open spec fn digit_at(s: Seq<char>, i: int) -> bool {
    0 <= i < s.len() && is_decimal_digit(s[i])
}

/// The line starts with `DDDD-DD-DD?DD:DD:DD`, `D` a decimal digit and `?`
/// either `T` or a space.
pub open spec fn date_time_head(s: Seq<char>) -> bool {
    &&& s.len() >= 19
    &&& digit_at(s, 0) && digit_at(s, 1) && digit_at(s, 2) && digit_at(s, 3)
    &&& s[4] == '-'
    &&& digit_at(s, 5) && digit_at(s, 6)
    &&& s[7] == '-'
    &&& digit_at(s, 8) && digit_at(s, 9)
    &&& (s[10] == 'T' || s[10] == ' ')
    &&& digit_at(s, 11) && digit_at(s, 12)
    &&& s[13] == ':'
    &&& digit_at(s, 14) && digit_at(s, 15)
    &&& s[16] == ':'
    &&& digit_at(s, 17) && digit_at(s, 18)
}

/// After the seconds at `p`: an optional fraction `.D+`. `None` when a `.`
/// is not followed by a digit (no layout can then continue).
pub open spec fn after_fraction(s: Seq<char>, p: int) -> Option<int> {
    if 0 <= p < s.len() && s[p] == '.' {
        let q = skip_while(s, p + 1, digit_class());
        if q == p + 1 {
            None
        } else {
            Some(q)
        }
    } else {
        Some(p)
    }
}

/// After the fraction at `p`: an optional zone, `Z` or `+DD:DD`, `+DDDD`,
/// `-DD:DD`, `-DDDD`. `None` when a sign does not start a well-formed zone.
pub open spec fn after_zone(s: Seq<char>, p: int) -> Option<int> {
    if 0 <= p < s.len() && s[p] == 'Z' {
        Some(p + 1)
    } else if 0 <= p < s.len() && (s[p] == '+' || s[p] == '-') {
        if digit_at(s, p + 1) && digit_at(s, p + 2) {
            if p + 3 < s.len() && s[p + 3] == ':' {
                if digit_at(s, p + 4) && digit_at(s, p + 5) {
                    Some(p + 6)
                } else {
                    None
                }
            } else if digit_at(s, p + 3) && digit_at(s, p + 4) {
                Some(p + 5)
            } else {
                None
            }
        } else {
            None
        }
    } else {
        Some(p)
    }
}

/// A word boundary follows a word character ending at `k`: `k` is the end,
/// or the character at `k` is not a word character.
pub open spec fn word_boundary_after(s: Seq<char>, k: int) -> bool {
    k >= s.len() || !unicode_word_char(s[k])
}

/// `kw` stands at `u` and is not followed by a word character.
pub open spec fn whole_word_at(s: Seq<char>, u: int, kw: Seq<char>) -> bool {
    occurs_at(s, kw, u) && word_boundary_after(s, u + kw.len())
}

/// The level keyword of the date-time-first layout at `u`: the first of
/// `TRACE`, `DEBUG`, `INFO`, `WARNING`, `WARN`, `ERROR`, `LOG`, `FATAL`
/// that stands there as a whole word.
pub open spec fn plain_level_at(s: Seq<char>, u: int) -> Option<Seq<char>> {
    if whole_word_at(s, u, "TRACE"@) {
        Some("TRACE"@)
    } else if whole_word_at(s, u, "DEBUG"@) {
        Some("DEBUG"@)
    } else if whole_word_at(s, u, "INFO"@) {
        Some("INFO"@)
    } else if whole_word_at(s, u, "WARNING"@) {
        Some("WARNING"@)
    } else if whole_word_at(s, u, "WARN"@) {
        Some("WARN"@)
    } else if whole_word_at(s, u, "ERROR"@) {
        Some("ERROR"@)
    } else if whole_word_at(s, u, "LOG"@) {
        Some("LOG"@)
    } else if whole_word_at(s, u, "FATAL"@) {
        Some("FATAL"@)
    } else {
        None
    }
}

/// The date-time-first layout `TS LEVEL[:] MESSAGE`:
/// - `TS`: `date_time_head`, then an optional fraction and an optional zone;
/// - one or more white-space characters;
/// - `LEVEL`: a keyword of `plain_level_at`, as a whole word;
/// - an optional `:`, then any white space;
/// - `MESSAGE`: the rest of the line, which holds no line feed.
///
/// Yields `(TS, LEVEL, MESSAGE)`, or `None` when the line has another shape.
pub open spec fn plain_parts(s: Seq<char>) -> Option<(Seq<char>, Seq<char>, Seq<char>)> {
    if !date_time_head(s) {
        None
    } else {
        match after_fraction(s, 19) {
            None => None,
            Some(p) => match after_zone(s, p) {
                None => None,
                Some(q) => {
                    if q >= s.len() || !is_white_space(s[q]) {
                        None
                    } else {
                        let u = skip_while(s, q, space_class());
                        match plain_level_at(s, u) {
                            None => None,
                            Some(level) => {
                                let k = u + level.len();
                                let c = if k < s.len() && s[k] == ':' {
                                    k + 1
                                } else {
                                    k
                                };
                                let msg = s.skip(skip_while(s, c, space_class()));
                                if has_line_feed(msg) {
                                    None
                                } else {
                                    Some((s.subrange(0, q), level, msg))
                                }
                            },
                        }
                    }
                },
            },
        }
    }
}

fn digit_at_exec(v: &Vec<char>, i: usize, digits: &Vec<(char, char)>) -> (res: bool)
    requires
        digits@ == digit_ranges(),
    ensures
        res == digit_at(v@, i as int),
{
    i < v.len() && decimal_digit(digits, v[i])
}

fn date_time_head_exec(v: &Vec<char>, digits: &Vec<(char, char)>) -> (res: bool)
    requires
        digits@ == digit_ranges(),
    ensures
        res == date_time_head(v@),
{
    v.len() >= 19 && digit_at_exec(v, 0, digits) && digit_at_exec(v, 1, digits)
        && digit_at_exec(v, 2, digits) && digit_at_exec(v, 3, digits) && v[4] == '-'
        && digit_at_exec(v, 5, digits) && digit_at_exec(v, 6, digits) && v[7] == '-'
        && digit_at_exec(v, 8, digits) && digit_at_exec(v, 9, digits)
        && (v[10] == 'T' || v[10] == ' ') && digit_at_exec(v, 11, digits)
        && digit_at_exec(v, 12, digits) && v[13] == ':' && digit_at_exec(v, 14, digits)
        && digit_at_exec(v, 15, digits) && v[16] == ':' && digit_at_exec(v, 17, digits)
        && digit_at_exec(v, 18, digits)
}

fn after_fraction_exec(v: &Vec<char>, p: usize, digits: &Vec<(char, char)>) -> (res: Option<
    usize,
>)
    requires
        p <= v.len(),
        digits@ == digit_ranges(),
    ensures
        match res {
            Some(q) => after_fraction(v@, p as int) == Some(q as int) && q <= v.len(),
            None => after_fraction(v@, p as int) is None,
        },
{
    if p < v.len() && v[p] == '.' {
        let q = skip_digits(v, p + 1, digits);
        proof {
            lemma_skip_while_bounds(v@, p + 1, digit_class());
        }
        if q == p + 1 {
            None
        } else {
            Some(q)
        }
    } else {
        Some(p)
    }
}

fn after_zone_exec(v: &Vec<char>, p: usize, digits: &Vec<(char, char)>) -> (res: Option<
    usize,
>)
    requires
        p <= v.len(),
        digits@ == digit_ranges(),
    ensures
        match res {
            Some(q) => after_zone(v@, p as int) == Some(q as int) && q <= v.len(),
            None => after_zone(v@, p as int) is None,
        },
{
    if p < v.len() && v[p] == 'Z' {
        Some(p + 1)
    } else if p < v.len() && (v[p] == '+' || v[p] == '-') {
        if digit_at_exec(v, p + 1, digits) && digit_at_exec(v, p + 2, digits) {
            if p + 3 < v.len() && v[p + 3] == ':' {
                if digit_at_exec(v, p + 4, digits) && digit_at_exec(v, p + 5, digits) {
                    Some(p + 6)
                } else {
                    None
                }
            } else if digit_at_exec(v, p + 3, digits) && digit_at_exec(v, p + 4, digits) {
                Some(p + 5)
            } else {
                None
            }
        } else {
            None
        }
    } else {
        Some(p)
    }
}

fn boundary_after_exec(v: &Vec<char>, k: usize) -> (res: bool)
    ensures
        res == word_boundary_after(v@, k as int),
{
    k >= v.len() || !word_character(v[k])
}

fn whole_word_exec(v: &Vec<char>, u: usize, kw: &str) -> (res: bool)
    requires
        u <= v.len(),
    ensures
        res == whole_word_at(v@, u as int, kw@),
{
    if text_at(v, u, kw) {
        let k = chars_of(kw);
        boundary_after_exec(v, u + k.len())
    } else {
        false
    }
}

fn plain_level_exec(v: &Vec<char>, u: usize) -> (res: Option<&'static str>)
    requires
        u <= v.len(),
    ensures
        match res {
            Some(kw) => plain_level_at(v@, u as int) == Some(kw@),
            None => plain_level_at(v@, u as int) is None,
        },
{
    if whole_word_exec(v, u, "TRACE") {
        Some("TRACE")
    } else if whole_word_exec(v, u, "DEBUG") {
        Some("DEBUG")
    } else if whole_word_exec(v, u, "INFO") {
        Some("INFO")
    } else if whole_word_exec(v, u, "WARNING") {
        Some("WARNING")
    } else if whole_word_exec(v, u, "WARN") {
        Some("WARN")
    } else if whole_word_exec(v, u, "ERROR") {
        Some("ERROR")
    } else if whole_word_exec(v, u, "LOG") {
        Some("LOG")
    } else if whole_word_exec(v, u, "FATAL") {
        Some("FATAL")
    } else {
        None
    }
}

/// Recognises the date-time-first layout; yields `(TS, LEVEL, MESSAGE)`
/// exactly when `plain_parts` does.
pub fn parse_plain(raw: &str) -> (res: Option<(String, String, String)>)
    ensures
        match res {
            Some((ts, level, msg)) => plain_parts(raw@) == Some((ts@, level@, msg@)),
            None => plain_parts(raw@) is None,
        },
{
    let v = chars_of(raw);
    let ghost s = raw@;
    let digits = decimal_digit_ranges();
    if !date_time_head_exec(&v, &digits) {
        return None;
    }
    let p = match after_fraction_exec(&v, 19, &digits) {
        None => {
            return None;
        },
        Some(p) => p,
    };
    let q = match after_zone_exec(&v, p, &digits) {
        None => {
            return None;
        },
        Some(q) => q,
    };
    if q >= v.len() || !white_space(v[q]) {
        return None;
    }
    let u = skip_spaces(&v, q);
    proof {
        lemma_skip_while_bounds(s, q as int, space_class());
    }
    let level = match plain_level_exec(&v, u) {
        None => {
            return None;
        },
        Some(kw) => kw,
    };
    let lv = chars_of(level);
    let k = u + lv.len();
    let c = if k < v.len() && v[k] == ':' {
        k + 1
    } else {
        k
    };
    let w = skip_spaces(&v, c);
    proof {
        lemma_skip_while_bounds(s, c as int, space_class());
    }
    if find_line_feed(&v, w) {
        return None;
    }
    let ts = string_of(&v, 0, q);
    let msg = string_of(&v, w, v.len());
    assert(s.skip(w as int) =~= s.subrange(w as int, s.len() as int));
    Some((ts, level.to_owned(), msg))
}


/// A line made of a date and time (`DDDD-DD-DD`, `T` or a space,
/// `DD:DD:DD`), a space, one of the level keywords `TRACE`, `DEBUG`,
/// `INFO`, `WARN`, `WARNING`, `ERROR`, `LOG`, `FATAL`, a space and a message
/// has the date-time-first layout, with exactly those parts. (The space is
/// white space and no word character, and capital letters are no white
/// space, as the Unicode tables have it.)
pub proof fn lemma_plain_layout_keywords(head: Seq<char>, kw: Seq<char>, msg: Seq<char>)
    requires
        head.len() == 19,
        forall|i: int|
            0 <= i < 19 && i != 4 && i != 7 && i != 10 && i != 13 && i != 16 ==> is_decimal_digit(
                #[trigger] head[i],
            ),
        head[4] == '-',
        head[7] == '-',
        head[10] == 'T' || head[10] == ' ',
        head[13] == ':',
        head[16] == ':',
        kw == "TRACE"@ || kw == "DEBUG"@ || kw == "INFO"@ || kw == "WARN"@ || kw == "WARNING"@ || kw
            == "ERROR"@ || kw == "LOG"@ || kw == "FATAL"@,
        is_white_space(' '),
        !unicode_word_char(' '),
        forall|c: char| 'A' <= c <= 'Z' ==> !is_white_space(c),
        msg.len() == 0 || !is_white_space(msg[0]),
        !msg.contains('\n'),
    ensures
        plain_parts(head + seq![' '] + kw + seq![' '] + msg) == Some((head, kw, msg)),
{
    reveal_strlit("TRACE");
    reveal_strlit("DEBUG");
    reveal_strlit("INFO");
    reveal_strlit("WARN");
    reveal_strlit("WARNING");
    reveal_strlit("ERROR");
    reveal_strlit("LOG");
    reveal_strlit("FATAL");
    let s = head + seq![' '] + kw + seq![' '] + msg;
    let n = kw.len() as int;
    let k = 20 + n;
    assert(3 <= n <= 7);
    assert(s.len() == k + 1 + msg.len());
    assert forall|i: int| 0 <= i < 19 implies s[i] == head[i] by {}
    assert(s[19] == ' ');
    assert forall|i: int| 0 <= i < n implies s[20 + i] == kw[i] by {}
    assert(s[k] == ' ');
    assert forall|i: int| 0 <= i < msg.len() implies s[k + 1 + i] == msg[i] by {}
    assert(digit_at(s, 0) && digit_at(s, 1) && digit_at(s, 2) && digit_at(s, 3));
    assert(digit_at(s, 5) && digit_at(s, 6) && digit_at(s, 8) && digit_at(s, 9));
    assert(digit_at(s, 11) && digit_at(s, 12) && digit_at(s, 14) && digit_at(s, 15));
    assert(digit_at(s, 17) && digit_at(s, 18));
    assert(date_time_head(s));
    assert(after_fraction(s, 19) == Some(19int));
    assert(after_zone(s, 19) == Some(19int));
    assert(s[20] == kw[0]);
    assert('A' <= kw[0] <= 'Z');
    assert(!is_white_space(s[20]));
    lemma_skip_while(s, 19, 20, space_class());
    assert(s.subrange(20, k) =~= kw);
    assert(whole_word_at(s, 20, kw));
    if 25 <= s.len() {
        assert(s.subrange(20, 25)[0] == s[20]);
    }
    if 24 <= s.len() {
        assert(s.subrange(20, 24)[0] == s[20]);
    }
    if 23 <= s.len() {
        assert(s.subrange(20, 23)[0] == s[20]);
    }
    if 27 <= s.len() {
        assert(s.subrange(20, 27)[0] == s[20]);
        assert(s.subrange(20, 27)[4] == s[24]);
    }
    if kw == "WARN"@ {
        assert(s[24] == ' ');
    }
    assert(plain_level_at(s, 20) == Some(kw));
    if msg.len() > 0 {
        assert(s[k + 1] == msg[0]);
    }
    lemma_skip_while(s, k, k + 1, space_class());
    assert(s.skip(k + 1) =~= msg);
    assert(s.subrange(0, 19) =~= head);
    assert(!has_line_feed(s.skip(k + 1)));
}


/// A line made of `[`, a timestamp text (one or more characters, none of
/// them white space or `]`), a space, one of the level keywords `TRACE`,
/// `DEBUG`, `INFO`, `WARN`, `ERROR`, anything without `]` (the module), `]`,
/// a space and a message without a line feed has the bracketed layout,
/// with exactly those parts. (The space is white space and capital letters
/// are not, as the Unicode tables have it.)
pub proof fn lemma_bracket_layout_keywords(
    stamp: Seq<char>,
    kw: Seq<char>,
    module: Seq<char>,
    msg: Seq<char>,
)
    requires
        stamp.len() > 0,
        forall|i: int| 0 <= i < stamp.len() ==> !is_white_space(#[trigger] stamp[i]) && stamp[i] != ']',
        kw == "TRACE"@ || kw == "DEBUG"@ || kw == "INFO"@ || kw == "WARN"@ || kw == "ERROR"@,
        !module.contains(']'),
        is_white_space(' '),
        forall|c: char| 'A' <= c <= 'Z' ==> !is_white_space(c),
        !msg.contains('\n'),
    ensures
        bracket_parts(seq!['['] + stamp + seq![' '] + kw + module + seq![']', ' '] + msg) == Some(
            (stamp, kw, msg),
        ),
{
    reveal_strlit("TRACE");
    reveal_strlit("DEBUG");
    reveal_strlit("INFO");
    reveal_strlit("WARN");
    reveal_strlit("ERROR");
    let s = seq!['['] + stamp + seq![' '] + kw + module + seq![']', ' '] + msg;
    let t: int = (1 + stamp.len()) as int;
    let u: int = t + 1;
    let n: int = kw.len() as int;
    let b: int = (u + n + module.len()) as int;
    assert(4 <= n <= 5);
    assert(s.len() == b + 2 + msg.len());
    assert(s[0] == '[');
    assert forall|i: int| 0 <= i < stamp.len() implies s[1 + i] == stamp[i] by {}
    assert(s[t] == ' ');
    assert forall|i: int| 0 <= i < n implies s[u + i] == kw[i] by {}
    assert forall|i: int| 0 <= i < module.len() implies s[u + n + i] == module[i] by {}
    assert(s[b] == ']');
    assert(s[b + 1] == ' ');
    assert forall|i: int| 0 <= i < msg.len() implies s[b + 2 + i] == msg[i] by {}
    assert forall|k: int| 1 <= k < t implies (#[trigger] stamp_class()(s[k])) by {
        assert(s[k] == stamp[k - 1]);
    }
    lemma_skip_while(s, 1, t, stamp_class());
    assert('A' <= kw[0] <= 'Z');
    lemma_skip_while(s, t, u, space_class());
    assert(s.subrange(u, u + n) =~= kw);
    if u + 5 <= s.len() {
        assert(s.subrange(u, u + 5)[0] == s[u]);
    }
    if u + 4 <= s.len() {
        assert(s.subrange(u, u + 4)[0] == s[u]);
    }
    assert(bracket_level_at(s, u) == Some(kw));
    assert forall|k: int| u + n <= k < b implies (#[trigger] not_close_class()(s[k])) by {
        assert(s[k] == module[k - u - n]);
        if module[k - u - n] == ']' {
            assert(module.contains(']'));
        }
    }
    lemma_skip_while(s, u + n, b, not_close_class());
    assert(s.skip(b + 1)[0] == ' ');
    assert(s.skip(b + 1).skip(1) =~= msg);
    assert(s.subrange(1, t) =~= stamp);
}

} // verus!
