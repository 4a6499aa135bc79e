//! One log line into structured fields: JSON first, then the bracketed
//! layout, then the date-time-first layout; a line of none of these shapes
//! is kept verbatim as its own message.

use vstd::prelude::*;

use crate::formats::{
    bracket_parts, lemma_bracket_layout_keywords, lemma_plain_layout_keywords, parse_bracket,
    parse_plain, plain_parts, unicode_word_char,
};
use crate::text::{
    ascii_upper, is_decimal_digit, is_white_space, same_text, to_ascii_uppercase, upper_text,
};

verus! {

/// An instant in UTC: whole seconds since the Unix epoch and the nanoseconds
/// past them (above 999_999_999 only within a leap second). Instants order
/// by `secs`, then by `nanos`.
#[derive(Clone, Copy, Debug, PartialEq, Eq)]
pub struct Timestamp {
    pub secs: i64,
    pub nanos: u32,
}

/// One line of a log source with what could be parsed out of it.
#[derive(Debug, Clone, PartialEq)]
pub struct LogLine {
    pub source: String,
    pub raw: String,
    pub seq: u64,
    pub timestamp: Option<Timestamp>,
    pub level: Option<String>,
    pub message: String,
}

/// The mathematical content of a `LogLine`.
pub struct LineView {
    pub source: Seq<char>,
    pub raw: Seq<char>,
    pub seq: u64,
    pub timestamp: Option<Timestamp>,
    pub level: Option<Seq<char>>,
    pub message: Seq<char>,
}

/// The characters of an optional string.
pub open spec fn opt_text(o: Option<String>) -> Option<Seq<char>> {
    match o {
        Some(s) => Some(s@),
        None => None,
    }
}

impl View for LogLine {
    type V = LineView;

    open spec fn view(&self) -> LineView {
        LineView {
            source: self.source@,
            raw: self.raw@,
            seq: self.seq,
            timestamp: self.timestamp,
            level: opt_text(self.level),
            message: self.message@,
        }
    }
}

// ---------------------------------------------------------------------------
// Levels
// ---------------------------------------------------------------------------

/// A level keyword as it is kept: upper-cased, with `WARNING` written `WARN`
/// and `LOG` written `INFO`.
pub open spec fn normalized_level(s: Seq<char>) -> Seq<char> {
    let u = upper_text(s);
    if u == "WARNING"@ {
        "WARN"@
    } else if u == "LOG"@ {
        "INFO"@
    } else {
        u
    }
}

/// Upper-cases a level keyword and folds `WARNING` into `WARN` and `LOG`
/// into `INFO`.
pub fn normalize_level(s: &str) -> (res: String)
    ensures
        res@ == normalized_level(s@),
{
    let u = to_ascii_uppercase(s);
    if same_text(u.as_str(), "WARNING") {
        "WARN".to_owned()
    } else if same_text(u.as_str(), "LOG") {
        "INFO".to_owned()
    } else {
        u
    }
}

// ---------------------------------------------------------------------------
// Timestamps
// ---------------------------------------------------------------------------

/// What `chrono::DateTime::parse_from_rfc3339` makes of a text, taken as an
/// instant in UTC; `None` when it rejects the text.
pub uninterp spec fn rfc3339_instant(text: Seq<char>) -> Option<Timestamp>;

/// What `chrono::NaiveDateTime::parse_from_str` makes of a text under a
/// format, the result read as a UTC date and time; `None` when it rejects
/// the text.
pub uninterp spec fn naive_utc_instant(text: Seq<char>, format: Seq<char>) -> Option<Timestamp>;

/// The day that `chrono::NaiveDate::parse_from_str` reads from a text under
/// a format, counted in days from 1970-01-01 (`NaiveDate::to_epoch_days`);
/// `None` when it rejects the text.
pub uninterp spec fn date_epoch_day(text: Seq<char>, format: Seq<char>) -> Option<i32>;

#[verifier::external_type_specification]
#[verifier::external_body]
pub struct ExChronoParseError(chrono::ParseError);

/// `chrono::DateTime::parse_from_rfc3339`, converted to UTC. Claimed: it
/// succeeds exactly when `rfc3339_instant(s)` is an instant, and then yields
/// that instant.
#[verifier::external_body]
fn parse_rfc3339(s: &str) -> (res: Result<Timestamp, chrono::ParseError>)
    ensures
        res is Ok <==> rfc3339_instant(s@) is Some,
        res matches Ok(t) ==> rfc3339_instant(s@) == Some(t),
{
    match chrono::DateTime::parse_from_rfc3339(s) {
        Ok(dt) => Ok(Timestamp { secs: dt.timestamp(), nanos: dt.timestamp_subsec_nanos() }),
        Err(e) => Err(e),
    }
}

/// `chrono::NaiveDateTime::parse_from_str` under `format`, the result taken
/// as UTC. Claimed: it succeeds exactly when `naive_utc_instant(s, format)`
/// is an instant, and then yields that instant.
#[verifier::external_body]
fn parse_naive_utc(s: &str, format: &str) -> (res: Result<Timestamp, chrono::ParseError>)
    ensures
        res is Ok <==> naive_utc_instant(s@, format@) is Some,
        res matches Ok(t) ==> naive_utc_instant(s@, format@) == Some(t),
{
    match chrono::NaiveDateTime::parse_from_str(s, format) {
        Ok(naive) => {
            let dt = chrono::DateTime::<chrono::Utc>::from_naive_utc_and_offset(naive, chrono::Utc);
            Ok(Timestamp { secs: dt.timestamp(), nanos: dt.timestamp_subsec_nanos() })
        },
        Err(e) => Err(e),
    }
}

/// `chrono::NaiveDate::parse_from_str` under `format`, the day given by
/// `NaiveDate::to_epoch_days`. Claimed: it succeeds exactly when
/// `date_epoch_day(s, format)` is a day, and then yields that day.
#[verifier::external_body]
fn parse_epoch_day(s: &str, format: &str) -> (res: Result<i32, chrono::ParseError>)
    ensures
        res is Ok <==> date_epoch_day(s@, format@) is Some,
        res matches Ok(d) ==> date_epoch_day(s@, format@) == Some(d),
{
    match chrono::NaiveDate::parse_from_str(s, format) {
        Ok(day) => Ok(day.to_epoch_days()),
        Err(e) => Err(e),
    }
}

/// Midnight UTC of the day `days` after 1970-01-01.
pub open spec fn midnight_of(days: i32) -> Timestamp {
    Timestamp { secs: (days * 86400) as i64, nanos: 0 }
}

/// Midnight UTC of a day counted from 1970-01-01.
pub fn midnight_utc(days: i32) -> (res: Timestamp)
    ensures
        res == midnight_of(days),
        res.secs == days * 86400,
{
    assert(-0x8000_0000 * 86400 <= days * 86400 <= 0x7fff_ffff * 86400) by (nonlinear_arith)
        requires
            -0x8000_0000 <= days <= 0x7fff_ffff,
    ;
    Timestamp { secs: (days as i64) * 86400, nanos: 0 }
}

/// The instant a bare date denotes: midnight UTC of that day.
pub open spec fn date_instant(text: Seq<char>, format: Seq<char>) -> Option<Timestamp> {
    match date_epoch_day(text, format) {
        Some(d) => Some(midnight_of(d)),
        None => None,
    }
}

/// The first of two optional values that is present.
pub open spec fn or_else<T>(a: Option<T>, b: Option<T>) -> Option<T> {
    match a {
        Some(x) => Some(x),
        None => b,
    }
}

/// The instant a timestamp text denotes: RFC 3339 first, then, read as UTC,
/// `%Y-%m-%dT%H:%M:%S%.f%:z`, `%Y-%m-%d %H:%M:%S%.f` and
/// `%Y-%m-%dT%H:%M:%S%.f`, in that order.
pub open spec fn timestamp_of(s: Seq<char>) -> Option<Timestamp> {
    or_else(
        rfc3339_instant(s),
        or_else(
            naive_utc_instant(s, "%Y-%m-%dT%H:%M:%S%.f%:z"@),
            or_else(
                naive_utc_instant(s, "%Y-%m-%d %H:%M:%S%.f"@),
                or_else(
                    naive_utc_instant(s, "%Y-%m-%dT%H:%M:%S%.f"@),
                    date_instant(s, "%Y-%m-%d"@),
                ),
            ),
        ),
    )
}

/// An RFC 3339 text is read as RFC 3339, whatever else it might match; a
/// text that none of the date-time formats reads but that is a bare date is
/// read as midnight UTC of that day.
pub proof fn lemma_timestamp_formats_in_order(s: Seq<char>)
    ensures
        rfc3339_instant(s) is Some ==> timestamp_of(s) == rfc3339_instant(s),
        (rfc3339_instant(s) is None && naive_utc_instant(s, "%Y-%m-%dT%H:%M:%S%.f%:z"@) is None
            && naive_utc_instant(s, "%Y-%m-%d %H:%M:%S%.f"@) is None && naive_utc_instant(
            s,
            "%Y-%m-%dT%H:%M:%S%.f"@,
        ) is None) ==> match date_epoch_day(s, "%Y-%m-%d"@) {
            Some(d) => timestamp_of(s) matches Some(t) && t.secs == d * 86400 && t.nanos == 0,
            None => timestamp_of(s) is None,
        },
{
    if let Some(d) = date_epoch_day(s, "%Y-%m-%d"@) {
        assert(-0x8000_0000 * 86400 <= d * 86400 <= 0x7fff_ffff * 86400) by (nonlinear_arith)
            requires
                -0x8000_0000 <= d <= 0x7fff_ffff,
        ;
    }
}

/// Reads a timestamp text: RFC 3339, one of three date-time formats taken
/// as UTC, or a bare date taken as midnight UTC.
pub fn parse_timestamp(s: &str) -> (res: Option<Timestamp>)
    ensures
        res == timestamp_of(s@),
{
    if let Ok(t) = parse_rfc3339(s) {
        return Some(t);
    }
    if let Ok(t) = parse_naive_utc(s, "%Y-%m-%dT%H:%M:%S%.f%:z") {
        return Some(t);
    }
    if let Ok(t) = parse_naive_utc(s, "%Y-%m-%d %H:%M:%S%.f") {
        return Some(t);
    }
    if let Ok(t) = parse_naive_utc(s, "%Y-%m-%dT%H:%M:%S%.f") {
        return Some(t);
    }
    if let Ok(d) = parse_epoch_day(s, "%Y-%m-%d") {
        return Some(midnight_utc(d));
    }
    None
}

// ---------------------------------------------------------------------------
// JSON lines
// ---------------------------------------------------------------------------

/// A top-level member of a JSON object: its key, and its value when that
/// value is a string.
#[derive(Debug, Clone)]
pub struct JsonMember {
    pub key: String,
    pub text: Option<String>,
}

/// The members of a JSON object as `(key, string value)` pairs.
pub open spec fn members_view(ms: Seq<JsonMember>) -> Seq<(Seq<char>, Option<Seq<char>>)> {
    ms.map_values(|m: JsonMember| (m.key@, opt_text(m.text)))
}

/// What `serde_json::from_str` into a `serde_json::Value` makes of a text:
/// `None` when the text is not JSON; `Some(None)` when it is JSON but not an
/// object; `Some(Some(ms))` for an object, `ms` its members in the order of
/// the parsed map, each with its value when that value is a string.
pub uninterp spec fn json_object_members(text: Seq<char>) -> Option<
    Option<Seq<(Seq<char>, Option<Seq<char>>)>>,
>;

#[verifier::external_type_specification]
#[verifier::external_body]
pub struct ExJsonError(serde_json::Error);

/// `serde_json::from_str::<serde_json::Value>`, its object members turned
/// into plain pairs. Claimed: it fails exactly when the text is not JSON,
/// yields `None` for JSON that is not an object, and otherwise the members
/// that `json_object_members` names; no key occurs twice, as the members
/// come from a map.
#[verifier::external_body]
fn json_members(raw: &str) -> (res: Result<Option<Vec<JsonMember>>, serde_json::Error>)
    ensures
        res is Err <==> json_object_members(raw@) is None,
        res matches Ok(None) ==> json_object_members(raw@) == Some(
            None::<Seq<(Seq<char>, Option<Seq<char>>)>>,
        ),
        res matches Ok(Some(v)) ==> json_object_members(raw@) == Some(Some(members_view(v@))),
        res matches Ok(Some(v)) ==> forall|i: int, j: int|
            0 <= i < j < v@.len() ==> v@[i].key@ != v@[j].key@,
{
    match serde_json::from_str::<serde_json::Value>(raw) {
        Ok(serde_json::Value::Object(map)) => Ok(Some(map.into_iter().map(|(key, value)| {
            let text = match value { serde_json::Value::String(t) => Some(t), _ => None };
            JsonMember { key, text }
        }).collect())),
        Ok(_) => Ok(None),
        Err(e) => Err(e),
    }
}

/// The string value of the first member named `key`, if that member exists
/// and its value is a string.
pub open spec fn member_text(ms: Seq<(Seq<char>, Option<Seq<char>>)>, key: Seq<char>) -> Option<
    Seq<char>,
>
    decreases ms.len(),
{
    if ms.len() == 0 {
        None
    } else if ms[0].0 == key {
        ms[0].1
    } else {
        member_text(ms.drop_first(), key)
    }
}

/// The timestamp text of a JSON line: the first string among `timestamp`,
/// `time`, `ts`, `@timestamp`.
pub open spec fn json_timestamp_text(ms: Seq<(Seq<char>, Option<Seq<char>>)>) -> Option<
    Seq<char>,
> {
    or_else(
        member_text(ms, "timestamp"@),
        or_else(
            member_text(ms, "time"@),
            or_else(member_text(ms, "ts"@), member_text(ms, "@timestamp"@)),
        ),
    )
}

/// The level text of a JSON line: the first string among `level`, `lvl`,
/// `severity`.
pub open spec fn json_level_text(ms: Seq<(Seq<char>, Option<Seq<char>>)>) -> Option<Seq<char>> {
    or_else(
        member_text(ms, "level"@),
        or_else(member_text(ms, "lvl"@), member_text(ms, "severity"@)),
    )
}

/// The message text of a JSON line: the first string among `message`,
/// `msg`.
pub open spec fn json_message_text(ms: Seq<(Seq<char>, Option<Seq<char>>)>) -> Option<Seq<char>> {
    or_else(member_text(ms, "message"@), member_text(ms, "msg"@))
}

/// The fields of a line taken from the members of its JSON object: the
/// timestamp text read as an instant, the level text normalized, and the
/// message text, or the whole line when there is none.
pub open spec fn json_line_fields(ms: Seq<(Seq<char>, Option<Seq<char>>)>, raw: Seq<char>) -> (
    Option<Timestamp>,
    Option<Seq<char>>,
    Seq<char>,
) {
    (
        match json_timestamp_text(ms) {
            Some(t) => timestamp_of(t),
            None => None,
        },
        match json_level_text(ms) {
            Some(l) => Some(normalized_level(l)),
            None => None,
        },
        match json_message_text(ms) {
            Some(m) => m,
            None => raw,
        },
    )
}

/// The string value of the first member named `key`.
pub fn find_member_text(members: &Vec<JsonMember>, key: &str) -> (res: Option<String>)
    ensures
        opt_text(res) == member_text(members_view(members@), key@),
{
    let ghost ms = members_view(members@);
    assert(ms.skip(0) =~= ms);
    let mut i: usize = 0;
    while i < members.len()
        invariant
            i <= members.len(),
            ms == members_view(members@),
            member_text(ms, key@) == member_text(ms.skip(i as int), key@),
        decreases members.len() - i,
    {
        assert(ms.skip(i as int)[0] == ms[i as int]);
        assert(ms.skip(i as int).drop_first() =~= ms.skip(i + 1));
        if same_text(members[i].key.as_str(), key) {
            return match &members[i].text {
                Some(t) => Some(t.clone()),
                None => None,
            };
        }
        i = i + 1;
    }
    assert(ms.skip(i as int).len() == 0);
    None
}

fn first_text(a: Option<String>, b: Option<String>) -> (res: Option<String>)
    ensures
        opt_text(res) == or_else(opt_text(a), opt_text(b)),
{
    match a {
        Some(x) => Some(x),
        None => b,
    }
}

/// The fields of a JSON line from the members of its object: see
/// `json_line_fields`.
pub fn json_fields(members: &Vec<JsonMember>, raw: &str) -> (res: (
    Option<Timestamp>,
    Option<String>,
    String,
))
    ensures
        (res.0, opt_text(res.1), res.2@) == json_line_fields(members_view(members@), raw@),
{
    let ghost ms = members_view(members@);
    let ts_text = first_text(
        find_member_text(members, "timestamp"),
        first_text(
            find_member_text(members, "time"),
            first_text(find_member_text(members, "ts"), find_member_text(members, "@timestamp")),
        ),
    );
    let timestamp = match ts_text {
        Some(t) => parse_timestamp(t.as_str()),
        None => None,
    };
    let level_text = first_text(
        find_member_text(members, "level"),
        first_text(find_member_text(members, "lvl"), find_member_text(members, "severity")),
    );
    let level = match level_text {
        Some(l) => Some(normalize_level(l.as_str())),
        None => None,
    };
    let message = match first_text(
        find_member_text(members, "message"),
        find_member_text(members, "msg"),
    ) {
        Some(m) => m,
        None => raw.to_owned(),
    };
    (timestamp, level, message)
}

/// The fields `(timestamp, level, message)` of a line: from its JSON object
/// when it is one; else from the bracketed layout; else from the
/// date-time-first layout; else no timestamp, no level, and the line itself
/// as the message.
pub open spec fn line_fields(raw: Seq<char>) -> (Option<Timestamp>, Option<Seq<char>>, Seq<char>) {
    match json_object_members(raw) {
        Some(Some(ms)) => json_line_fields(ms, raw),
        _ => match bracket_parts(raw) {
            Some((ts, level, msg)) => (timestamp_of(ts), Some(normalized_level(level)), msg),
            None => match plain_parts(raw) {
                Some((ts, level, msg)) => (timestamp_of(ts), Some(normalized_level(level)), msg),
                None => (None, None, raw),
            },
        },
    }
}

/// The line that `parse_line(source, seq, raw)` yields.
pub open spec fn parsed_line(source: Seq<char>, seq: u64, raw: Seq<char>) -> LineView {
    let f = line_fields(raw);
    LineView { source, raw, seq, timestamp: f.0, level: f.1, message: f.2 }
}


proof fn lemma_upper_idempotent(s: Seq<char>)
    ensures
        upper_text(upper_text(s)) == upper_text(s),
{
    assert forall|i: int| 0 <= i < s.len() implies ascii_upper(ascii_upper(s[i])) == ascii_upper(
        s[i],
    ) by {
        let c = s[i];
        if 'a' <= c <= 'z' {
            assert((((c as u32) - 32) as char) as u32 == (c as u32) - 32);
        }
    }
    assert(upper_text(upper_text(s)) =~= upper_text(s));
}

proof fn lemma_normalized_level(s: Seq<char>)
    ensures
        upper_text(normalized_level(s)) == normalized_level(s),
        normalized_level(s) != "WARNING"@,
        normalized_level(s) != "LOG"@,
{
    reveal_strlit("WARN");
    reveal_strlit("INFO");
    reveal_strlit("WARNING");
    reveal_strlit("LOG");
    lemma_upper_idempotent(s);
    assert(upper_text("WARN"@) =~= "WARN"@);
    assert(upper_text("INFO"@) =~= "INFO"@);
}

/// Every level kept is upper-cased (ASCII) and is never `WARNING` or `LOG`:
/// those are kept as `WARN` and `INFO`.
pub proof fn lemma_levels_normalized(raw: Seq<char>)
    ensures
        line_fields(raw).1 matches Some(l) ==> upper_text(l) == l && l != "WARNING"@ && l
            != "LOG"@,
{
    match json_object_members(raw) {
        Some(Some(ms)) => {
            if let Some(l) = json_level_text(ms) {
                lemma_normalized_level(l);
            }
        },
        _ => {
            if let Some((_, l, _)) = bracket_parts(raw) {
                lemma_normalized_level(l);
            } else if let Some((_, l, _)) = plain_parts(raw) {
                lemma_normalized_level(l);
            }
        },
    }
}

/// A line that is a JSON object takes its fields from the object, whatever
/// text layout it might also have.
pub proof fn lemma_json_comes_first(raw: Seq<char>)
    ensures
        json_object_members(raw) matches Some(Some(ms)) ==> line_fields(raw) == json_line_fields(
            ms,
            raw,
        ),
{
}


/// A line that is not a JSON object but has the bracketed layout takes its
/// fields from that layout, whatever else it matches.
pub proof fn lemma_bracket_before_plain(raw: Seq<char>)
    ensures
        !(json_object_members(raw) matches Some(Some(_))) ==> (bracket_parts(raw) matches Some(
            (ts, level, msg),
        ) ==> line_fields(raw) == (timestamp_of(ts), Some(normalized_level(level)), msg)),
{
}

/// A line of neither JSON nor a known layout is kept verbatim as its message,
/// with no timestamp and no level.
pub proof fn lemma_unparsed_kept_verbatim(raw: Seq<char>)
    requires
        !(json_object_members(raw) matches Some(Some(_))),
        bracket_parts(raw) is None,
        plain_parts(raw) is None,
    ensures
        line_fields(raw) == (None::<Timestamp>, None::<Seq<char>>, raw),
{
}

/// A level is kept upper-cased (ASCII), character by character, unless it
/// reads `WARNING` or `LOG` in any case: those are kept as `WARN` and
/// `INFO`. No other level is changed into another keyword.
pub proof fn lemma_level_kept_upper_cased(s: Seq<char>)
    ensures
        upper_text(s) != "WARNING"@ && upper_text(s) != "LOG"@ ==> {
            &&& normalized_level(s).len() == s.len()
            &&& forall|i: int|
                0 <= i < s.len() ==> (#[trigger] normalized_level(s)[i]) == if 'a' <= s[i] <= 'z' {
                    ((s[i] as u32) - 32) as char
                } else {
                    s[i]
                }
        },
        upper_text(s) == "WARNING"@ ==> normalized_level(s) == "WARN"@,
        upper_text(s) == "LOG"@ ==> normalized_level(s) == "INFO"@,
{
    reveal_strlit("WARNING");
    reveal_strlit("LOG");
    assert("LOG"@.len() != "WARNING"@.len());
}

/// A line made of a date and time, a space, a level keyword of the
/// date-time-first layout, a space and a message, which is no JSON object
/// and does not start with `[`, is read as that layout: the timestamp of
/// the date and time, the keyword as its level (kept as written, but for
/// `WARNING` and `LOG`), and the message.
pub proof fn lemma_plain_lines_parse(head: Seq<char>, kw: Seq<char>, msg: Seq<char>)
    requires
        head.len() == 19,
        forall|i: int|
            0 <= i < 19 && i != 4 && i != 7 && i != 10 && i != 13 && i != 16 ==> is_decimal_digit(
                #[trigger] head[i],
            ),
        head[0] != '[',
        head[4] == '-',
        head[7] == '-',
        head[10] == 'T' || head[10] == ' ',
        head[13] == ':',
        head[16] == ':',
        kw == "TRACE"@ || kw == "DEBUG"@ || kw == "INFO"@ || kw == "WARN"@ || kw == "WARNING"@ || kw
            == "ERROR"@ || kw == "LOG"@ || kw == "FATAL"@,
        is_white_space(' '),
        !unicode_word_char(' '),
        forall|c: char| 'A' <= c <= 'Z' ==> !is_white_space(c),
        msg.len() == 0 || !is_white_space(msg[0]),
        !msg.contains('\n'),
        !(json_object_members(head + seq![' '] + kw + seq![' '] + msg) matches Some(Some(_))),
    ensures
        line_fields(head + seq![' '] + kw + seq![' '] + msg) == (
            timestamp_of(head),
            Some(normalized_level(kw)),
            msg,
        ),
        kw != "WARNING"@ && kw != "LOG"@ ==> normalized_level(kw) == kw,
{
    let s = head + seq![' '] + kw + seq![' '] + msg;
    lemma_plain_layout_keywords(head, kw, msg);
    assert(s[0] == head[0]);
    assert(bracket_parts(s) is None);
    reveal_strlit("TRACE");
    reveal_strlit("DEBUG");
    reveal_strlit("INFO");
    reveal_strlit("WARN");
    reveal_strlit("WARNING");
    reveal_strlit("ERROR");
    reveal_strlit("LOG");
    reveal_strlit("FATAL");
    assert forall|i: int| 0 <= i < kw.len() implies 'A' <= #[trigger] kw[i] <= 'Z' by {}
    assert(upper_text(kw) =~= kw);
}

/// A line made of `[`, a timestamp text without white space or `]`, a
/// space, a level keyword of the bracketed layout, a module without `]`,
/// `]`, a space and a message, which is no JSON object, is read as that
/// layout: the timestamp of the text, the keyword as its level, unchanged,
/// and the message.
pub proof fn lemma_bracket_lines_parse(
    stamp: Seq<char>,
    kw: Seq<char>,
    module: Seq<char>,
    msg: Seq<char>,
)
    requires
        stamp.len() > 0,
        forall|i: int| 0 <= i < stamp.len() ==> !is_white_space(#[trigger] stamp[i]) && stamp[i] != ']',
        kw == "TRACE"@ || kw == "DEBUG"@ || kw == "INFO"@ || kw == "WARN"@ || kw == "ERROR"@,
        !module.contains(']'),
        is_white_space(' '),
        forall|c: char| 'A' <= c <= 'Z' ==> !is_white_space(c),
        !msg.contains('\n'),
        !(json_object_members(seq!['['] + stamp + seq![' '] + kw + module + seq![']', ' '] + msg) matches Some(Some(_))),
    ensures
        line_fields(seq!['['] + stamp + seq![' '] + kw + module + seq![']', ' '] + msg) == (
            timestamp_of(stamp),
            Some(kw),
            msg,
        ),
{
    lemma_bracket_layout_keywords(stamp, kw, module, msg);
    reveal_strlit("TRACE");
    reveal_strlit("DEBUG");
    reveal_strlit("INFO");
    reveal_strlit("WARN");
    reveal_strlit("WARNING");
    reveal_strlit("ERROR");
    reveal_strlit("LOG");
    assert forall|i: int| 0 <= i < kw.len() implies 'A' <= #[trigger] kw[i] <= 'Z' by {}
    assert(upper_text(kw) =~= kw);
    assert(kw.len() != "WARNING"@.len());
    assert(kw.len() == 3 ==> false);
    assert(normalized_level(kw) == kw);
}

proof fn lemma_member_text_absent(ms: Seq<(Seq<char>, Option<Seq<char>>)>, key: Seq<char>)
    requires
        forall|i: int| 0 <= i < ms.len() ==> (#[trigger] ms[i]).0 != key,
    ensures
        member_text(ms, key) is None,
    decreases ms.len(),
{
    if ms.len() > 0 {
        assert forall|i: int| 0 <= i < ms.drop_first().len() implies (
        #[trigger] ms.drop_first()[i]).0 != key by {
            assert(ms.drop_first()[i] == ms[i + 1]);
        }
        lemma_member_text_absent(ms.drop_first(), key);
    }
}

/// A JSON line whose object has a string timestamp under `timestamp`,
/// `time`, `ts` or `@timestamp`, a string level under `level`, `lvl` or
/// `severity`, and a string message under `message` or `msg` (in that
/// order, and nothing else) takes its timestamp, level and message from
/// them.
pub proof fn lemma_json_fields_by_name(
    raw: Seq<char>,
    tk: Seq<char>,
    ts: Seq<char>,
    lk: Seq<char>,
    lv: Seq<char>,
    mk: Seq<char>,
    m: Seq<char>,
)
    requires
        json_object_members(raw) == Some(Some(seq![(tk, Some(ts)), (lk, Some(lv)), (mk, Some(m))])),
        tk == "timestamp"@ || tk == "time"@ || tk == "ts"@ || tk == "@timestamp"@,
        lk == "level"@ || lk == "lvl"@ || lk == "severity"@,
        mk == "message"@ || mk == "msg"@,
    ensures
        line_fields(raw) == (timestamp_of(ts), Some(normalized_level(lv)), m),
{
    reveal_strlit("timestamp");
    reveal_strlit("time");
    reveal_strlit("ts");
    reveal_strlit("@timestamp");
    reveal_strlit("level");
    reveal_strlit("lvl");
    reveal_strlit("severity");
    reveal_strlit("message");
    reveal_strlit("msg");
    let ms = seq![(tk, Some(ts)), (lk, Some(lv)), (mk, Some(m))];
    assert(ms.drop_first() =~= seq![(lk, Some(lv)), (mk, Some(m))]);
    assert(ms.drop_first().drop_first() =~= seq![(mk, Some(m))]);
    assert(ms.drop_first().drop_first().drop_first() =~= Seq::<(Seq<char>, Option<Seq<char>>)>::empty());
    assert(tk[0] == 't' || tk[0] == '@');
    assert(lk[0] == 'l' || lk[0] == 's');
    assert(mk[0] == 'm');
    assert(tk != lk && tk != mk && lk != mk);
    assert("timestamp"@.len() == 9 && "time"@.len() == 4 && "ts"@.len() == 2);
    assert("@timestamp"@.len() == 10);
    assert("level"@.len() == 5 && "lvl"@.len() == 3 && "severity"@.len() == 8);
    assert("message"@.len() == 7 && "msg"@.len() == 3);
    assert("timestamp"@[0] == 't' && "time"@[0] == 't' && "ts"@[0] == 't' && "@timestamp"@[0] == '@');
    assert("level"@[0] == 'l' && "lvl"@[0] == 'l' && "severity"@[0] == 's');
    assert("message"@[0] == 'm' && "msg"@[0] == 'm');
    reveal_with_fuel(member_text, 4);
    assert(json_timestamp_text(ms) == Some(ts));
    assert(json_level_text(ms) == Some(lv));
    assert(json_message_text(ms) == Some(m));
}

/// A JSON line with no member named `message` or `msg` keeps the whole line
/// as its message; with no member named `timestamp`, `time`, `ts` or
/// `@timestamp` it has no timestamp; with no member named `level`, `lvl` or
/// `severity` it has no level.
pub proof fn lemma_json_missing_fields(raw: Seq<char>, ms: Seq<(Seq<char>, Option<Seq<char>>)>)
    requires
        json_object_members(raw) == Some(Some(ms)),
    ensures
        (forall|i: int| 0 <= i < ms.len() ==> (#[trigger] ms[i]).0 != "message"@ && ms[i].0 != "msg"@)
            ==> line_fields(raw).2 == raw,
        (forall|i: int|
            0 <= i < ms.len() ==> (#[trigger] ms[i]).0 != "timestamp"@ && ms[i].0 != "time"@ && ms[i].0
                != "ts"@ && ms[i].0 != "@timestamp"@) ==> line_fields(raw).0 is None,
        (forall|i: int|
            0 <= i < ms.len() ==> (#[trigger] ms[i]).0 != "level"@ && ms[i].0 != "lvl"@ && ms[i].0
                != "severity"@) ==> line_fields(raw).1 is None,
{
    if forall|i: int| 0 <= i < ms.len() ==> (#[trigger] ms[i]).0 != "message"@ && ms[i].0 != "msg"@ {
        lemma_member_text_absent(ms, "message"@);
        lemma_member_text_absent(ms, "msg"@);
    }
    if forall|i: int|
        0 <= i < ms.len() ==> (#[trigger] ms[i]).0 != "timestamp"@ && ms[i].0 != "time"@ && ms[i].0
            != "ts"@ && ms[i].0 != "@timestamp"@ {
        lemma_member_text_absent(ms, "timestamp"@);
        lemma_member_text_absent(ms, "time"@);
        lemma_member_text_absent(ms, "ts"@);
        lemma_member_text_absent(ms, "@timestamp"@);
    }
    if forall|i: int|
        0 <= i < ms.len() ==> (#[trigger] ms[i]).0 != "level"@ && ms[i].0 != "lvl"@ && ms[i].0
            != "severity"@ {
        lemma_member_text_absent(ms, "level"@);
        lemma_member_text_absent(ms, "lvl"@);
        lemma_member_text_absent(ms, "severity"@);
    }
}

/// Parses one line of a log file into structured fields. Nothing is ever
/// dropped: the source, the sequence number and the raw text are always
/// kept, and a line that matches no layout becomes its own message.
pub fn parse_line(source: &str, seq: u64, raw: &str) -> (res: LogLine)
    ensures
        res@ == parsed_line(source@, seq, raw@),
{
    if let Ok(Some(members)) = json_members(raw) {
        let (timestamp, level, message) = json_fields(&members, raw);
        return LogLine {
            source: source.to_owned(),
            raw: raw.to_owned(),
            seq,
            timestamp,
            level,
            message,
        };
    }
    if let Some((ts, level, msg)) = parse_bracket(raw) {
        return LogLine {
            source: source.to_owned(),
            raw: raw.to_owned(),
            seq,
            timestamp: parse_timestamp(ts.as_str()),
            level: Some(normalize_level(level.as_str())),
            message: msg,
        };
    }
    if let Some((ts, level, msg)) = parse_plain(raw) {
        return LogLine {
            source: source.to_owned(),
            raw: raw.to_owned(),
            seq,
            timestamp: parse_timestamp(ts.as_str()),
            level: Some(normalize_level(level.as_str())),
            message: msg,
        };
    }
    LogLine {
        source: source.to_owned(),
        raw: raw.to_owned(),
        seq,
        timestamp: None,
        level: None,
        message: raw.to_owned(),
    }
}

} // verus!
