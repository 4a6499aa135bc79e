//! The text filter and the level floor that decide which lines are shown.

use vstd::prelude::*;

use crate::parse::{normalized_level, opt_text, LogLine};
use crate::text::{
    chars_of, contains_chars, contains_text, lower_text, same_text, to_ascii_lowercase, upper_text,
};

verus! {

// ---------------------------------------------------------------------------
// Regular expressions
// ---------------------------------------------------------------------------

#[verifier::external_type_specification]
#[verifier::external_body]
pub struct ExRegex(regex::Regex);

#[verifier::external_type_specification]
#[verifier::external_body]
pub struct ExRegexError(regex::Error);

/// `<regex::Regex as Clone>::clone`. Nothing is claimed of the copy. (The
/// type derives `Clone`, so the copy matches exactly what `re` matches and
/// a cloned `PatternRegex` stays tied to its pattern.)
pub assume_specification[ <regex::Regex as Clone>::clone ](re: &regex::Regex) -> regex::Regex;

/// Whether `regex::Regex::new` accepts a pattern.
pub uninterp spec fn regex_compiles(pattern: Seq<char>) -> bool;

/// Whether the regular expression compiled from `pattern` matches somewhere
/// in `haystack` (`regex::Regex::is_match`).
pub uninterp spec fn regex_is_match(pattern: Seq<char>, haystack: Seq<char>) -> bool;

/// A compiled regular expression together with the pattern it was compiled
/// from. The only way to make one is `PatternRegex::compile`, so the
/// compiled expression always belongs to the kept pattern.
#[derive(Debug, Clone)]
pub struct PatternRegex {
    pattern: String,
    compiled: regex::Regex,
}

impl View for PatternRegex {
    type V = Seq<char>;

    /// The pattern the expression was compiled from.
    closed spec fn view(&self) -> Seq<char> {
        self.pattern@
    }
}

impl PatternRegex {
    /// `regex::Regex::new`. Claimed: it succeeds exactly when
    /// `regex_compiles(pattern)`, and the result keeps `pattern`.
    #[verifier::external_body]
    fn compile(pattern: &str) -> (res: Result<PatternRegex, regex::Error>)
        ensures
            res is Ok <==> regex_compiles(pattern@),
            res matches Ok(r) ==> r@ == pattern@,
    {
        match regex::Regex::new(pattern) {
            Ok(compiled) => Ok(PatternRegex { pattern: pattern.to_string(), compiled }),
            Err(e) => Err(e),
        }
    }

    /// `regex::Regex::is_match`. Claimed: the result is
    /// `regex_is_match(self@, haystack)`, which holds because `self` was
    /// compiled from `self@`.
    #[verifier::external_body]
    fn is_match(&self, haystack: &str) -> (res: bool)
        ensures
            res == regex_is_match(self@, haystack@),
    {
        self.compiled.is_match(haystack)
    }
}

// ---------------------------------------------------------------------------
// The text filter
// ---------------------------------------------------------------------------

/// Which lines a text filter lets through.
#[derive(Debug, Clone)]
pub enum Filter {
    /// Every line (the filter of the empty pattern).
    All,
    /// Lines whose ASCII-lower-cased raw text contains this (lower-cased) text.
    Substring(String),
    /// Lines in which this case-insensitive regular expression matches.
    Regex(PatternRegex),
}

/// The mathematical content of a `Filter`.
pub enum FilterView {
    All,
    Substring(Seq<char>),
    Regex(Seq<char>),
}

impl View for Filter {
    type V = FilterView;

    open spec fn view(&self) -> FilterView {
        match self {
            Filter::All => FilterView::All,
            Filter::Substring(s) => FilterView::Substring(s@),
            Filter::Regex(r) => FilterView::Regex(r@),
        }
    }
}

/// The pattern actually compiled for a filter text: case-insensitive.
pub open spec fn case_insensitive(pattern: Seq<char>) -> Seq<char> {
    "(?i)"@ + pattern
}

/// The filter that a filter text stands for: nothing for the empty text;
/// the case-insensitive regular expression when it compiles; else the
/// lower-cased text as a plain substring.
pub open spec fn filter_for(pattern: Seq<char>) -> FilterView {
    if pattern.len() == 0 {
        FilterView::All
    } else if regex_compiles(case_insensitive(pattern)) {
        FilterView::Regex(case_insensitive(pattern))
    } else {
        FilterView::Substring(lower_text(pattern))
    }
}

/// Whether a filter lets a line with raw text `raw` through.
pub open spec fn filter_accepts(f: FilterView, raw: Seq<char>) -> bool {
    match f {
        FilterView::All => true,
        FilterView::Substring(needle) => contains_text(lower_text(raw), needle),
        FilterView::Regex(p) => regex_is_match(p, raw),
    }
}

impl Filter {
    /// Tries `pattern` as a case-insensitive regular expression and falls
    /// back to a case-insensitive substring when it does not compile; the
    /// empty pattern lets every line through.
    pub fn new(pattern: &str) -> (res: Filter)
        ensures
            res@ == filter_for(pattern@),
    {
        if pattern.is_empty() {
            return Filter::All;
        }
        let mut full = "(?i)".to_owned();
        full.append(pattern);
        match PatternRegex::compile(full.as_str()) {
            Ok(re) => Filter::Regex(re),
            Err(_) => Filter::Substring(to_ascii_lowercase(pattern)),
        }
    }

    /// Whether the filter lets `line` through; it looks at the raw text.
    pub fn matches(&self, line: &LogLine) -> (res: bool)
        ensures
            res == filter_accepts(self@, line@.raw),
    {
        match self {
            Filter::All => true,
            Filter::Substring(needle) => {
                let lower = to_ascii_lowercase(line.raw.as_str());
                contains_chars(&chars_of(lower.as_str()), &chars_of(needle.as_str()))
            },
            Filter::Regex(re) => re.is_match(line.raw.as_str()),
        }
    }
}

// ---------------------------------------------------------------------------
// The level floor
// ---------------------------------------------------------------------------


/// The empty filter text lets every line through.
pub proof fn lemma_empty_pattern_shows_everything(raw: Seq<char>)
    ensures
        filter_accepts(filter_for(Seq::empty()), raw),
{
}

/// A filter text that does not compile as a regular expression filters as
/// a plain substring, ignoring ASCII case on both sides.
pub proof fn lemma_invalid_regex_is_substring(pattern: Seq<char>, raw: Seq<char>)
    requires
        pattern.len() > 0,
        !regex_compiles(case_insensitive(pattern)),
    ensures
        filter_accepts(filter_for(pattern), raw) == contains_text(lower_text(raw), lower_text(pattern)),
{
}

/// A non-empty filter text whose case-insensitive form, `(?i)` followed by
/// the text and nothing else, compiles filters by exactly that expression:
/// a raw line passes when the expression matches somewhere in it, and only
/// then.
pub proof fn lemma_compiling_pattern_is_case_insensitive_regex(pattern: Seq<char>, raw: Seq<char>)
    requires
        pattern.len() > 0,
        regex_compiles(seq!['(', '?', 'i', ')'] + pattern),
    ensures
        filter_accepts(filter_for(pattern), raw) == regex_is_match(
            seq!['(', '?', 'i', ')'] + pattern,
            raw,
        ),
{
    reveal_strlit("(?i)");
    assert(case_insensitive(pattern) =~= seq!['(', '?', 'i', ')'] + pattern);
}

/// A non-empty filter text whose case-insensitive form does not compile
/// filters as its ASCII-lower-cased text, looked for in the ASCII-lower-cased
/// raw line.
pub proof fn lemma_failing_pattern_is_lower_case_substring(pattern: Seq<char>, raw: Seq<char>)
    requires
        pattern.len() > 0,
        !regex_compiles(seq!['(', '?', 'i', ')'] + pattern),
    ensures
        filter_accepts(filter_for(pattern), raw) == contains_text(lower_text(raw), lower_text(pattern)),
{
    reveal_strlit("(?i)");
    assert(case_insensitive(pattern) =~= seq!['(', '?', 'i', ')'] + pattern);
}

/// A line whose level reads `TRACE`, in any case, ranks lowest: it passes a
/// `TRACE` floor and every higher floor hides it.
pub proof fn lemma_trace_lines_rank_lowest(level: Seq<char>, floor: Seq<char>)
    requires
        upper_text(level) == "TRACE"@,
        floor == "DEBUG"@ || floor == "INFO"@ || floor == "WARN"@ || floor == "ERROR"@ || floor
            == "FATAL"@,
    ensures
        !passes_floor(Some(normalized_level(level)), Some(floor)),
        passes_floor(Some(normalized_level(level)), Some("TRACE"@)),
{
    reveal_strlit("TRACE");
    reveal_strlit("DEBUG");
    reveal_strlit("INFO");
    reveal_strlit("WARN");
    reveal_strlit("WARNING");
    reveal_strlit("ERROR");
    reveal_strlit("LOG");
    reveal_strlit("FATAL");
    assert("TRACE"@.len() != "WARNING"@.len() && "TRACE"@.len() != "LOG"@.len());
    assert(normalized_level(level) == "TRACE"@);
    assert(rank_of("TRACE"@) == 0);
    assert("DEBUG"@[0] != "TRACE"@[0] && "ERROR"@[0] != "TRACE"@[0] && "FATAL"@[0] != "TRACE"@[0]);
    assert("INFO"@.len() != "TRACE"@.len() && "WARN"@.len() != "TRACE"@.len());
}

/// Levels rank `TRACE` < `DEBUG` < `INFO` < `WARN` < `ERROR` < `FATAL`, and
/// any other level text ranks as `INFO`.
pub proof fn lemma_level_ranks_ordered(other: Seq<char>)
    requires
        other != "TRACE"@ && other != "DEBUG"@ && other != "INFO"@ && other != "WARN"@ && other
            != "ERROR"@ && other != "FATAL"@,
    ensures
        rank_of("TRACE"@) < rank_of("DEBUG"@),
        rank_of("DEBUG"@) < rank_of("INFO"@),
        rank_of("INFO"@) < rank_of("WARN"@),
        rank_of("WARN"@) < rank_of("ERROR"@),
        rank_of("ERROR"@) < rank_of("FATAL"@),
        rank_of(other) == rank_of("INFO"@),
{
    reveal_strlit("TRACE");
    reveal_strlit("DEBUG");
    reveal_strlit("INFO");
    reveal_strlit("WARN");
    reveal_strlit("ERROR");
    reveal_strlit("FATAL");
    assert("DEBUG"@[0] != "TRACE"@[0]);
    assert("INFO"@.len() != "TRACE"@.len() && "INFO"@.len() != "DEBUG"@.len());
    assert("WARN"@.len() != "TRACE"@.len() && "WARN"@.len() != "DEBUG"@.len() && "WARN"@[0] != "INFO"@[0]);
    assert("ERROR"@[0] != "TRACE"@[0] && "ERROR"@[0] != "DEBUG"@[0] && "ERROR"@.len() != "INFO"@.len());
    assert("ERROR"@.len() != "WARN"@.len());
    assert("FATAL"@[0] != "TRACE"@[0] && "FATAL"@[0] != "DEBUG"@[0] && "FATAL"@[0] != "ERROR"@[0]);
    assert("FATAL"@.len() != "INFO"@.len() && "FATAL"@.len() != "WARN"@.len());
}

/// A substring filter ignores ASCII case in the line: two lines equal up to
/// ASCII case are both shown or both hidden.
pub proof fn lemma_substring_ignores_case(needle: Seq<char>, raw1: Seq<char>, raw2: Seq<char>)
    requires
        lower_text(raw1) == lower_text(raw2),
    ensures
        filter_accepts(FilterView::Substring(needle), raw1) == filter_accepts(
            FilterView::Substring(needle),
            raw2,
        ),
{
}

/// A level floor never hides a line whose level could not be parsed.
pub proof fn lemma_floor_keeps_unparsed(floor: Option<Seq<char>>)
    ensures
        passes_floor(None, floor),
{
}

/// Without a floor every line passes; with one, a line passes exactly when
/// its level ranks at least as high as the floor.
pub proof fn lemma_floor_by_rank(level: Seq<char>, floor: Option<Seq<char>>)
    ensures
        floor is None ==> passes_floor(Some(level), floor),
        floor matches Some(f) ==> (passes_floor(Some(level), floor) <==> rank_of(level) >= rank_of(
            f,
        )),
{
}

/// The rank of a level keyword: `TRACE` 0, `DEBUG` 1, `INFO` 2, `WARN` 3,
/// `ERROR` 4, `FATAL` 5; any other text ranks as `INFO`.
pub open spec fn rank_of(level: Seq<char>) -> u8 {
    if level == "TRACE"@ {
        0
    } else if level == "DEBUG"@ {
        1
    } else if level == "INFO"@ {
        2
    } else if level == "WARN"@ {
        3
    } else if level == "ERROR"@ {
        4
    } else if level == "FATAL"@ {
        5
    } else {
        2
    }
}

/// The rank of a level keyword (see `rank_of`).
pub fn level_rank(level: &str) -> (res: u8)
    ensures
        res == rank_of(level@),
{
    if same_text(level, "TRACE") {
        0
    } else if same_text(level, "DEBUG") {
        1
    } else if same_text(level, "INFO") {
        2
    } else if same_text(level, "WARN") {
        3
    } else if same_text(level, "ERROR") {
        4
    } else if same_text(level, "FATAL") {
        5
    } else {
        2
    }
}

/// The characters of an optional string slice.
pub open spec fn opt_str(o: Option<&str>) -> Option<Seq<char>> {
    match o {
        Some(s) => Some(s@),
        None => None,
    }
}

/// Whether a line of level `level` is shown under the floor `floor`: with
/// no floor, or with no parsed level, always; else when its rank is at
/// least the floor's.
pub open spec fn passes_floor(level: Option<Seq<char>>, floor: Option<Seq<char>>) -> bool {
    match (floor, level) {
        (None, _) => true,
        (Some(_), None) => true,
        (Some(f), Some(l)) => rank_of(l) >= rank_of(f),
    }
}

/// Whether `line` is shown under the level floor `floor`. A line whose level
/// could not be parsed is never hidden by a floor.
pub fn passes_level_floor(line: &LogLine, floor: Option<&str>) -> (res: bool)
    ensures
        res == passes_floor(line@.level, opt_str(floor)),
{
    match (floor, &line.level) {
        (None, _) => true,
        (Some(_), None) => true,
        (Some(floor), Some(level)) => level_rank(level.as_str()) >= level_rank(floor),
    }
}

} // verus!
