//! Character classes and small string operations shared by the parsers and filters.

use vstd::prelude::*;

verus! {

/// Whether `c` has the Unicode `White_Space` property, the class that `\s`
/// stands for.
pub uninterp spec fn is_white_space(c: char) -> bool;

/// `char::is_whitespace`, documented as the `White_Space` property. Claimed:
/// the result is `is_white_space(c)`; among ASCII characters exactly tab,
/// line feed, vertical tab, form feed, carriage return and space have it,
/// and so does the no-break space U+00A0 (one of the documented examples).
/// The rest of the property's table is not restated.
#[verifier::external_body]
pub(crate) fn white_space(c: char) -> (res: bool)
    ensures
        res == is_white_space(c),
        (c as u32) < 128 ==> (res <==> (c == ' ' || ('\t' <= c <= '\r'))),
        c == '\u{a0}' ==> res,
{
    c.is_whitespace()
}

/// The characters of `s`, in order.
pub fn chars_of(s: &str) -> (v: Vec<char>)
    ensures
        v@ == s@,
{
    broadcast use vstd::string::group_string_axioms;
    let mut v: Vec<char> = Vec::new();
    for c in it: s.chars()
        invariant
            it.seq() == s@,
            v@ == s@.take(it.index() as int),
    {
        v.push(c);
    }
    assert(v@ =~= s@);
    v
}

/// The ranges of the Unicode class that the regular expression `pattern`
/// denotes, as the regex syntax translates it; `None` when `pattern` is not a
/// single Unicode class.
pub uninterp spec fn unicode_class_ranges(pattern: Seq<char>) -> Option<Seq<(char, char)>>;

/// `regex_syntax::parse`, reading the translated class's ranges
/// (`ClassUnicode::ranges`, each as its `start` and `end`). Claimed: the
/// result is `unicode_class_ranges(pattern)`; for `\d` (general category
/// `Nd`, with the default Unicode tables) a class comes back, and among
/// ASCII characters exactly `0` to `9` lie in it. The tables are not
/// restated.
#[verifier::external_body]
fn unicode_class(pattern: &str) -> (res: Option<Vec<(char, char)>>)
    ensures
        match res {
            Some(v) => unicode_class_ranges(pattern@) == Some(v@),
            None => unicode_class_ranges(pattern@) is None,
        },
        pattern@ == digit_pattern() ==> (res matches Some(v) && forall|c: char|
            (c as u32) < 128 ==> (#[trigger] in_ranges(v@, c) <==> '0' <= c <= '9')),
{
    match regex_syntax::parse(pattern) {
        Ok(hir) => match hir.into_kind() {
            regex_syntax::hir::HirKind::Class(regex_syntax::hir::Class::Unicode(cls)) => Some(
                cls.ranges().iter().map(|r| (r.start(), r.end())).collect(),
            ),
            _ => None,
        },
        Err(_) => None,
    }
}

/// `c` lies in one of the inclusive ranges `r`.
pub open spec fn in_ranges(r: Seq<(char, char)>, c: char) -> bool {
    exists|i: int| 0 <= i < r.len() && (#[trigger] r[i]).0 <= c <= r[i].1
}

/// The pattern `\d`.
pub open spec fn digit_pattern() -> Seq<char> {
    seq!['\\', 'd']
}

/// The ranges of `\d` (general category `Nd`, Decimal_Number), or none at
/// all should the regex syntax not yield a class for it.
pub open spec fn digit_ranges() -> Seq<(char, char)> {
    match unicode_class_ranges(digit_pattern()) {
        Some(r) => r,
        None => Seq::empty(),
    }
}

/// Whether `c` is a decimal digit, the class that `\d` stands for.
pub open spec fn is_decimal_digit(c: char) -> bool {
    in_ranges(digit_ranges(), c)
}

/// Loads the ranges of `\d`.
pub fn decimal_digit_ranges() -> (res: Vec<(char, char)>)
    ensures
        res@ == digit_ranges(),
        forall|c: char| (c as u32) < 128 ==> (#[trigger] in_ranges(res@, c) <==> '0' <= c <= '9'),
{
    let pattern = "\\d";
    proof {
        reveal_strlit("\\d");
        assert(pattern@ =~= digit_pattern());
    }
    match unicode_class(pattern) {
        Some(v) => v,
        None => Vec::new(),
    }
}

/// Decides `in_ranges`.
pub fn in_ranges_exec(r: &Vec<(char, char)>, c: char) -> (res: bool)
    ensures
        res == in_ranges(r@, c),
{
    let mut i: usize = 0;
    while i < r.len()
        invariant
            i <= r.len(),
            forall|k: int| 0 <= k < i ==> !((#[trigger] r@[k]).0 <= c <= r@[k].1),
        decreases r.len() - i,
    {
        if r[i].0 <= c && c <= r[i].1 {
            return true;
        }
        i = i + 1;
    }
    false
}

/// Decides `is_decimal_digit`, given the loaded ranges of `\d`.
pub fn decimal_digit(digits: &Vec<(char, char)>, c: char) -> (res: bool)
    requires
        digits@ == digit_ranges(),
    ensures
        res == is_decimal_digit(c),
{
    in_ranges_exec(digits, c)
}

/// Appends one character to a string (`String::push`).
#[verifier::external_body]
pub(crate) fn push_char(s: &mut String, c: char)
    ensures
        final(s)@ == old(s)@.push(c),
{
    s.push(c);
}

/// Removes the last character of a string, if any (`String::pop`).
#[verifier::external_body]
pub(crate) fn pop_char(s: &mut String) -> (res: Option<char>)
    ensures
        old(s)@.len() == 0 ==> res is None && final(s)@ == old(s)@,
        old(s)@.len() > 0 ==> res == Some(old(s)@.last()) && final(s)@ == old(s)@.drop_last(),
{
    s.pop()
}

/// The string made of `v[from..to]`.
pub fn string_of(v: &Vec<char>, from: usize, to: usize) -> (res: String)
    requires
        from <= to <= v.len(),
    ensures
        res@ == v@.subrange(from as int, to as int),
{
    let mut res = String::new();
    let mut i = from;
    while i < to
        invariant
            from <= i <= to <= v.len(),
            res@ == v@.subrange(from as int, i as int),
        decreases to - i,
    {
        push_char(&mut res, v[i]);
        assert(v@.subrange(from as int, i + 1) =~= v@.subrange(from as int, i as int).push(v@[i as int]));
        i = i + 1;
    }
    res
}

/// ASCII upper-casing of one character; every other character is kept.
pub open spec fn ascii_upper(c: char) -> char {
    if 'a' <= c <= 'z' {
        ((c as u32) - 32) as char
    } else {
        c
    }
}

/// ASCII lower-casing of one character; every other character is kept.
pub open spec fn ascii_lower(c: char) -> char {
    if 'A' <= c <= 'Z' {
        ((c as u32) + 32) as char
    } else {
        c
    }
}

/// ASCII upper-casing of a text, character by character.
pub open spec fn upper_text(s: Seq<char>) -> Seq<char> {
    s.map_values(|c: char| ascii_upper(c))
}

/// ASCII lower-casing of a text, character by character.
pub open spec fn lower_text(s: Seq<char>) -> Seq<char> {
    s.map_values(|c: char| ascii_lower(c))
}

fn upper_char(c: char) -> (res: char)
    ensures
        res == ascii_upper(c),
{
    if 'a' <= c && c <= 'z' {
        let u: u32 = c as u32 - 32;
        assert(u < 128);
        (u as u8) as char
    } else {
        c
    }
}

fn lower_char(c: char) -> (res: char)
    ensures
        res == ascii_lower(c),
{
    if 'A' <= c && c <= 'Z' {
        let u: u32 = c as u32 + 32;
        assert(u < 128);
        (u as u8) as char
    } else {
        c
    }
}

/// ASCII case mapping, character by character: upper-casing turns each
/// small ASCII letter into its capital (32 code points lower) and
/// lower-casing each capital ASCII letter into its small letter (32 code
/// points higher); every other character stays, and the length stays.
pub proof fn lemma_ascii_case_by_character(s: Seq<char>)
    ensures
        upper_text(s).len() == s.len(),
        lower_text(s).len() == s.len(),
        forall|i: int|
            0 <= i < s.len() ==> (#[trigger] upper_text(s)[i]) as u32 == if 'a' <= s[i] <= 'z' {
                (s[i] as u32) - 32
            } else {
                s[i] as int
            },
        forall|i: int|
            0 <= i < s.len() ==> (#[trigger] lower_text(s)[i]) as u32 == if 'A' <= s[i] <= 'Z' {
                (s[i] as u32) + 32
            } else {
                s[i] as int
            },
{
}

/// `str::to_ascii_uppercase`: ASCII letters upper-cased, every other character kept.
pub fn to_ascii_uppercase(s: &str) -> (res: String)
    ensures
        res@ == upper_text(s@),
{
    let v = chars_of(s);
    let mut res = String::new();
    let mut i: usize = 0;
    while i < v.len()
        invariant
            i <= v.len(),
            v@ == s@,
            res@ == upper_text(s@).take(i as int),
        decreases v.len() - i,
    {
        let c = upper_char(v[i]);
        push_char(&mut res, c);
        assert(upper_text(s@).take(i + 1) =~= upper_text(s@).take(i as int).push(c));
        i = i + 1;
    }
    assert(upper_text(s@).take(i as int) =~= upper_text(s@));
    res
}

/// `str::to_ascii_lowercase`: ASCII letters lower-cased, every other character kept.
pub fn to_ascii_lowercase(s: &str) -> (res: String)
    ensures
        res@ == lower_text(s@),
{
    let v = chars_of(s);
    let mut res = String::new();
    let mut i: usize = 0;
    while i < v.len()
        invariant
            i <= v.len(),
            v@ == s@,
            res@ == lower_text(s@).take(i as int),
        decreases v.len() - i,
    {
        let c = lower_char(v[i]);
        push_char(&mut res, c);
        assert(lower_text(s@).take(i + 1) =~= lower_text(s@).take(i as int).push(c));
        i = i + 1;
    }
    assert(lower_text(s@).take(i as int) =~= lower_text(s@));
    res
}

/// `needle` occurs in `hay` starting at position `i`.
pub open spec fn occurs_at(hay: Seq<char>, needle: Seq<char>, i: int) -> bool {
    0 <= i && i + needle.len() <= hay.len() && hay.subrange(i, i + needle.len()) == needle
}

/// `needle` occurs somewhere in `hay` (the empty text occurs in every text).
pub open spec fn contains_text(hay: Seq<char>, needle: Seq<char>) -> bool {
    exists|i: int| occurs_at(hay, needle, i)
}

pub(crate) fn occurs_at_exec(hay: &Vec<char>, needle: &Vec<char>, i: usize) -> (res: bool)
    requires
        i + needle.len() <= hay.len(),
    ensures
        res == occurs_at(hay@, needle@, i as int),
{
    let mut j: usize = 0;
    while j < needle.len()
        invariant
            i + needle.len() <= hay.len(),
            j <= needle.len(),
            forall|k: int| 0 <= k < j ==> hay@[i + k] == needle@[k],
        decreases needle.len() - j,
    {
        if hay[i + j] != needle[j] {
            assert(hay@.subrange(i as int, i + needle.len())[j as int] != needle@[j as int]);
            return false;
        }
        j = j + 1;
    }
    assert(hay@.subrange(i as int, i + needle.len()) =~= needle@);
    true
}

/// Decides whether `needle` occurs in `hay`.
pub fn contains_chars(hay: &Vec<char>, needle: &Vec<char>) -> (res: bool)
    ensures
        res == contains_text(hay@, needle@),
{
    if needle.len() > hay.len() {
        return false;
    }
    let last = hay.len() - needle.len();
    let mut i: usize = 0;
    loop
        invariant
            last == hay.len() - needle.len(),
            i <= last,
            forall|k: int| 0 <= k < i ==> !occurs_at(hay@, needle@, k),
        decreases last - i,
    {
        if occurs_at_exec(hay, needle, i) {
            return true;
        }
        if i == last {
            return false;
        }
        i = i + 1;
    }
}

/// The texts `a` and `b` are equal character for character.
pub fn same_text(a: &str, b: &str) -> (res: bool)
    ensures
        res == (a@ == b@),
{
    let va = chars_of(a);
    let vb = chars_of(b);
    if va.len() != vb.len() {
        return false;
    }
    let mut i: usize = 0;
    while i < va.len()
        invariant
            va@ == a@,
            vb@ == b@,
            va.len() == vb.len(),
            i <= va.len(),
            forall|k: int| 0 <= k < i ==> va@[k] == vb@[k],
        decreases va.len() - i,
    {
        if va[i] != vb[i] {
            return false;
        }
        i = i + 1;
    }
    assert(va@ =~= vb@);
    true
}

} // verus!
