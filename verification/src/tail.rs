//! Cutting the bytes appended to a followed file into complete lines. A
//! trailing piece that has no line feed yet is held back until a later chunk
//! completes it.

use vstd::prelude::*;
use vstd::utf8::{decode_utf8, encode_scalar, encode_utf8, valid_utf8};

use crate::text::{chars_of, string_of};

verus! {

/// The first position at or after `i` that holds a line feed, or the end.
pub open spec fn line_feed_from(b: Seq<u8>, i: int) -> int
    decreases b.len() - i,
{
    if i < 0 || i >= b.len() {
        b.len() as int
    } else if b[i] == 10 {
        i
    } else {
        line_feed_from(b, i + 1)
    }
}

pub proof fn lemma_line_feed_from(b: Seq<u8>, i: int)
    requires
        0 <= i <= b.len(),
    ensures
        i <= line_feed_from(b, i) <= b.len(),
        forall|k: int| i <= k < line_feed_from(b, i) ==> b[k] != 10,
        line_feed_from(b, i) < b.len() ==> b[line_feed_from(b, i)] == 10,
    decreases b.len() - i,
{
    if i < b.len() && b[i] != 10 {
        lemma_line_feed_from(b, i + 1);
    }
}

proof fn lemma_line_feed_found(b: Seq<u8>, i: int, j: int)
    requires
        0 <= i <= j <= b.len(),
        forall|k: int| i <= k < j ==> b[k] != 10,
        j == b.len() || b[j] == 10,
    ensures
        line_feed_from(b, i) == j,
    decreases j - i,
{
    if i < j {
        lemma_line_feed_found(b, i + 1, j);
    }
}

/// The complete lines of `b`: the pieces that a line feed ends, in order,
/// without their line feeds.
pub open spec fn line_segments(b: Seq<u8>) -> Seq<Seq<u8>>
    decreases b.len(),
{
    let k = line_feed_from(b, 0);
    if k >= b.len() {
        Seq::empty()
    } else {
        proof {
            lemma_line_feed_from(b, 0);
        }
        seq![b.take(k)] + line_segments(b.skip(k + 1))
    }
}

/// What follows the last line feed of `b` (all of `b` when it has none).
pub open spec fn pending_bytes(b: Seq<u8>) -> Seq<u8>
    decreases b.len(),
{
    let k = line_feed_from(b, 0);
    if k >= b.len() {
        b
    } else {
        proof {
            lemma_line_feed_from(b, 0);
        }
        pending_bytes(b.skip(k + 1))
    }
}

/// The pieces of `segs`, each followed by a line feed, one after another.
pub open spec fn terminated(segs: Seq<Seq<u8>>) -> Seq<u8>
    decreases segs.len(),
{
    if segs.len() == 0 {
        Seq::empty()
    } else {
        segs[0] + seq![10u8] + terminated(segs.drop_first())
    }
}

/// What `String::from_utf8_lossy` makes of some bytes: their text, each
/// invalid sequence replaced by U+FFFD.
pub uninterp spec fn lossy_text(bytes: Seq<u8>) -> Seq<char>;

/// `String::from_utf8_lossy`, made an owned `String`. Claimed: the text is
/// `lossy_text(bytes)`, and for valid UTF-8 it is the decoded text.
#[verifier::external_body]
fn from_utf8_lossy(bytes: &[u8]) -> (res: String)
    ensures
        res@ == lossy_text(bytes@),
        valid_utf8(bytes@) ==> res@ == decode_utf8(bytes@),
{
    String::from_utf8_lossy(bytes).into_owned()
}

/// `s` without the carriage returns at its end.
pub open spec fn trim_carriage_returns(s: Seq<char>) -> Seq<char>
    decreases s.len(),
{
    if s.len() > 0 && s.last() == '\r' {
        trim_carriage_returns(s.drop_last())
    } else {
        s
    }
}

/// The text of one complete line: its bytes read as UTF-8 (invalid
/// sequences replaced), carriage returns at the end removed.
pub open spec fn line_text(seg: Seq<u8>) -> Seq<char> {
    trim_carriage_returns(lossy_text(seg))
}

/// The text of a complete line whose bytes are valid UTF-8: the decoded
/// characters, carriage returns at the end removed.
pub open spec fn decoded_line(seg: Seq<u8>) -> Seq<char> {
    trim_carriage_returns(decode_utf8(seg))
}

/// The texts `ts`, each followed by a line feed, one after another.
pub open spec fn joined_lines(ts: Seq<Seq<char>>) -> Seq<char>
    decreases ts.len(),
{
    if ts.len() == 0 {
        Seq::empty()
    } else {
        ts[0] + seq!['\n'] + joined_lines(ts.drop_first())
    }
}

/// The decoded texts of the complete lines of `b`.
pub open spec fn decoded_lines(b: Seq<u8>) -> Seq<Seq<char>> {
    line_segments(b).map_values(|seg: Seq<u8>| decoded_line(seg))
}

/// A line's bytes end in a carriage return.
pub open spec fn ends_in_carriage_return(seg: Seq<u8>) -> bool {
    seg.len() > 0 && seg.last() == 13
}

proof fn lemma_encode_concat(a: Seq<char>, b: Seq<char>)
    ensures
        encode_utf8(a + b) == encode_utf8(a) + encode_utf8(b),
    decreases a.len(),
{
    if a.len() == 0 {
        assert(a + b =~= b);
        assert(encode_utf8(a) + encode_utf8(b) =~= encode_utf8(b));
    } else {
        lemma_encode_concat(a.drop_first(), b);
        assert((a + b).drop_first() =~= a.drop_first() + b);
        assert(encode_utf8(a + b) =~= encode_utf8(a) + encode_utf8(b));
    }
}

proof fn lemma_encode_ascii(c: char)
    requires
        (c as u32) < 0x80,
    ensures
        encode_utf8(seq![c]) == seq![(c as u32) as u8],
{
    let u: u32 = c as u32;
    assert(u < 0x80 ==> (u & 0x7f) as u8 == u as u8) by (bit_vector);
    let one = seq![c];
    assert(one.drop_first() =~= Seq::<char>::empty());
    assert(one[0] as u32 == u);
    assert(encode_utf8(one.drop_first()) == Seq::<u8>::empty());
    assert(encode_scalar(u) == seq![(u & 0x7f) as u8]);
    assert(encode_utf8(one) == encode_scalar(u) + encode_utf8(one.drop_first()));
    assert(encode_utf8(one) =~= seq![(c as u32) as u8]);
}

proof fn lemma_decoded_keeps_last(seg: Seq<u8>)
    requires
        valid_utf8(seg),
        !ends_in_carriage_return(seg),
    ensures
        decoded_line(seg) == decode_utf8(seg),
{
    broadcast use vstd::utf8::decode_utf8_encode_utf8;

    let t = decode_utf8(seg);
    if t.len() > 0 && t.last() == '\r' {
        lemma_encode_concat(t.drop_last(), seq![t.last()]);
        assert(t.drop_last() + seq![t.last()] =~= t);
        lemma_encode_ascii('\r');
        assert(seg.last() == 13);
    }
}

proof fn lemma_trim(s: Seq<char>, j: int)
    requires
        0 <= j <= s.len(),
        forall|k: int| j <= k < s.len() ==> s[k] == '\r',
        j == 0 || s[j - 1] != '\r',
    ensures
        trim_carriage_returns(s) == s.take(j),
    decreases s.len(),
{
    if s.len() > j {
        lemma_trim(s.drop_last(), j);
        assert(s.drop_last().take(j) =~= s.take(j));
    } else {
        assert(s.take(j) =~= s);
    }
}

/// Removes the carriage returns at the end of a line's text.
pub fn trim_end_carriage_returns(s: &str) -> (res: String)
    ensures
        res@ == trim_carriage_returns(s@),
{
    let v = chars_of(s);
    let mut j = v.len();
    while j > 0 && v[j - 1] == '\r'
        invariant
            j <= v.len(),
            v@ == s@,
            forall|k: int| j <= k < v.len() ==> v@[k] == '\r',
        decreases j,
    {
        j = j - 1;
    }
    proof {
        lemma_trim(s@, j as int);
    }
    let res = string_of(&v, 0, j);
    assert(v@.subrange(0, j as int) =~= s@.take(j as int));
    res
}

/// The bytes of a followed file that came after its last line feed.
pub struct LineAssembler {
    leftover: Vec<u8>,
    cut_first: bool,
}

impl View for LineAssembler {
    type V = Seq<u8>;

    /// The bytes held back, waiting for their line feed.
    closed spec fn view(&self) -> Seq<u8> {
        self.leftover@
    }
}

fn copy_range(b: &Vec<u8>, from: usize, to: usize) -> (res: Vec<u8>)
    requires
        from <= to <= b.len(),
    ensures
        res@ == b@.subrange(from as int, to as int),
{
    let mut res: Vec<u8> = Vec::new();
    let mut i = from;
    while i < to
        invariant
            from <= i <= to <= b.len(),
            res@ == b@.subrange(from as int, i as int),
        decreases to - i,
    {
        res.push(b[i]);
        assert(b@.subrange(from as int, i + 1) =~= b@.subrange(from as int, i as int).push(
            b@[i as int],
        ));
        i = i + 1;
    }
    res
}

proof fn lemma_segments_step(b: Seq<u8>, start: int, i: int)
    requires
        0 <= start <= i < b.len(),
        b[i] == 10,
        forall|k: int| start <= k < i ==> b[k] != 10,
    ensures
        line_segments(b.skip(start)) == seq![b.subrange(start, i)] + line_segments(b.skip(i + 1)),
        pending_bytes(b.skip(start)) == pending_bytes(b.skip(i + 1)),
{
    let s = b.skip(start);
    lemma_line_feed_found(s, 0, i - start);
    assert(s.take(i - start) =~= b.subrange(start, i));
    assert(s.skip(i - start + 1) =~= b.skip(i + 1));
}

proof fn lemma_segments_end(b: Seq<u8>, start: int)
    requires
        0 <= start <= b.len(),
        forall|k: int| start <= k < b.len() ==> b[k] != 10,
    ensures
        line_segments(b.skip(start)) == Seq::<Seq<u8>>::empty(),
        pending_bytes(b.skip(start)) == b.subrange(start, b.len() as int),
{
    let s = b.skip(start);
    lemma_line_feed_found(s, 0, s.len() as int);
    assert(s =~= b.subrange(start, b.len() as int));
}

/// The bytes that count, of `b` read by an assembler: all of them, or, when
/// the first line was cut by a seek (`cut`), those after the first line
/// feed (none while there is no line feed yet).
pub open spec fn counted_bytes(cut: bool, b: Seq<u8>) -> Seq<u8> {
    if !cut {
        b
    } else if line_feed_from(b, 0) < b.len() {
        b.skip(line_feed_from(b, 0) + 1)
    } else {
        Seq::empty()
    }
}

/// The first line is still being passed over: it was cut, and its line
/// feed has not come yet.
pub open spec fn still_cut(cut: bool, b: Seq<u8>) -> bool {
    cut && line_feed_from(b, 0) >= b.len()
}

impl LineAssembler {
    /// Whether the bytes up to the first line feed are passed over, as the
    /// tail of a line whose start was not read.
    pub closed spec fn cuts_first(&self) -> bool {
        self.cut_first
    }

    /// Nothing held back.
    pub fn new() -> (res: LineAssembler)
        ensures
            res@ == Seq::<u8>::empty(),
            !res.cuts_first(),
    {
        LineAssembler { leftover: Vec::new(), cut_first: false }
    }

    /// Nothing held back, for reading that starts in the middle of a file:
    /// everything up to and including the first line feed is passed over,
    /// since the start of that line was not read.
    pub fn after_seek() -> (res: LineAssembler)
        ensures
            res@ == Seq::<u8>::empty(),
            res.cuts_first(),
    {
        LineAssembler { leftover: Vec::new(), cut_first: true }
    }

    /// Takes the bytes newly read and returns the lines they complete, each
    /// read as UTF-8 with the carriage returns at its end removed; the bytes
    /// after the last line feed are held back for the next call. While the
    /// first line is cut, its bytes are passed over (see `counted_bytes`).
    pub fn feed(&mut self, chunk: &[u8]) -> (lines: Vec<String>)
        ensures
            ({
                let b = counted_bytes(old(self).cuts_first(), old(self)@ + chunk@);
                &&& lines@.len() == line_segments(b).len()
                &&& forall|i: int|
                    0 <= i < lines@.len() ==> #[trigger] lines@[i]@ == line_text(line_segments(b)[i])
                &&& forall|i: int|
                    0 <= i < lines@.len() && valid_utf8(line_segments(b)[i]) ==> (
                    #[trigger] lines@[i])@ == decoded_line(line_segments(b)[i])
                &&& final(self)@ == pending_bytes(b)
            }),
            final(self).cuts_first() == still_cut(old(self).cuts_first(), old(self)@ + chunk@),
    {
        let mut all: Vec<u8> = Vec::new();
        all.append(&mut self.leftover);
        let mut k: usize = 0;
        while k < chunk.len()
            invariant
                k <= chunk@.len(),
                all@ == old(self)@ + chunk@.take(k as int),
            decreases chunk@.len() - k,
        {
            all.push(chunk[k]);
            assert(old(self)@ + chunk@.take(k + 1) =~= (old(self)@ + chunk@.take(k as int)).push(
                chunk@[k as int],
            ));
            k = k + 1;
        }
        assert(chunk@.take(k as int) =~= chunk@);
        if self.cut_first {
            let ghost whole = all@;
            let mut f: usize = 0;
            while f < all.len() && all[f] != 10
                invariant
                    all@ == whole,
                    f <= whole.len(),
                    forall|q: int| 0 <= q < f ==> whole[q] != 10,
                decreases whole.len() - f,
            {
                f = f + 1;
            }
            proof {
                lemma_line_feed_found(whole, 0, f as int);
            }
            if f == all.len() {
                self.leftover = Vec::new();
                return Vec::new();
            }
            all = copy_range(&all, f + 1, all.len());
            assert(all@ =~= whole.skip(f + 1));
            self.cut_first = false;
        }
        let ghost b = all@;
        assert(b.skip(0) =~= b);
        let mut lines: Vec<String> = Vec::new();
        let mut start: usize = 0;
        let mut i: usize = 0;
        while i < all.len()
            invariant
                all@ == b,
                start <= i <= b.len(),
                forall|k: int| start <= k < i ==> b[k] != 10,
                lines@.len() + line_segments(b.skip(start as int)).len() == line_segments(b).len(),
                forall|j: int|
                    0 <= j < lines@.len() ==> #[trigger] lines@[j]@ == line_text(
                        line_segments(b)[j],
                    ),
                forall|j: int|
                    0 <= j < lines@.len() && valid_utf8(line_segments(b)[j]) ==> (
                    #[trigger] lines@[j])@ == decoded_line(line_segments(b)[j]),
                forall|j: int|
                    0 <= j < line_segments(b.skip(start as int)).len() ==> #[trigger] line_segments(
                        b.skip(start as int),
                    )[j] == line_segments(b)[lines@.len() + j],
                pending_bytes(b) == pending_bytes(b.skip(start as int)),
            decreases b.len() - i,
        {
            if all[i] == 10 {
                proof {
                    lemma_segments_step(b, start as int, i as int);
                }
                let seg = copy_range(&all, start, i);
                let text = from_utf8_lossy(seg.as_slice());
                let line = trim_end_carriage_returns(text.as_str());
                assert(line_segments(b.skip(start as int))[0] == b.subrange(start as int, i as int));
                let ghost prev = lines@.len();
                assert(line_segments(b.skip(start as int))[0] == line_segments(b)[prev as int]);
                lines.push(line);
                assert forall|j: int| 0 <= j < line_segments(b.skip(i + 1)).len() implies #[trigger] line_segments(
                    b.skip(i + 1),
                )[j] == line_segments(b)[lines@.len() + j] by {
                    assert(line_segments(b.skip(i + 1))[j] == line_segments(b.skip(start as int))[j
                        + 1]);
                }
                start = i + 1;
            }
            i = i + 1;
        }
        proof {
            lemma_segments_end(b, start as int);
        }
        self.leftover = copy_range(&all, start, all.len());
        lines
    }
}


/// Nothing is lost or reordered: the complete lines, each with its line
/// feed put back, followed by the held-back bytes, are the bytes read.
pub proof fn lemma_lines_rebuild_input(b: Seq<u8>)
    ensures
        terminated(line_segments(b)) + pending_bytes(b) == b,
    decreases b.len(),
{
    lemma_line_feed_from(b, 0);
    let k = line_feed_from(b, 0);
    if k < b.len() {
        let rest = b.skip(k + 1);
        lemma_lines_rebuild_input(rest);
        let segs = line_segments(b);
        assert(segs[0] == b.take(k));
        assert(segs.drop_first() =~= line_segments(rest));
        assert(b =~= b.take(k) + seq![10u8] + rest);
        assert(terminated(segs) == b.take(k) + seq![10u8] + terminated(line_segments(rest)));
        assert(terminated(segs) + pending_bytes(b) =~= b.take(k) + seq![10u8] + (terminated(
            line_segments(rest),
        ) + pending_bytes(rest)));
    } else {
        assert(terminated(line_segments(b)) + pending_bytes(b) =~= b);
    }
}

/// Where every complete line is valid UTF-8 and none ends in a carriage
/// return, the texts of the lines, each followed by a line feed, encode
/// exactly the bytes up to and including the last line feed; the held-back
/// bytes follow them.
pub proof fn lemma_lines_rebuild_text(b: Seq<u8>)
    requires
        forall|i: int|
            0 <= i < line_segments(b).len() ==> valid_utf8(#[trigger] line_segments(b)[i])
                && !ends_in_carriage_return(line_segments(b)[i]),
    ensures
        encode_utf8(joined_lines(decoded_lines(b))) == terminated(line_segments(b)),
        encode_utf8(joined_lines(decoded_lines(b))) + pending_bytes(b) == b,
    decreases b.len(),
{
    lemma_lines_rebuild_input(b);
    lemma_line_feed_from(b, 0);
    let k = line_feed_from(b, 0);
    if k < b.len() {
        let rest = b.skip(k + 1);
        let segs = line_segments(b);
        assert(segs[0] == b.take(k));
        assert(segs.drop_first() =~= line_segments(rest));
        assert forall|i: int| 0 <= i < line_segments(rest).len() implies valid_utf8(
            #[trigger] line_segments(rest)[i],
        ) && !ends_in_carriage_return(line_segments(rest)[i]) by {
            assert(line_segments(rest)[i] == segs[i + 1]);
        }
        lemma_lines_rebuild_text(rest);
        let ts = decoded_lines(b);
        assert(ts.drop_first() =~= decoded_lines(rest));
        lemma_decoded_keeps_last(segs[0]);
        let head = decode_utf8(segs[0]);
        assert(ts[0] == head);
        lemma_encode_concat(head + seq!['\n'], joined_lines(decoded_lines(rest)));
        lemma_encode_concat(head, seq!['\n']);
        lemma_encode_ascii('\n');
        broadcast use vstd::utf8::decode_utf8_encode_utf8;
        assert(encode_utf8(head) == segs[0]);
    } else {
        assert(decoded_lines(b) =~= Seq::<Seq<char>>::empty());
    }
}

/// No complete line holds a line feed, and neither do the held-back bytes.
pub proof fn lemma_no_line_feed_inside(b: Seq<u8>)
    ensures
        forall|i: int| 0 <= i < line_segments(b).len() ==> !(#[trigger] line_segments(b)[i]).contains(
            10u8,
        ),
        !pending_bytes(b).contains(10u8),
    decreases b.len(),
{
    lemma_line_feed_from(b, 0);
    let k = line_feed_from(b, 0);
    if k < b.len() {
        let rest = b.skip(k + 1);
        lemma_no_line_feed_inside(rest);
        let segs = line_segments(b);
        assert forall|i: int| 0 <= i < segs.len() implies !(#[trigger] segs[i]).contains(10u8) by {
            if i == 0 {
                assert(segs[0] == b.take(k));
                if b.take(k).contains(10u8) {
                    let j = choose|j: int| 0 <= j < b.take(k).len() && b.take(k)[j] == 10u8;
                    assert(b[j] == 10u8);
                }
            } else {
                assert(segs[i] == line_segments(rest)[i - 1]);
            }
        }
    } else {
        if b.contains(10u8) {
            let j = choose|j: int| 0 <= j < b.len() && b[j] == 10u8;
            assert(b[j] == 10u8);
        }
    }
}

/// Reading the bytes in two chunks yields the same lines, and holds back the
/// same bytes, as reading them at once: the lines of `x`, then those of what
/// `x` held back followed by `y`, are the lines of `x + y`.
pub proof fn lemma_chunking_invariant(x: Seq<u8>, y: Seq<u8>)
    ensures
        line_segments(x) + line_segments(pending_bytes(x) + y) == line_segments(x + y),
        pending_bytes(pending_bytes(x) + y) == pending_bytes(x + y),
    decreases x.len(),
{
    lemma_line_feed_from(x, 0);
    let k = line_feed_from(x, 0);
    if k < x.len() {
        let rest = x.skip(k + 1);
        lemma_chunking_invariant(rest, y);
        let xy = x + y;
        lemma_line_feed_found(xy, 0, k);
        assert(xy.take(k) =~= x.take(k));
        assert(xy.skip(k + 1) =~= rest + y);
        assert(line_segments(x) + line_segments(pending_bytes(x) + y) =~= seq![x.take(k)] + (
        line_segments(rest) + line_segments(pending_bytes(rest) + y)));
    } else {
        assert(line_segments(x) + line_segments(pending_bytes(x) + y) =~= line_segments(x + y));
    }
}

/// The chunks `cs`, one after another.
pub open spec fn concat_chunks(cs: Seq<Seq<u8>>) -> Seq<u8>
    decreases cs.len(),
{
    if cs.len() == 0 {
        Seq::empty()
    } else {
        cs[0] + concat_chunks(cs.drop_first())
    }
}

/// The complete lines that feeding the chunks `cs` one by one returns, in
/// order, when `held` is held back at the start (see `LineAssembler::feed`).
pub open spec fn fed_segments(held: Seq<u8>, cs: Seq<Seq<u8>>) -> Seq<Seq<u8>>
    decreases cs.len(),
{
    if cs.len() == 0 {
        Seq::empty()
    } else {
        line_segments(held + cs[0]) + fed_segments(pending_bytes(held + cs[0]), cs.drop_first())
    }
}

/// What is held back after feeding the chunks `cs` one by one, starting
/// with `held`.
pub open spec fn fed_pending(held: Seq<u8>, cs: Seq<Seq<u8>>) -> Seq<u8>
    decreases cs.len(),
{
    if cs.len() == 0 {
        held
    } else {
        fed_pending(pending_bytes(held + cs[0]), cs.drop_first())
    }
}

proof fn lemma_feeds_from(held: Seq<u8>, cs: Seq<Seq<u8>>)
    requires
        !held.contains(10u8),
    ensures
        fed_segments(held, cs) == line_segments(held + concat_chunks(cs)),
        fed_pending(held, cs) == pending_bytes(held + concat_chunks(cs)),
    decreases cs.len(),
{
    if cs.len() == 0 {
        assert(held + concat_chunks(cs) =~= held);
        assert forall|k: int| 0 <= k < held.len() implies held[k] != 10 by {
            if held[k] == 10 {
                assert(held.contains(10u8));
            }
        }
        lemma_line_feed_found(held, 0, held.len() as int);
    } else {
        let x = held + cs[0];
        let rest = cs.drop_first();
        lemma_no_line_feed_inside(x);
        lemma_feeds_from(pending_bytes(x), rest);
        lemma_chunking_invariant(x, concat_chunks(rest));
        assert(x + concat_chunks(rest) =~= held + concat_chunks(cs));
    }
}

/// Feeding the bytes of a file chunk by chunk, however they are cut, yields
/// exactly the complete lines of all the bytes, in order, and holds back
/// exactly what follows their last line feed.
pub proof fn lemma_feeds_read_whole_input(cs: Seq<Seq<u8>>)
    ensures
        fed_segments(Seq::empty(), cs) == line_segments(concat_chunks(cs)),
        fed_pending(Seq::empty(), cs) == pending_bytes(concat_chunks(cs)),
{
    lemma_feeds_from(Seq::empty(), cs);
    assert(Seq::<u8>::empty() + concat_chunks(cs) =~= concat_chunks(cs));
}

/// Where to start reading a file of `file_len` bytes so that its last
/// `cap_bytes` are read, together with the byte just before them, which
/// tells whether they start a line: the start of the file when it is no
/// longer than that. Reading that starts past the start of the file passes
/// over the bytes up to the first line feed (`LineAssembler::after_seek`),
/// so that only complete lines come out.
pub fn seed_start(file_len: u64, cap_bytes: u64) -> (res: u64)
    ensures
        res == if file_len > cap_bytes {
            file_len - cap_bytes - 1
        } else {
            0
        },
        file_len - res <= cap_bytes + 1,
{
    if file_len > cap_bytes {
        file_len - cap_bytes - 1
    } else {
        0
    }
}

} // verus!
