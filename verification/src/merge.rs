//! Merging the lines of several sources into one time-ordered stream.

use vstd::multiset::Multiset;
use vstd::prelude::*;

use crate::parse::{LogLine, Timestamp};

verus! {

broadcast use vstd::seq_lib::group_to_multiset_ensures;

/// `a` is an earlier instant than `b`.
pub open spec fn instant_before(a: Timestamp, b: Timestamp) -> bool {
    a.secs < b.secs || (a.secs == b.secs && a.nanos < b.nanos)
}

/// A line with timestamp `xts` that arrived as `xseq` goes before one with
/// `yts` and `yseq`: two timestamped lines go by time, then by arrival; any
/// other pair goes by arrival alone.
pub open spec fn precedes(xts: Option<Timestamp>, xseq: u64, yts: Option<Timestamp>, yseq: u64) -> bool {
    match (xts, yts) {
        (Some(x), Some(y)) => instant_before(x, y) || (x == y && xseq < yseq),
        _ => xseq < yseq,
    }
}

/// `a` goes before `b` (see `precedes`).
pub open spec fn line_before(a: LogLine, b: LogLine) -> bool {
    precedes(a.timestamp, a.seq, b.timestamp, b.seq)
}

/// Both lines have a timestamp, or neither has.
pub open spec fn same_class(a: LogLine, b: LogLine) -> bool {
    (a.timestamp is Some) == (b.timestamp is Some)
}

/// The merge order: of any two timestamped lines the earlier (by time, then
/// arrival) comes first, and of any two lines without a timestamp the one
/// that arrived first comes first.
pub open spec fn class_ordered(s: Seq<LogLine>) -> bool {
    forall|i: int, j: int|
        0 <= i < j < s.len() && same_class(#[trigger] s[i], #[trigger] s[j]) ==> !line_before(
            s[j],
            s[i],
        )
}

/// Where `x` goes into `t` when it is moved back from position `j`: past
/// every line it goes before.
pub open spec fn insertion_point(t: Seq<LogLine>, x: LogLine, j: int) -> int
    decreases j,
{
    if j > 0 && line_before(x, t[j - 1]) {
        insertion_point(t, x, j - 1)
    } else {
        j
    }
}

/// `t` with `x` put in at its insertion point, moving back from the end.
pub open spec fn insert_line(t: Seq<LogLine>, x: LogLine) -> Seq<LogLine> {
    t.insert(insertion_point(t, x, t.len() as int), x)
}

/// `s` sorted stably under `line_before`: each line in turn inserted into
/// the sorted lines before it. Used on lines of one class, where
/// `line_before` is an order.
pub open spec fn sorted_lines(s: Seq<LogLine>) -> Seq<LogLine>
    decreases s.len(),
{
    if s.len() == 0 {
        s
    } else {
        insert_line(sorted_lines(s.drop_last()), s.last())
    }
}

/// No neighbouring pair of `s` is out of order.
pub open spec fn neighbours_in_order(s: Seq<LogLine>) -> bool {
    forall|i: int| 0 <= i < s.len() - 1 ==> !line_before(#[trigger] s[i + 1], s[i])
}

proof fn lemma_insertion_point_bounds(t: Seq<LogLine>, x: LogLine, j: int)
    requires
        0 <= j <= t.len(),
    ensures
        0 <= insertion_point(t, x, j) <= j,
        forall|k: int| insertion_point(t, x, j) <= k < j ==> line_before(x, #[trigger] t[k]),
        insertion_point(t, x, j) > 0 ==> !line_before(x, t[insertion_point(t, x, j) - 1]),
    decreases j,
{
    if j > 0 && line_before(x, t[j - 1]) {
        lemma_insertion_point_bounds(t, x, j - 1);
    }
}

/// `line_before` is never true both ways.
pub proof fn lemma_line_before_asymmetric(a: LogLine, b: LogLine)
    ensures
        !(line_before(a, b) && line_before(b, a)),
{
}

proof fn lemma_insert_keeps_order(t: Seq<LogLine>, x: LogLine)
    requires
        neighbours_in_order(t),
    ensures
        neighbours_in_order(insert_line(t, x)),
        insert_line(t, x).to_multiset() =~= t.to_multiset().insert(x),
{
    let p = insertion_point(t, x, t.len() as int);
    lemma_insertion_point_bounds(t, x, t.len() as int);
    let r = t.insert(p, x);
    assert forall|i: int| 0 <= i < r.len() - 1 implies !line_before(#[trigger] r[i + 1], r[i]) by {
        if i + 1 < p {
            assert(r[i] == t[i] && r[i + 1] == t[i + 1]);
            assert(!line_before(t[i + 1], t[i]));
        } else if i + 1 == p {
            assert(r[i + 1] == x && r[i] == t[i]);
        } else if i == p {
            assert(r[i] == x && r[i + 1] == t[i]);
            assert(line_before(x, t[i]));
            lemma_line_before_asymmetric(x, t[i]);
        } else {
            assert(r[i] == t[i - 1] && r[i + 1] == t[i]);
            assert(!line_before(t[(i - 1) + 1], t[i - 1]));
        }
    }
    assert(r.remove(p) =~= t);
    assert(r[p] == x);
    assert(r.to_multiset().remove(x) =~= t.to_multiset());
    assert(r.to_multiset().count(x) > 0);
    broadcast use vstd::multiset::group_multiset_properties;
}

proof fn lemma_sorted_lines(s: Seq<LogLine>)
    ensures
        sorted_lines(s).to_multiset() =~= s.to_multiset(),
        neighbours_in_order(sorted_lines(s)),
    decreases s.len(),
{
    if s.len() > 0 {
        lemma_sorted_lines(s.drop_last());
        lemma_insert_keeps_order(sorted_lines(s.drop_last()), s.last());
        assert(s.drop_last().push(s.last()) =~= s);
    }
}

pub(crate) fn line_before_exec(a: &LogLine, b: &LogLine) -> (res: bool)
    ensures
        res == line_before(*a, *b),
{
    match (a.timestamp, b.timestamp) {
        (Some(x), Some(y)) => x.secs < y.secs || (x.secs == y.secs && x.nanos < y.nanos) || (x.secs
            == y.secs && x.nanos == y.nanos && a.seq < b.seq),
        _ => a.seq < b.seq,
    }
}


/// Every line of `s` has a timestamp, or none has.
pub open spec fn uniformly_stamped(s: Seq<LogLine>) -> bool {
    (forall|i: int| 0 <= i < s.len() ==> (#[trigger] s[i]).timestamp is Some) || (forall|i: int|
        0 <= i < s.len() ==> (#[trigger] s[i]).timestamp is None)
}

/// No pair of `s`, near or far, is out of order.
pub open spec fn all_in_order(s: Seq<LogLine>) -> bool {
    forall|i: int, j: int| 0 <= i < j < s.len() ==> !line_before(#[trigger] s[j], #[trigger] s[i])
}

pub(crate) proof fn lemma_not_before_transitive(a: LogLine, b: LogLine, c: LogLine)
    requires
        (a.timestamp is Some && b.timestamp is Some && c.timestamp is Some) || (a.timestamp is None
            && b.timestamp is None && c.timestamp is None),
        !line_before(b, a),
        !line_before(c, b),
    ensures
        !line_before(c, a),
{
}

proof fn lemma_uniform_neighbours_all_in_order(t: Seq<LogLine>)
    requires
        uniformly_stamped(t),
        neighbours_in_order(t),
    ensures
        all_in_order(t),
{
    assert forall|i: int, j: int| 0 <= i < j < t.len() implies !line_before(
        #[trigger] t[j],
        #[trigger] t[i],
    ) by {
        lemma_chain(t, i, j);
    }
}

proof fn lemma_chain(t: Seq<LogLine>, i: int, j: int)
    requires
        uniformly_stamped(t),
        neighbours_in_order(t),
        0 <= i < j < t.len(),
    ensures
        !line_before(t[j], t[i]),
    decreases j - i,
{
    assert(!line_before(t[(j - 1) + 1], t[j - 1]));
    if i < j - 1 {
        lemma_chain(t, i, j - 1);
        lemma_not_before_transitive(t[i], t[j - 1], t[j]);
    }
}

proof fn lemma_sorted_uniform(s: Seq<LogLine>)
    requires
        uniformly_stamped(s),
    ensures
        all_in_order(sorted_lines(s)),
{
    lemma_sorted_lines(s);
    let t = sorted_lines(s);
    assert forall|k: int| 0 <= k < t.len() implies s.contains(#[trigger] t[k]) by {
        assert(t.contains(t[k]));
        assert(t.to_multiset().count(t[k]) > 0);
    }
    if forall|i: int| 0 <= i < s.len() ==> (#[trigger] s[i]).timestamp is Some {
        assert forall|k: int| 0 <= k < t.len() implies (#[trigger] t[k]).timestamp is Some by {
            assert(s.contains(t[k]));
        }
    } else {
        assert forall|k: int| 0 <= k < t.len() implies (#[trigger] t[k]).timestamp is None by {
            assert(s.contains(t[k]));
        }
    }
    lemma_uniform_neighbours_all_in_order(t);
}


// ---------------------------------------------------------------------------
// Interleaving the two classes
// ---------------------------------------------------------------------------

/// Has a timestamp.
pub open spec fn is_stamped() -> spec_fn(LogLine) -> bool {
    |l: LogLine| l.timestamp is Some
}

/// Has no timestamp.
pub open spec fn is_unstamped() -> spec_fn(LogLine) -> bool {
    |l: LogLine| l.timestamp is None
}

/// Two streams interleaved by arrival: the next line of `un` goes first
/// when it arrived before the next line of `st`.
pub open spec fn interleave(st: Seq<LogLine>, un: Seq<LogLine>) -> Seq<LogLine>
    decreases st.len() + un.len(),
{
    if st.len() == 0 {
        un
    } else if un.len() == 0 {
        st
    } else if un[0].seq < st[0].seq {
        seq![un[0]] + interleave(st, un.drop_first())
    } else {
        seq![st[0]] + interleave(st.drop_first(), un)
    }
}

/// The merged stream of `s`: the timestamped lines sorted by time and then
/// arrival, the other lines by arrival, the two interleaved by arrival
/// (`interleave`). Lines equal in their order keep their input order.
pub open spec fn merged(s: Seq<LogLine>) -> Seq<LogLine> {
    interleave(sorted_lines(s.filter(is_stamped())), sorted_lines(s.filter(is_unstamped())))
}

proof fn lemma_prepend_multiset(x: LogLine, r: Seq<LogLine>)
    ensures
        (seq![x] + r).to_multiset() =~= r.to_multiset().insert(x),
{
    broadcast use vstd::multiset::group_multiset_properties;

    let q = seq![x] + r;
    assert(q.remove(0) =~= r);
    assert(q[0] == x);
    assert(q.to_multiset().count(x) > 0);
}

proof fn lemma_interleave_multiset(st: Seq<LogLine>, un: Seq<LogLine>)
    ensures
        interleave(st, un).to_multiset() =~= st.to_multiset().add(un.to_multiset()),
    decreases st.len() + un.len(),
{
    broadcast use vstd::multiset::group_multiset_properties;

    if st.len() == 0 {
        assert(st.to_multiset() =~= Multiset::empty());
    } else if un.len() == 0 {
        assert(un.to_multiset() =~= Multiset::empty());
    } else if un[0].seq < st[0].seq {
        lemma_interleave_multiset(st, un.drop_first());
        lemma_prepend_multiset(un[0], interleave(st, un.drop_first()));
        lemma_prepend_multiset(un[0], un.drop_first());
        assert(seq![un[0]] + un.drop_first() =~= un);
    } else {
        lemma_interleave_multiset(st.drop_first(), un);
        lemma_prepend_multiset(st[0], interleave(st.drop_first(), un));
        lemma_prepend_multiset(st[0], st.drop_first());
        assert(seq![st[0]] + st.drop_first() =~= st);
    }
}

proof fn lemma_contains_by_multiset(s: Seq<LogLine>, x: LogLine)
    ensures
        s.contains(x) <==> s.to_multiset().count(x) > 0,
{
}

proof fn lemma_interleave_class_ordered(st: Seq<LogLine>, un: Seq<LogLine>)
    requires
        forall|i: int| 0 <= i < st.len() ==> (#[trigger] st[i]).timestamp is Some,
        forall|i: int| 0 <= i < un.len() ==> (#[trigger] un[i]).timestamp is None,
        all_in_order(st),
        all_in_order(un),
    ensures
        class_ordered(interleave(st, un)),
    decreases st.len() + un.len(),
{
    broadcast use vstd::multiset::group_multiset_properties;

    if st.len() == 0 {
        assert forall|i: int, j: int|
            0 <= i < j < un.len() && same_class(#[trigger] un[i], #[trigger] un[j]) implies !line_before(
            un[j],
            un[i],
        ) by {}
    } else if un.len() == 0 {
        assert forall|i: int, j: int|
            0 <= i < j < st.len() && same_class(#[trigger] st[i], #[trigger] st[j]) implies !line_before(
            st[j],
            st[i],
        ) by {}
    } else {
        let take_un = un[0].seq < st[0].seq;
        let (x, st2, un2) = if take_un {
            (un[0], st, un.drop_first())
        } else {
            (st[0], st.drop_first(), un)
        };
        assert forall|i: int| 0 <= i < st2.len() implies (#[trigger] st2[i]).timestamp is Some by {
            if !take_un {
                assert(st2[i] == st[i + 1]);
            }
        }
        assert forall|i: int| 0 <= i < un2.len() implies (#[trigger] un2[i]).timestamp is None by {
            if take_un {
                assert(un2[i] == un[i + 1]);
            }
        }
        assert forall|i: int, j: int| 0 <= i < j < st2.len() implies !line_before(
            #[trigger] st2[j],
            #[trigger] st2[i],
        ) by {
            if !take_un {
                assert(st2[i] == st[i + 1] && st2[j] == st[j + 1]);
            }
        }
        assert forall|i: int, j: int| 0 <= i < j < un2.len() implies !line_before(
            #[trigger] un2[j],
            #[trigger] un2[i],
        ) by {
            if take_un {
                assert(un2[i] == un[i + 1] && un2[j] == un[j + 1]);
            }
        }
        lemma_interleave_class_ordered(st2, un2);
        let rest = interleave(st2, un2);
        let r = interleave(st, un);
        assert(r == seq![x] + rest);
        lemma_interleave_multiset(st2, un2);
        assert forall|i: int, j: int|
            0 <= i < j < r.len() && same_class(#[trigger] r[i], #[trigger] r[j]) implies !line_before(
            r[j],
            r[i],
        ) by {
            if i > 0 {
                assert(r[i] == rest[i - 1] && r[j] == rest[j - 1]);
            } else {
                let y = r[j];
                assert(y == rest[j - 1]);
                assert(rest.contains(y));
                lemma_contains_by_multiset(rest, y);
                lemma_contains_by_multiset(st2, y);
                lemma_contains_by_multiset(un2, y);
                if take_un {
                    if st2.contains(y) {
                        let k = choose|k: int| 0 <= k < st2.len() && st2[k] == y;
                        assert(st2[k].timestamp is Some);
                    } else {
                        let k = choose|k: int| 0 <= k < un2.len() && un2[k] == y;
                        assert(un[k + 1] == y);
                        assert(!line_before(un[k + 1], un[0]));
                    }
                } else {
                    if un2.contains(y) {
                        let k = choose|k: int| 0 <= k < un2.len() && un2[k] == y;
                        assert(un2[k].timestamp is None);
                    } else {
                        let k = choose|k: int| 0 <= k < st2.len() && st2[k] == y;
                        assert(st[k + 1] == y);
                        assert(!line_before(st[k + 1], st[0]));
                    }
                }
            }
        }
    }
}

proof fn lemma_filter_split(s: Seq<LogLine>)
    ensures
        s.filter(is_stamped()).to_multiset().add(s.filter(is_unstamped()).to_multiset())
            =~= s.to_multiset(),
    decreases s.len(),
{
    broadcast use vstd::multiset::group_multiset_properties;

    reveal_with_fuel(Seq::filter, 1);
    if s.len() > 0 {
        lemma_filter_split(s.drop_last());
        assert(s.drop_last().push(s.last()) =~= s);
    } else {
        assert(s.filter(is_stamped()) =~= s);
        assert(s.filter(is_unstamped()) =~= s);
    }
}

proof fn lemma_filter_class(s: Seq<LogLine>)
    ensures
        forall|i: int|
            0 <= i < s.filter(is_stamped()).len() ==> (#[trigger] s.filter(is_stamped())[i]).timestamp is Some,
        forall|i: int|
            0 <= i < s.filter(is_unstamped()).len() ==> (#[trigger] s.filter(
                is_unstamped(),
            )[i]).timestamp is None,
{
    broadcast use vstd::seq_lib::group_filter_ensures;

    assert forall|i: int| 0 <= i < s.filter(is_stamped()).len() implies (#[trigger] s.filter(
        is_stamped(),
    )[i]).timestamp is Some by {
        s.lemma_filter_pred(is_stamped(), i);
    }
    assert forall|i: int| 0 <= i < s.filter(is_unstamped()).len() implies (#[trigger] s.filter(
        is_unstamped(),
    )[i]).timestamp is None by {
        s.lemma_filter_pred(is_unstamped(), i);
    }
}

/// The merged stream holds exactly the input lines, and is in merge order:
/// timestamped lines by time and then arrival, the other lines by arrival.
pub proof fn lemma_merged(s: Seq<LogLine>)
    ensures
        merged(s).to_multiset() =~= s.to_multiset(),
        class_ordered(merged(s)),
{
    broadcast use vstd::multiset::group_multiset_properties;

    let a = s.filter(is_stamped());
    let b = s.filter(is_unstamped());
    lemma_filter_class(s);
    lemma_filter_split(s);
    assert(uniformly_stamped(a));
    assert(uniformly_stamped(b));
    lemma_sorted_uniform(a);
    lemma_sorted_uniform(b);
    lemma_sorted_lines(a);
    lemma_sorted_lines(b);
    let sa = sorted_lines(a);
    let sb = sorted_lines(b);
    assert forall|i: int| 0 <= i < sa.len() implies (#[trigger] sa[i]).timestamp is Some by {
        assert(sa.contains(sa[i]));
        lemma_contains_by_multiset(sa, sa[i]);
        lemma_contains_by_multiset(a, sa[i]);
        let k = choose|k: int| 0 <= k < a.len() && a[k] == sa[i];
    }
    assert forall|i: int| 0 <= i < sb.len() implies (#[trigger] sb[i]).timestamp is None by {
        assert(sb.contains(sb[i]));
        lemma_contains_by_multiset(sb, sb[i]);
        lemma_contains_by_multiset(b, sb[i]);
        let k = choose|k: int| 0 <= k < b.len() && b[k] == sb[i];
    }
    lemma_interleave_class_ordered(sa, sb);
    lemma_interleave_multiset(sa, sb);
}

// ---------------------------------------------------------------------------
// Executable merge
// ---------------------------------------------------------------------------

/// The lines of `v` in reverse order, so that popping yields them in order.
fn reversed(v: Vec<LogLine>) -> (res: Vec<LogLine>)
    ensures
        res@.len() == v@.len(),
        forall|k: int| 0 <= k < res@.len() ==> #[trigger] res@[k] == v@[v@.len() - 1 - k],
{
    let ghost input = v@;
    let mut rest = v;
    let mut res: Vec<LogLine> = Vec::new();
    while rest.len() > 0
        invariant
            res@.len() + rest@.len() == input.len(),
            rest@ == input.take(rest@.len() as int),
            forall|k: int| 0 <= k < res@.len() ==> #[trigger] res@[k] == input[input.len() - 1 - k],
        decreases rest@.len(),
    {
        let x = rest.pop().unwrap();
        res.push(x);
        assert(rest@ =~= input.take(rest@.len() as int));
    }
    res
}

/// `v` sorted stably by `line_before` (see `sorted_lines`).
fn sort_lines(v: Vec<LogLine>) -> (res: Vec<LogLine>)
    ensures
        res@ == sorted_lines(v@),
{
    let ghost input = v@;
    let n = v.len();
    let mut rev = reversed(v);
    let mut res: Vec<LogLine> = Vec::new();
    let mut i: usize = 0;
    while rev.len() > 0
        invariant
            i + rev@.len() == input.len(),
            input.len() == n,
            forall|k: int| 0 <= k < rev@.len() ==> #[trigger] rev@[k] == input[input.len() - 1 - k],
            res@ == sorted_lines(input.take(i as int)),
        decreases rev@.len(),
    {
        let x = rev.pop().unwrap();
        assert(x == input[i as int]);
        let ghost t = res@;
        let mut j = res.len();
        while j > 0 && line_before_exec(&x, &res[j - 1])
            invariant
                res@ == t,
                j <= res.len(),
                insertion_point(t, x, t.len() as int) == insertion_point(t, x, j as int),
            decreases j,
        {
            j = j - 1;
        }
        res.insert(j, x);
        assert(input.take(i + 1).drop_last() =~= input.take(i as int));
        assert(input.take(i + 1).last() == x);
        i = i + 1;
    }
    assert(input.take(i as int) =~= input);
    res
}

/// Merges lines from however many sources into one time-ordered stream.
/// Lines that both have a timestamp go by it (then by arrival); lines
/// without one keep their arrival order (`seq`) among themselves; the two
/// kinds are interleaved by arrival (see `merged`).
pub fn merge_sorted(lines: Vec<LogLine>) -> (res: Vec<LogLine>)
    ensures
        res@ == merged(lines@),
        res@.to_multiset() == lines@.to_multiset(),
        class_ordered(res@),
{
    let ghost input = lines@;
    let n = lines.len();
    let mut rev = reversed(lines);
    let mut st: Vec<LogLine> = Vec::new();
    let mut un: Vec<LogLine> = Vec::new();
    let mut i: usize = 0;
    while rev.len() > 0
        invariant
            i + rev@.len() == input.len(),
            input.len() == n,
            forall|k: int| 0 <= k < rev@.len() ==> #[trigger] rev@[k] == input[input.len() - 1 - k],
            st@ == input.take(i as int).filter(is_stamped()),
            un@ == input.take(i as int).filter(is_unstamped()),
        decreases rev@.len(),
    {
        let x = rev.pop().unwrap();
        assert(x == input[i as int]);
        assert(input.take(i + 1).drop_last() =~= input.take(i as int));
        assert(input.take(i + 1).last() == x);
        reveal_with_fuel(Seq::filter, 1);
        if x.timestamp.is_some() {
            st.push(x);
        } else {
            un.push(x);
        }
        i = i + 1;
    }
    assert(input.take(i as int) =~= input);
    let sa = sort_lines(st);
    let sb = sort_lines(un);
    let ghost a = sa@;
    let ghost b = sb@;
    let na = sa.len();
    let nb = sb.len();
    let mut ra = reversed(sa);
    let mut rb = reversed(sb);
    let mut res: Vec<LogLine> = Vec::new();
    let mut ia: usize = 0;
    let mut ib: usize = 0;
    assert(a.skip(0) =~= a);
    assert(b.skip(0) =~= b);
    assert(res@ + interleave(a.skip(0), b.skip(0)) =~= interleave(a, b));
    while ra.len() > 0 || rb.len() > 0
        invariant
            ia + ra@.len() == a.len(),
            ib + rb@.len() == b.len(),
            a.len() == na,
            b.len() == nb,
            forall|k: int| 0 <= k < ra@.len() ==> #[trigger] ra@[k] == a[a.len() - 1 - k],
            forall|k: int| 0 <= k < rb@.len() ==> #[trigger] rb@[k] == b[b.len() - 1 - k],
            res@ + interleave(a.skip(ia as int), b.skip(ib as int)) == interleave(a, b),
        decreases ra@.len() + rb@.len(),
    {
        let ghost ta = a.skip(ia as int);
        let ghost tb = b.skip(ib as int);
        let take_un = if ra.len() == 0 {
            true
        } else if rb.len() == 0 {
            false
        } else {
            rb[rb.len() - 1].seq < ra[ra.len() - 1].seq
        };
        if take_un {
            let x = rb.pop().unwrap();
            assert(x == tb[0]);
            assert(tb.drop_first() =~= b.skip(ib + 1));
            assert(interleave(ta, tb) == seq![x] + interleave(ta, tb.drop_first()));
            assert(res@.push(x) + interleave(ta, b.skip(ib + 1)) =~= res@ + interleave(ta, tb));
            res.push(x);
            ib = ib + 1;
        } else {
            let x = ra.pop().unwrap();
            assert(x == ta[0]);
            assert(ta.drop_first() =~= a.skip(ia + 1));
            assert(interleave(ta, tb) == seq![x] + interleave(ta.drop_first(), tb));
            assert(res@.push(x) + interleave(a.skip(ia + 1), tb) =~= res@ + interleave(ta, tb));
            res.push(x);
            ia = ia + 1;
        }
    }
    assert(interleave(a.skip(ia as int), b.skip(ib as int)) =~= Seq::<LogLine>::empty());
    assert(res@ =~= interleave(a, b));
    proof {
        lemma_merged(input);
    }
    res
}

} // verus!
