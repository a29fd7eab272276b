//! Event decoding: turning one complete frame into its payload.
//!
//! A frame is split into lines; every line that starts with the `data:`
//! marker contributes its content (the bytes after the marker, trimmed of
//! surrounding whitespace). A frame with no data lines carries no payload;
//! otherwise the payload is the contents joined by single newlines, in their
//! original order.
use vstd::prelude::*;

use crate::frames::{take_range, views_of, NL};

verus! {

/// Position of the first newline of `s` at or after `from`, if any.
pub open spec fn first_nl_from(s: Seq<u8>, from: int) -> Option<int>
    decreases s.len() - from,
{
    if from < 0 || from >= s.len() {
        None
    } else if s[from] == NL {
        Some(from)
    } else {
        first_nl_from(s, from + 1)
    }
}

/// Position of the first newline of `s`, if any.
pub open spec fn first_nl(s: Seq<u8>) -> Option<int> {
    first_nl_from(s, 0)
}

/// `first_nl_from` returns the least newline position at or after `from`,
/// and `None` exactly when there is none.
pub proof fn lemma_first_nl_from(s: Seq<u8>, from: int)
    requires
        0 <= from,
    ensures
        match first_nl_from(s, from) {
            Some(i) => from <= i < s.len() && s[i] == NL && (forall|j: int|
                from <= j < i ==> s[j] != NL),
            None => forall|j: int| from <= j < s.len() ==> s[j] != NL,
        },
    decreases s.len() - from,
{
    if from >= s.len() {
    } else if s[from] == NL {
    } else {
        lemma_first_nl_from(s, from + 1);
    }
}

/// The lines of `s`: the segments between newlines. A sequence without a
/// newline is a single line; a trailing newline yields a final empty line.
pub open spec fn lines_of(s: Seq<u8>) -> Seq<Seq<u8>>
    decreases s.len() via lines_of_decreases
{
    match first_nl(s) {
        Some(i) => seq![s.subrange(0, i)] + lines_of(s.subrange(i + 1, s.len() as int)),
        None => seq![s],
    }
}

#[via_fn]
proof fn lines_of_decreases(s: Seq<u8>) {
    lemma_first_nl_from(s, 0);
}

/// ASCII whitespace: tab through carriage return, and space.
pub open spec fn is_ws(b: u8) -> bool {
    b == 32 || (9 <= b && b <= 13)
}

/// `s` with leading whitespace removed.
pub open spec fn trim_front(s: Seq<u8>) -> Seq<u8>
    decreases s.len(),
{
    if s.len() > 0 && is_ws(s.first()) {
        trim_front(s.drop_first())
    } else {
        s
    }
}

/// `s` with trailing whitespace removed.
pub open spec fn trim_back(s: Seq<u8>) -> Seq<u8>
    decreases s.len(),
{
    if s.len() > 0 && is_ws(s.last()) {
        trim_back(s.drop_last())
    } else {
        s
    }
}

/// `s` with surrounding whitespace removed.
pub open spec fn trim_spec(s: Seq<u8>) -> Seq<u8> {
    trim_back(trim_front(s))
}

/// A line that starts with the five marker bytes of `data:`.
pub open spec fn is_data_line(l: Seq<u8>) -> bool {
    l.len() >= 5 && l[0] == 100u8 && l[1] == 97u8 && l[2] == 116u8 && l[3] == 97u8 && l[4]
        == 58u8
}

/// The content a data line contributes: the bytes after the marker, trimmed.
pub open spec fn data_content(l: Seq<u8>) -> Seq<u8> {
    trim_spec(l.skip(5))
}

/// The contents of all data lines among `ls`, in their original order.
pub open spec fn data_payloads(ls: Seq<Seq<u8>>) -> Seq<Seq<u8>>
    decreases ls.len(),
{
    if ls.len() == 0 {
        Seq::empty()
    } else if is_data_line(ls.first()) {
        seq![data_content(ls.first())] + data_payloads(ls.drop_first())
    } else {
        data_payloads(ls.drop_first())
    }
}

/// The pieces of `xs` joined by single newlines.
pub open spec fn join_nl(xs: Seq<Seq<u8>>) -> Seq<u8>
    decreases xs.len(),
{
    if xs.len() == 0 {
        Seq::empty()
    } else if xs.len() == 1 {
        xs.first()
    } else {
        xs.first() + seq![NL] + join_nl(xs.drop_first())
    }
}

/// The payload of a frame: the joined contents of its data lines, or nothing
/// when the frame has no data line.
pub open spec fn frame_payload(f: Seq<u8>) -> Option<Seq<u8>> {
    if data_payloads(lines_of(f)).len() == 0 {
        None
    } else {
        Some(join_nl(data_payloads(lines_of(f))))
    }
}

proof fn lemma_all_non_data(ls: Seq<Seq<u8>>)
    requires
        forall|i: int| 0 <= i < ls.len() ==> !is_data_line(ls[i]),
    ensures
        data_payloads(ls) == Seq::<Seq<u8>>::empty(),
    decreases ls.len(),
{
    if ls.len() > 0 {
        lemma_all_non_data(ls.drop_first());
    }
}

/// A frame none of whose lines is a data line produces no event.
pub proof fn lemma_frame_without_data_lines(f: Seq<u8>)
    requires
        forall|i: int| 0 <= i < lines_of(f).len() ==> !is_data_line(lines_of(f)[i]),
    ensures
        frame_payload(f) is None,
{
    lemma_all_non_data(lines_of(f));
}

proof fn lemma_some_data(ls: Seq<Seq<u8>>, i: int)
    requires
        0 <= i < ls.len(),
        is_data_line(ls[i]),
    ensures
        data_payloads(ls).len() > 0,
    decreases ls.len(),
{
    if i > 0 {
        lemma_some_data(ls.drop_first(), i - 1);
    }
}

/// A frame with at least one data line produces exactly one payload: the
/// contents of its data lines joined by newlines, in their original order.
pub proof fn lemma_frame_with_data_line(f: Seq<u8>, i: int)
    requires
        0 <= i < lines_of(f).len(),
        is_data_line(lines_of(f)[i]),
    ensures
        frame_payload(f) == Some(join_nl(data_payloads(lines_of(f)))),
{
    lemma_some_data(lines_of(f), i);
}

proof fn lemma_trim_front_range(s: Seq<u8>, k: int)
    requires
        0 <= k <= s.len(),
        forall|j: int| 0 <= j < k ==> is_ws(s[j]),
        k < s.len() ==> !is_ws(s[k]),
    ensures
        trim_front(s) == s.skip(k),
    decreases k,
{
    if k == 0 {
        assert(s.skip(0) =~= s);
    } else {
        lemma_trim_front_range(s.drop_first(), k - 1);
        assert(s.drop_first().skip(k - 1) =~= s.skip(k));
    }
}

proof fn lemma_trim_back_range(s: Seq<u8>, m: int)
    requires
        0 <= m <= s.len(),
        forall|j: int| m <= j < s.len() ==> is_ws(s[j]),
        m > 0 ==> !is_ws(s[m - 1]),
    ensures
        trim_back(s) == s.take(m),
    decreases s.len() - m,
{
    if m == s.len() {
        assert(s.take(m) =~= s);
    } else {
        lemma_trim_back_range(s.drop_last(), m);
        assert(s.drop_last().take(m) =~= s.take(m));
    }
}

/// Whether `b` is ASCII whitespace.
fn is_ws_byte(b: u8) -> (r: bool)
    ensures
        r == is_ws(b),
{
    b == 32 || (9 <= b && b <= 13)
}

/// Removes surrounding whitespace from `v`.
fn trim_bytes(v: &Vec<u8>) -> (r: Vec<u8>)
    ensures
        r@ == trim_spec(v@),
{
    let mut a: usize = 0;
    while a < v.len() && is_ws_byte(v[a])
        invariant
            a <= v@.len(),
            forall|j: int| 0 <= j < a ==> is_ws(v@[j]),
        decreases v@.len() - a,
    {
        a = a + 1;
    }
    let mut b: usize = v.len();
    while b > a && is_ws_byte(v[b - 1])
        invariant
            a <= b <= v@.len(),
            forall|j: int| b <= j < v@.len() ==> is_ws(v@[j]),
        decreases b,
    {
        b = b - 1;
    }
    proof {
        lemma_trim_front_range(v@, a as int);
        lemma_trim_back_range(v@.skip(a as int), b - a);
        assert(v@.skip(a as int).take(b - a) =~= v@.subrange(a as int, b as int));
    }
    take_range(v, a, b)
}

/// Finds the first newline in `v`, if any.
fn find_nl(v: &Vec<u8>) -> (r: Option<usize>)
    ensures
        match r {
            Some(i) => first_nl(v@) == Some(i as int),
            None => first_nl(v@) is None,
        },
{
    let mut j: usize = 0;
    while j < v.len()
        invariant
            j <= v@.len(),
            first_nl(v@) == first_nl_from(v@, j as int),
        decreases v@.len() - j,
    {
        if v[j] == NL {
            return Some(j);
        }
        j = j + 1;
    }
    None
}

/// Splits a frame into its lines.
pub fn split_lines(frame: &Vec<u8>) -> (lines: Vec<Vec<u8>>)
    ensures
        views_of(lines@) == lines_of(frame@),
{
    let flen = frame.len();
    let mut cur: Vec<u8> = take_range(frame, 0, flen);
    let mut acc: Vec<Vec<u8>> = Vec::new();
    proof {
        assert(cur@ =~= frame@);
        assert(views_of(acc@) + lines_of(cur@) =~= lines_of(frame@));
    }
    loop
        invariant_except_break
            views_of(acc@) + lines_of(cur@) == lines_of(frame@),
        ensures
            views_of(acc@) == lines_of(frame@),
        decreases cur@.len(),
    {
        match find_nl(&cur) {
            None => {
                let ghost prev_acc = acc@;
                let ghost prev_cur = cur@;
                acc.push(cur);
                proof {
                    assert(views_of(acc@) =~= views_of(prev_acc).push(prev_cur));
                    assert(views_of(acc@) =~= views_of(prev_acc) + lines_of(prev_cur));
                }
                break ;
            }
            Some(i) => {
                proof {
                    lemma_first_nl_from(cur@, 0);
                }
                let ghost prev_acc = acc@;
                let ghost prev_cur = cur@;
                let line = take_range(&cur, 0, i);
                let ghost lv = line@;
                let end = cur.len();
                let tail = take_range(&cur, i + 1, end);
                cur = tail;
                acc.push(line);
                proof {
                    assert(lines_of(prev_cur) == seq![prev_cur.subrange(0, i as int)] + lines_of(
                        cur@,
                    ));
                    assert(views_of(acc@) =~= views_of(prev_acc).push(lv));
                    assert(views_of(acc@) + lines_of(cur@) =~= views_of(prev_acc) + lines_of(
                        prev_cur,
                    ));
                }
            }
        }
    }
    acc
}

/// Whether `line` starts with the `data:` marker.
fn is_data_line_exec(line: &Vec<u8>) -> (r: bool)
    ensures
        r == is_data_line(line@),
{
    line.len() >= 5 && line[0] == 100 && line[1] == 97 && line[2] == 116 && line[3] == 97
        && line[4] == 58
}

proof fn lemma_join_push(xs: Seq<Seq<u8>>, x: Seq<u8>)
    requires
        xs.len() >= 1,
    ensures
        join_nl(xs.push(x)) == join_nl(xs) + seq![NL] + x,
    decreases xs.len(),
{
    let p = xs.push(x);
    if xs.len() == 1 {
        assert(p.drop_first() =~= seq![x]);
        assert(join_nl(seq![x]) == x);
        assert(join_nl(p) =~= join_nl(xs) + seq![NL] + x);
    } else {
        assert(p.drop_first() =~= xs.drop_first().push(x));
        lemma_join_push(xs.drop_first(), x);
        assert(join_nl(p) =~= join_nl(xs) + seq![NL] + x);
    }
}

/// Joins the pieces with single newlines.
fn join_lines(parts: &Vec<Vec<u8>>) -> (r: Vec<u8>)
    requires
        parts@.len() >= 1,
    ensures
        r@ == join_nl(views_of(parts@)),
{
    let first = &parts[0];
    let flen = first.len();
    let mut r = take_range(first, 0, flen);
    proof {
        assert(r@ =~= views_of(parts@).take(1).first());
        assert(join_nl(views_of(parts@).take(1)) == r@);
    }
    let mut k: usize = 1;
    while k < parts.len()
        invariant
            1 <= k <= parts@.len(),
            r@ == join_nl(views_of(parts@).take(k as int)),
        decreases parts@.len() - k,
    {
        let ghost before = views_of(parts@).take(k as int);
        r.push(NL);
        let part = &parts[k];
        let mut m: usize = 0;
        proof {
            assert(r@ =~= join_nl(before) + seq![NL] + part@.take(0));
        }
        while m < part.len()
            invariant
                m <= part@.len(),
                r@ == join_nl(before) + seq![NL] + part@.take(m as int),
            decreases part@.len() - m,
        {
            r.push(part[m]);
            m = m + 1;
            assert(r@ =~= join_nl(before) + seq![NL] + part@.take(m as int));
        }
        proof {
            lemma_join_push(before, part@);
            assert(part@.take(part@.len() as int) =~= part@);
            assert(before.push(part@) =~= views_of(parts@).take(k as int + 1));
        }
        k = k + 1;
    }
    proof {
        assert(views_of(parts@).take(parts@.len() as int) =~= views_of(parts@));
    }
    r
}

/// Extracts the payload of one frame: the trimmed contents of its `data:`
/// lines joined by newlines, or nothing when the frame has no data line.
pub fn extract_payload(frame: &Vec<u8>) -> (r: Option<Vec<u8>>)
    ensures
        match r {
            Some(p) => frame_payload(frame@) == Some(p@),
            None => frame_payload(frame@) is None,
        },
{
    let lines = split_lines(frame);
    let ghost lviews = views_of(lines@);
    let mut parts: Vec<Vec<u8>> = Vec::new();
    let mut i: usize = 0;
    proof {
        assert(lviews.skip(0) =~= lviews);
    }
    while i < lines.len()
        invariant
            i <= lines@.len(),
            views_of(lines@) == lines_of(frame@),
            lviews == lines_of(frame@),
            data_payloads(lviews) == views_of(parts@) + data_payloads(lviews.skip(i as int)),
        decreases lines@.len() - i,
    {
        let ghost rem = lviews.skip(i as int);
        proof {
            assert(rem.len() > 0);
            assert(rem.first() == lviews[i as int]);
            assert(rem.drop_first() =~= lviews.skip(i as int + 1));
        }
        let line = &lines[i];
        let ghost prev_parts = parts@;
        if is_data_line_exec(line) {
            let llen = line.len();
            let sub = take_range(line, 5, llen);
            proof {
                assert(sub@ =~= lviews[i as int].skip(5));
            }
            let trimmed = trim_bytes(&sub);
            proof {
                assert(trimmed@ == data_content(lviews[i as int]));
            }
            parts.push(trimmed);
            proof {
                assert(views_of(parts@) =~= views_of(prev_parts).push(
                    data_content(lviews[i as int]),
                ));
                assert(views_of(parts@) + data_payloads(lviews.skip(i as int + 1))
                    =~= views_of(prev_parts) + data_payloads(rem));
            }
        }
        i = i + 1;
    }
    proof {
        assert(lviews.skip(lviews.len() as int) =~= Seq::<Seq<u8>>::empty());
        assert(views_of(parts@) + data_payloads(lviews.skip(lviews.len() as int)) =~= views_of(
            parts@,
        ));
    }
    if parts.len() == 0 {
        proof {
            assert(views_of(parts@) =~= Seq::<Seq<u8>>::empty());
        }
        None
    } else {
        let joined = join_lines(&parts);
        Some(joined)
    }
}

} // verus!
