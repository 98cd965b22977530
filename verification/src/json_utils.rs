//! Path expressions and the path-addressable tree mutator.
//!
//! A path is a dotted sequence of segments. A backslash escapes the next
//! character (so `\.` is a literal dot inside a key), an unescaped dot ends a
//! key, and `[digits]` addresses an array element.

use vstd::prelude::*;

use crate::document::{
    Document, DocV, entries_view, elems_view, lemma_entries_view, lemma_elems_view,
};
use crate::errors::RustyLangError;

verus! {

/// Model of one path segment: an object key or an array index.
pub enum SegV {
    Key(Seq<char>),
    Index(int),
}

/// One segment of a parsed path expression.
#[derive(Debug, PartialEq, Eq)]
pub enum PathSegment {
    Key(String),
    Index(usize),
}

impl DeepView for PathSegment {
    type V = SegV;

    open spec fn deep_view(&self) -> SegV {
        match self {
            PathSegment::Key(k) => SegV::Key(k@),
            PathSegment::Index(i) => SegV::Index(*i as int),
        }
    }
}

/// Is `c` a decimal digit?
pub open spec fn is_digit(c: char) -> bool {
    48 <= c as u32 <= 57
}

/// The numeric value of a digit character.
pub open spec fn digit_val(c: char) -> int {
    c as u32 - 48
}

/// Every character of `s` is a decimal digit.
pub open spec fn all_digits(s: Seq<char>) -> bool {
    forall|i: int| 0 <= i < s.len() ==> is_digit(#[trigger] s[i])
}

/// The value of a run of decimal digits, most significant first.
pub open spec fn dec_value(s: Seq<char>) -> int
    decreases s.len(),
{
    if s.len() == 0 {
        0
    } else {
        dec_value(s.drop_last()) * 10 + digit_val(s.last())
    }
}

/// A bracket body addresses an array element when it is a nonempty run of
/// decimal digits whose value fits in `usize`.
pub open spec fn is_index_body(s: Seq<char>) -> bool {
    s.len() > 0 && all_digits(s) && dec_value(s) <= usize::MAX
}

/// Position of the first `]` at or after `from`, or the end of the string.
pub open spec fn close_pos(s: Seq<char>, from: int) -> int
    decreases s.len() - from,
{
    if from >= s.len() {
        s.len() as int
    } else if s[from] == ']' {
        from
    } else {
        close_pos(s, from + 1)
    }
}

pub proof fn lemma_close_pos(s: Seq<char>, from: int)
    requires
        0 <= from <= s.len(),
    ensures
        from <= close_pos(s, from) <= s.len(),
        close_pos(s, from) < s.len() ==> s[close_pos(s, from)] == ']',
        forall|k: int| from <= k < close_pos(s, from) ==> s[k] != ']',
    decreases s.len() - from,
{
    if from < s.len() && s[from] != ']' {
        lemma_close_pos(s, from + 1);
    }
}

/// The pending key text, as a segment sequence: nothing when empty, else one key.
pub open spec fn flush(buf: Seq<char>) -> Seq<SegV> {
    if buf.len() == 0 {
        Seq::empty()
    } else {
        seq![SegV::Key(buf)]
    }
}

/// The segments denoted by `s[i..]` when scanned with pending key text `buf`.
/// `None` means the path is malformed: a bracket body that is not a plain
/// decimal index.
pub open spec fn parse_rest(s: Seq<char>, i: int, buf: Seq<char>) -> Option<Seq<SegV>>
    decreases s.len() - i,
    when 0 <= i
    via parse_rest_decreases
{
    if i >= s.len() {
        Some(flush(buf))
    } else if s[i] == '\\' {
        if i + 1 < s.len() {
            parse_rest(s, i + 2, buf.push(s[i + 1]))
        } else {
            parse_rest(s, i + 1, buf.push('\\'))
        }
    } else if s[i] == '.' {
        match parse_rest(s, i + 1, Seq::empty()) {
            Some(rest) => Some(flush(buf) + rest),
            None => None,
        }
    } else if s[i] == '[' {
        let close = close_pos(s, i + 1);
        let body = s.subrange(i + 1, close);
        if is_index_body(body) {
            let next = if close < s.len() {
                close + 1
            } else {
                close
            };
            match parse_rest(s, next, Seq::empty()) {
                Some(rest) => Some(flush(buf) + seq![SegV::Index(dec_value(body))] + rest),
                None => None,
            }
        } else {
            None
        }
    } else {
        parse_rest(s, i + 1, buf.push(s[i]))
    }
}

#[via_fn]
proof fn parse_rest_decreases(s: Seq<char>, i: int, buf: Seq<char>) {
    if 0 <= i < s.len() && s[i] == '[' {
        lemma_close_pos(s, i + 1);
    }
}

/// The segments denoted by a whole path string, or `None` if it is malformed.
/// The empty string denotes the empty segment sequence.
pub open spec fn parse_path(s: Seq<char>) -> Option<Seq<SegV>> {
    parse_rest(s, 0, Seq::empty())
}

proof fn lemma_dec_value_nonneg(s: Seq<char>)
    requires
        all_digits(s),
    ensures
        dec_value(s) >= 0,
    decreases s.len(),
{
    if s.len() > 0 {
        assert(all_digits(s.drop_last()));
        lemma_dec_value_nonneg(s.drop_last());
    }
}

/// Extending a run of digits to the right never shrinks its value.
proof fn lemma_dec_value_prefix(s: Seq<char>, m: int)
    requires
        0 <= m <= s.len(),
        all_digits(s),
    ensures
        dec_value(s.take(m)) <= dec_value(s),
    decreases s.len() - m,
{
    if m < s.len() {
        lemma_dec_value_prefix(s, m + 1);
        assert(all_digits(s.take(m)));
        lemma_dec_value_nonneg(s.take(m));
        assert(s.take(m + 1).drop_last() =~= s.take(m));
        assert(s.take(m + 1).last() == s[m]);
    } else {
        assert(s.take(m) =~= s);
    }
}

/// Put `seg` in front of the segments in `v`.
fn seg_prepend(v: Vec<PathSegment>, seg: PathSegment) -> (r: Vec<PathSegment>)
    ensures
        r.deep_view() == seq![seg.deep_view()] + v.deep_view(),
{
    let ghost v0 = v;
    let ghost seg0 = seg;
    let mut v = v;
    v.insert(0, seg);
    proof {
        assert(v.deep_view() =~= seq![seg0.deep_view()] + v0.deep_view());
    }
    v
}

/// Scan `s[i..]` with pending key text `buf`; `None` is a malformed index.
fn parse_rest_exec(s: &str, i: usize, buf: String) -> (r: Option<Vec<PathSegment>>)
    requires
        i <= s@.len(),
    ensures
        match r {
            Some(v) => parse_rest(s@, i as int, buf@) == Some(v.deep_view()),
            None => parse_rest(s@, i as int, buf@) is None,
        },
    decreases s@.len() - i,
{
    let ghost buf0 = buf;
    let n = s.unicode_len();
    if i == n {
        if buf.as_str().is_empty() {
            let v: Vec<PathSegment> = Vec::new();
            proof {
                assert(v.deep_view() =~= flush(buf0@));
            }
            Some(v)
        } else {
            let mut v: Vec<PathSegment> = Vec::new();
            v.push(PathSegment::Key(buf));
            proof {
                assert(v.deep_view() =~= flush(buf0@));
            }
            Some(v)
        }
    } else {
        let c = s.get_char(i);
        if c == '\\' {
            if i + 1 < n {
                let mut b = buf;
                b.append(s.substring_char(i + 1, i + 2));
                proof {
                    assert(b@ =~= buf0@.push(s@[i as int + 1]));
                }
                parse_rest_exec(s, i + 2, b)
            } else {
                let mut b = buf;
                b.append("\\");
                proof {
                    reveal_strlit("\\");
                    assert(b@ =~= buf0@.push('\\'));
                }
                parse_rest_exec(s, i + 1, b)
            }
        } else if c == '.' {
            let buf_empty = buf.as_str().is_empty();
            let rest = parse_rest_exec(s, i + 1, String::new());
            match rest {
                Some(v) => {
                    if buf_empty {
                        proof {
                            assert(flush(buf0@) + v.deep_view() =~= v.deep_view());
                        }
                        Some(v)
                    } else {
                        let ghost vv = v.deep_view();
                        let r = seg_prepend(v, PathSegment::Key(buf));
                        proof {
                            assert(r.deep_view() =~= flush(buf0@) + vv);
                        }
                        Some(r)
                    }
                }
                None => None,
            }
        } else if c == '[' {
            parse_index_exec(s, i, buf, n)
        } else {
            let mut b = buf;
            b.append(s.substring_char(i, i + 1));
            proof {
                assert(b@ =~= buf0@.push(s@[i as int]));
            }
            parse_rest_exec(s, i + 1, b)
        }
    }
}

/// Scan a bracketed index starting at `s[i] == '['`.
fn parse_index_exec(s: &str, i: usize, buf: String, n: usize) -> (r: Option<Vec<PathSegment>>)
    requires
        i < s@.len(),
        n == s@.len(),
        s@[i as int] == '[',
    ensures
        match r {
            Some(v) => parse_rest(s@, i as int, buf@) == Some(v.deep_view()),
            None => parse_rest(s@, i as int, buf@) is None,
        },
    decreases s@.len() - i, 0int,
{
    let ghost buf0 = buf;
    // find the closing bracket (or the end of the string)
    let mut j: usize = i + 1;
    while j < n && s.get_char(j) != ']'
        invariant
            i + 1 <= j <= n,
            n == s@.len(),
            close_pos(s@, i as int + 1) == close_pos(s@, j as int),
        decreases n - j,
    {
        j += 1;
    }
    proof {
        lemma_close_pos(s@, i as int + 1);
        assert(close_pos(s@, i as int + 1) == j);
    }
    let ghost body = s@.subrange(i as int + 1, j as int);
    if j == i + 1 {
        assert(!is_index_body(body));
        return None;
    }
    // read the digits of the body
    let mut k: usize = i + 1;
    let mut acc: usize = 0;
    while k < j
        invariant
            i + 1 < j <= n,
            i + 1 <= k <= j,
            n == s@.len(),
            s@[i as int] == '[',
            close_pos(s@, i as int + 1) == j as int,
            body == s@.subrange(i as int + 1, j as int),
            all_digits(body.take(k - (i + 1))),
            acc == dec_value(body.take(k - (i + 1))),
        decreases j - k,
    {
        let c = s.get_char(k);
        let u = c as u32;
        if u < 48 || u > 57 {
            proof {
                assert(body[k - (i + 1)] == s@[k as int]);
                assert(!is_index_body(body));
            }
            return None;
        }
        let d = (u - 48) as usize;
        if acc > (usize::MAX - d) / 10 {
            proof {
                assert(acc * 10 + d > usize::MAX) by (nonlinear_arith)
                    requires
                        acc > (usize::MAX - d) / 10,
                        d <= 9,
                ;
                assert(body.take(k + 1 - (i + 1)).drop_last() =~= body.take(k - (i + 1)));
                assert(body.take(k + 1 - (i + 1)).last() == s@[k as int]);
                assert(dec_value(body.take(k + 1 - (i + 1))) > usize::MAX);
                if all_digits(body) {
                    lemma_dec_value_prefix(body, k + 1 - (i + 1));
                    assert(!is_index_body(body));
                } else {
                    assert(!is_index_body(body));
                }
            }
            return None;
        }
        proof {
            assert(acc * 10 + d <= usize::MAX) by (nonlinear_arith)
                requires
                    acc <= (usize::MAX - d) / 10,
                    d <= 9,
                    acc >= 0,
            ;
            assert(body.take(k + 1 - (i + 1)).drop_last() =~= body.take(k - (i + 1)));
            assert(body.take(k + 1 - (i + 1)).last() == s@[k as int]);
        }
        acc = acc * 10 + d;
        k += 1;
    }
    proof {
        assert(body.take(j - (i + 1)) =~= body);
        assert(is_index_body(body));
    }
    let next = if j < n {
        j + 1
    } else {
        j
    };
    let buf_empty = buf.as_str().is_empty();
    let rest = parse_rest_exec(s, next, String::new());
    match rest {
        Some(v) => {
            let ghost vv = v.deep_view();
            let r = seg_prepend(v, PathSegment::Index(acc));
            if buf_empty {
                proof {
                    assert(flush(buf0@) + seq![SegV::Index(dec_value(body))] + vv
                        =~= r.deep_view());
                }
                Some(r)
            } else {
                let r2 = seg_prepend(r, PathSegment::Key(buf));
                proof {
                    assert(flush(buf0@) + seq![SegV::Index(dec_value(body))] + vv
                        =~= r2.deep_view());
                }
                Some(r2)
            }
        }
        None => None,
    }
}

/// What went wrong while walking a path: a segment that cannot address the
/// node kind present (`Invalid`), or an absent key or index met while not
/// creating (`NotFound`).
#[derive(Debug, Clone, Copy, PartialEq, Eq, Structural)]
pub enum PathErrKind {
    Invalid,
    NotFound,
}

/// Index of the first entry with key `k`, or `-1` when there is none.
pub open spec fn key_index(es: Seq<(Seq<char>, DocV)>, k: Seq<char>) -> int
    decreases es.len(),
{
    if es.len() == 0 {
        -1
    } else if es[0].0 == k {
        0
    } else {
        let p = key_index(es.skip(1), k);
        if p == -1 {
            -1
        } else {
            p + 1
        }
    }
}

pub proof fn lemma_key_index(es: Seq<(Seq<char>, DocV)>, k: Seq<char>)
    ensures
        ({
            let p = key_index(es, k);
            &&& (p == -1 ==> forall|t: int| 0 <= t < es.len() ==> (#[trigger] es[t]).0 != k)
            &&& (p != -1 ==> 0 <= p < es.len() && es[p].0 == k && forall|t: int|
                0 <= t < p ==> (#[trigger] es[t]).0 != k)
        }),
    decreases es.len(),
{
    if es.len() > 0 && es[0].0 != k {
        lemma_key_index(es.skip(1), k);
        assert forall|t: int| 1 <= t < es.len() implies es.skip(1)[t - 1] == es[t] by {}
    }
}

/// Insert or overwrite key `k` with `v`: replace the first entry with that
/// key, or append a new entry.
pub open spec fn obj_set(es: Seq<(Seq<char>, DocV)>, k: Seq<char>, v: DocV) -> Seq<
    (Seq<char>, DocV),
> {
    let p = key_index(es, k);
    if p == -1 {
        es.push((k, v))
    } else {
        es.update(p, (k, v))
    }
}

/// A run of `m` nulls.
pub open spec fn nulls(m: int) -> Seq<DocV> {
    Seq::new(m as nat, |x: int| DocV::Null)
}

/// Grow `xs` to at least `n` elements by appending nulls.
pub open spec fn pad_to(xs: Seq<DocV>, n: int) -> Seq<DocV> {
    if n <= xs.len() {
        xs
    } else {
        xs + nulls(n - xs.len())
    }
}

/// Write `v` at index `idx`, null-padding the array up to that index first.
pub open spec fn arr_set(xs: Seq<DocV>, idx: int, v: DocV) -> Seq<DocV> {
    pad_to(xs, idx + 1).update(idx, v)
}

/// The outcome of writing `value` at `segs[j..]` below `d`: the updated tree
/// (partially built containers stay even on a later error) and the error, if
/// any. A null node counts as an empty container: a terminal key coerces it
/// to an object, and when `create` is set any segment may coerce it; met
/// without `create`, a non-terminal segment on null is `NotFound`. Any other
/// node of the wrong kind is `Invalid`.
pub open spec fn set_at(d: DocV, segs: Seq<SegV>, j: int, value: DocV, create: bool) -> (
    DocV,
    Option<PathErrKind>,
)
    decreases segs.len() - j,
{
    if j < 0 || j >= segs.len() {
        (d, None)
    } else {
        let last = j == segs.len() - 1;
        match segs[j] {
            SegV::Key(k) => match d {
                DocV::Object(es) => {
                    if last {
                        (DocV::Object(obj_set(es, k, value)), None)
                    } else {
                        let p = key_index(es, k);
                        if p >= 0 {
                            let sub = set_at(es[p].1, segs, j + 1, value, create);
                            (DocV::Object(es.update(p, (k, sub.0))), sub.1)
                        } else if create {
                            let sub = set_at(DocV::Object(Seq::empty()), segs, j + 1, value, create);
                            (DocV::Object(es.push((k, sub.0))), sub.1)
                        } else {
                            (d, Some(PathErrKind::NotFound))
                        }
                    }
                },
                DocV::Null => {
                    if last {
                        (DocV::Object(seq![(k, value)]), None)
                    } else if create {
                        let sub = set_at(DocV::Object(Seq::empty()), segs, j + 1, value, create);
                        (DocV::Object(seq![(k, sub.0)]), sub.1)
                    } else {
                        (d, Some(PathErrKind::NotFound))
                    }
                },
                _ => (d, Some(PathErrKind::Invalid)),
            },
            SegV::Index(idx) => match d {
                DocV::Array(xs) => {
                    if last {
                        (DocV::Array(arr_set(xs, idx, value)), None)
                    } else if 0 <= idx < xs.len() {
                        let sub = set_at(xs[idx], segs, j + 1, value, create);
                        (DocV::Array(xs.update(idx, sub.0)), sub.1)
                    } else if create {
                        let sub = set_at(DocV::Null, segs, j + 1, value, create);
                        (DocV::Array(pad_to(xs, idx + 1).update(idx, sub.0)), sub.1)
                    } else {
                        (d, Some(PathErrKind::NotFound))
                    }
                },
                DocV::Null => {
                    if last {
                        if create {
                            (DocV::Array(arr_set(Seq::empty(), idx, value)), None)
                        } else {
                            (d, Some(PathErrKind::Invalid))
                        }
                    } else if create {
                        let sub = set_at(DocV::Null, segs, j + 1, value, create);
                        (DocV::Array(nulls(idx + 1).update(idx, sub.0)), sub.1)
                    } else {
                        (d, Some(PathErrKind::NotFound))
                    }
                },
                _ => (d, Some(PathErrKind::Invalid)),
            },
        }
    }
}

/// The node addressed by `segs[j..]` below `d`, if it is present.
pub open spec fn get_at(d: DocV, segs: Seq<SegV>, j: int) -> Option<DocV>
    decreases segs.len() - j,
{
    if j >= segs.len() {
        Some(d)
    } else {
        match segs[j] {
            SegV::Key(k) => match d {
                DocV::Object(es) => {
                    let p = key_index(es, k);
                    if p >= 0 {
                        get_at(es[p].1, segs, j + 1)
                    } else {
                        None
                    }
                },
                _ => None,
            },
            SegV::Index(idx) => match d {
                DocV::Array(xs) => {
                    if 0 <= idx < xs.len() {
                        get_at(xs[idx], segs, j + 1)
                    } else {
                        None
                    }
                },
                _ => None,
            },
        }
    }
}

/// Index of the first entry of `pairs` whose key is `k`, if any.
fn find_key(pairs: &Vec<(String, Document)>, k: &String) -> (r: Option<usize>)
    ensures
        ({
            let p = key_index(entries_view(pairs@), k@);
            match r {
                Some(u) => p == u as int,
                None => p == -1,
            }
        }),
{
    proof {
        lemma_entries_view(pairs@);
        lemma_key_index(entries_view(pairs@), k@);
    }
    let mut i: usize = 0;
    while i < pairs.len()
        invariant
            i <= pairs@.len(),
            forall|t: int| 0 <= t < i ==> (#[trigger] pairs@[t]).0@ != k@,
        decreases pairs@.len() - i,
    {
        if pairs[i].0.eq(k) {
            proof {
                lemma_entries_view(pairs@);
                let es = entries_view(pairs@);
                lemma_key_index(es, k@);
                let p = key_index(es, k@);
                assert(es[i as int].0 == k@);
                if p == -1 {
                    assert(false);
                } else if p < i as int {
                    assert(es[p].0 == pairs@[p].0@);
                    assert(false);
                } else if p > i as int {
                    assert(es[i as int].0 != k@);
                    assert(false);
                }
            }
            return Some(i);
        }
        i += 1;
    }
    proof {
        lemma_entries_view(pairs@);
        let es = entries_view(pairs@);
        lemma_key_index(es, k@);
        let p = key_index(es, k@);
        if p != -1 {
            assert(es[p].0 == pairs@[p].0@);
            assert(false);
        }
    }
    None
}

/// Replace the element at `p` of `elems` with `d`.
fn set_elem(elems: &mut Vec<Document>, p: usize, d: Document)
    requires
        p < old(elems)@.len(),
    ensures
        final(elems)@ == old(elems)@.update(p as int, d),
{
    let ghost d0 = d;
    let _ = elems.remove(p);
    elems.insert(p, d);
    proof {
        assert(elems@ =~= old(elems)@.update(p as int, d0));
    }
}

/// Replace the value at entry `p` of `pairs` with `d`, keeping its key.
fn set_pair(pairs: &mut Vec<(String, Document)>, p: usize, d: Document)
    requires
        p < old(pairs)@.len(),
    ensures
        final(pairs)@.len() == old(pairs)@.len(),
        final(pairs)@[p as int].0 == old(pairs)@[p as int].0,
        final(pairs)@[p as int].1 == d,
        forall|t: int| 0 <= t < final(pairs)@.len() && t != p ==> final(pairs)@[t] == old(pairs)@[t],
{
    let ghost d0 = d;
    let (k0, _old_val) = pairs.remove(p);
    pairs.insert(p, (k0, d));
}

/// Append nulls to `elems` until index `idx` is in range.
fn ensure_len(elems: &mut Vec<Document>, idx: usize)
    ensures
        elems_view(final(elems)@) == pad_to(elems_view(old(elems)@), idx as int + 1),
        final(elems)@.len() > idx,
{
    proof {
        lemma_elems_view(elems@);
    }
    let ghost xs0 = elems@;
    let mut i: usize = elems.len();
    while i <= idx
        invariant
            i == elems@.len(),
            elems@.len() >= xs0.len(),
            elems@.len() <= idx + 1 || elems@ == xs0,
            xs0 == elems@.take(xs0.len() as int),
            forall|t: int| xs0.len() <= t < elems@.len() ==> elems@[t] == Document::Null,
        decreases idx + 1 - i,
    {
        elems.push(Document::Null);
        i = elems.len();
        proof {
            assert(elems@.take(xs0.len() as int) =~= xs0);
        }
    }
    proof {
        lemma_elems_view(elems@);
        lemma_elems_view(xs0);
        assert(elems_view(elems@) =~= pad_to(elems_view(xs0), idx as int + 1));
    }
}

/// Write `value` at `segs[j..]` below `d`, returning the updated document and
/// the error met, if any.
fn set_at_doc(d: Document, segs: &Vec<PathSegment>, j: usize, value: Document, create: bool) -> (r:
    (Document, Option<PathErrKind>))
    requires
        j <= segs@.len(),
    ensures
        ({
            let sub = set_at(d.deep_view(), segs.deep_view(), j as int, value.deep_view(), create);
            r.0.deep_view() == sub.0 && r.1 == sub.1
        }),
    decreases segs@.len() - j,
{
    if j == segs.len() {
        return (d, None);
    }
    let last = j == segs.len() - 1;
    let ghost dv = d.deep_view();
    let ghost valv = value.deep_view();
    match &segs[j] {
        PathSegment::Key(k) => {
            match d {
                Document::Object(pairs) => {
                    let ghost es = entries_view(pairs@);
                    let mut pairs = pairs;
                    let p = find_key(&pairs, k);
                    proof {
                        lemma_entries_view(pairs@);
                        lemma_key_index(es, k@);
                    }
                    if last {
                        match p {
                            Some(p) => {
                                set_pair(&mut pairs, p, value);
                                proof {
                                    lemma_entries_view(pairs@);
                                    assert(entries_view(pairs@) =~= obj_set(es, k@, valv));
                                }
                                (Document::Object(pairs), None)
                            },
                            None => {
                                pairs.push((k.clone(), value));
                                proof {
                                    lemma_entries_view(pairs@);
                                    assert(entries_view(pairs@) =~= obj_set(es, k@, valv));
                                }
                                (Document::Object(pairs), None)
                            },
                        }
                    } else {
                        match p {
                            Some(p) => {
                                let (k0, child) = pairs.remove(p);
                                let ghost childv = child.deep_view();
                                let (child2, err) = set_at_doc(child, segs, j + 1, value, create);
                                pairs.insert(p, (k0, child2));
                                proof {
                                    lemma_entries_view(pairs@);
                                    let sub = set_at(childv, segs.deep_view(), j as int + 1, valv,
                                        create);
                                    assert(entries_view(pairs@) =~= es.update(p as int, (k@,
                                        sub.0)));
                                }
                                (Document::Object(pairs), err)
                            },
                            None => {
                                if create {
                                    let empty_obj = Document::Object(Vec::new());
                                    proof {
                                        assert(empty_obj.deep_view() == DocV::Object(
                                            entries_view(Seq::empty()),
                                        ));
                                        assert(entries_view(Seq::<(String, Document)>::empty())
                                            =~= Seq::<(Seq<char>, DocV)>::empty());
                                    }
                                    let (child2, err) = set_at_doc(empty_obj, segs, j + 1, value,
                                        create);
                                    pairs.push((k.clone(), child2));
                                    proof {
                                        lemma_entries_view(pairs@);
                                        let sub = set_at(DocV::Object(Seq::empty()),
                                            segs.deep_view(), j as int + 1, valv, create);
                                        assert(entries_view(pairs@) =~= es.push((k@, sub.0)));
                                    }
                                    (Document::Object(pairs), err)
                                } else {
                                    (Document::Object(pairs), Some(PathErrKind::NotFound))
                                }
                            },
                        }
                    }
                },
                Document::Null => {
                    if last {
                        let mut pairs: Vec<(String, Document)> = Vec::new();
                        pairs.push((k.clone(), value));
                        proof {
                            lemma_entries_view(pairs@);
                            assert(entries_view(pairs@) =~= seq![(k@, valv)]);
                        }
                        (Document::Object(pairs), None)
                    } else if create {
                        let empty_obj = Document::Object(Vec::new());
                        proof {
                            assert(entries_view(Seq::<(String, Document)>::empty()) =~= Seq::<
                                (Seq<char>, DocV),
                            >::empty());
                        }
                        let (child2, err) = set_at_doc(empty_obj, segs, j + 1, value, create);
                        let mut pairs: Vec<(String, Document)> = Vec::new();
                        pairs.push((k.clone(), child2));
                        proof {
                            lemma_entries_view(pairs@);
                            let sub = set_at(DocV::Object(Seq::empty()), segs.deep_view(),
                                j as int + 1, valv, create);
                            assert(entries_view(pairs@) =~= seq![(k@, sub.0)]);
                        }
                        (Document::Object(pairs), err)
                    } else {
                        (Document::Null, Some(PathErrKind::NotFound))
                    }
                },
                other => (other, Some(PathErrKind::Invalid)),
            }
        },
        PathSegment::Index(idx) => {
            let idx = *idx;
            match d {
                Document::Array(elems) => {
                    let ghost xs = elems_view(elems@);
                    let mut elems = elems;
                    proof {
                        lemma_elems_view(elems@);
                    }
                    if last {
                        let ghost elems0 = elems@;
                        ensure_len(&mut elems, idx);
                        let ghost padded = elems@;
                        set_elem(&mut elems, idx, value);
                        proof {
                            lemma_elems_view(elems0);
                            lemma_elems_view(padded);
                            lemma_elems_view(elems@);
                            assert(elems_view(elems@) =~= arr_set(xs, idx as int, valv));
                        }
                        (Document::Array(elems), None)
                    } else if idx < elems.len() {
                        let ghost elems0 = elems@;
                        let child = elems.remove(idx);
                        let ghost childv = child.deep_view();
                        let (child2, err) = set_at_doc(child, segs, j + 1, value, create);
                        elems.insert(idx, child2);
                        proof {
                            lemma_elems_view(elems0);
                            lemma_elems_view(elems@);
                            let sub = set_at(childv, segs.deep_view(), j as int + 1, valv, create);
                            assert(elems@ =~= elems0.update(idx as int, child2));
                            assert(elems_view(elems@) =~= xs.update(idx as int, sub.0));
                        }
                        (Document::Array(elems), err)
                    } else if create {
                        let ghost elems0 = elems@;
                        ensure_len(&mut elems, idx);
                        let ghost padded = elems@;
                        let (child2, err) = set_at_doc(Document::Null, segs, j + 1, value, create);
                        set_elem(&mut elems, idx, child2);
                        proof {
                            lemma_elems_view(elems0);
                            lemma_elems_view(padded);
                            lemma_elems_view(elems@);
                            let sub = set_at(DocV::Null, segs.deep_view(), j as int + 1, valv,
                                create);
                            assert(elems_view(elems@) =~= pad_to(xs, idx as int + 1).update(
                                idx as int, sub.0));
                        }
                        (Document::Array(elems), err)
                    } else {
                        (Document::Array(elems), Some(PathErrKind::NotFound))
                    }
                },
                Document::Null => {
                    if last {
                        if create {
                            let mut elems: Vec<Document> = Vec::new();
                            proof {
                                assert(elems_view(elems@) =~= Seq::<DocV>::empty());
                            }
                            ensure_len(&mut elems, idx);
                            let ghost padded = elems@;
                            set_elem(&mut elems, idx, value);
                            proof {
                                lemma_elems_view(padded);
                                lemma_elems_view(elems@);
                                assert(elems_view(elems@) =~= arr_set(Seq::empty(), idx as int,
                                    valv));
                            }
                            (Document::Array(elems), None)
                        } else {
                            (Document::Null, Some(PathErrKind::Invalid))
                        }
                    } else if create {
                        let mut elems: Vec<Document> = Vec::new();
                        proof {
                            assert(elems_view(elems@) =~= Seq::<DocV>::empty());
                        }
                        ensure_len(&mut elems, idx);
                        let ghost padded = elems@;
                        let (child2, err) = set_at_doc(Document::Null, segs, j + 1, value, create);
                        set_elem(&mut elems, idx, child2);
                        proof {
                            lemma_elems_view(padded);
                            lemma_elems_view(elems@);
                            let sub = set_at(DocV::Null, segs.deep_view(), j as int + 1, valv,
                                create);
                            assert(pad_to(Seq::<DocV>::empty(), idx as int + 1) =~= nulls(
                                idx as int + 1));
                            assert(elems_view(elems@) =~= nulls(idx as int + 1).update(idx as int,
                                sub.0));
                        }
                        (Document::Array(elems), err)
                    } else {
                        (Document::Null, Some(PathErrKind::NotFound))
                    }
                },
                other => (other, Some(PathErrKind::Invalid)),
            }
        },
    }
}

/// Parse `path` and write `value` at it below `root`, creating missing
/// containers when `create_missing` is set. On an error the tree keeps any
/// containers already created on the way; a parse failure leaves it unchanged.
pub fn set_value_at_path(
    root: &mut Document,
    path: &str,
    value: Document,
    create_missing: bool,
) -> (r: Result<(), RustyLangError>)
    ensures
        match parse_path(path@) {
            Some(segs) => {
                let sub = set_at(old(root).deep_view(), segs, 0, value.deep_view(), create_missing);
                &&& final(root).deep_view() == sub.0
                &&& match sub.1 {
                    None => r is Ok,
                    Some(PathErrKind::Invalid) => r matches Err(RustyLangError::InvalidDotPath(p))
                        && p@ == path@,
                    Some(PathErrKind::NotFound) => r matches Err(RustyLangError::PathNotFound(p))
                        && p@ == path@,
                }
            },
            None => {
                &&& *final(root) == *old(root)
                &&& r matches Err(RustyLangError::InvalidDotPath(p)) && p@ == path@
            },
        },
{
    let segs = match parse_dot_path(path) {
        Ok(segs) => segs,
        Err(e) => {
            return Err(e);
        },
    };
    let mut d = Document::Null;
    core::mem::swap(root, &mut d);
    let (d2, err) = set_at_doc(d, &segs, 0, value, create_missing);
    *root = d2;
    match err {
        None => Ok(()),
        Some(PathErrKind::Invalid) => Err(RustyLangError::InvalidDotPath(path.to_owned())),
        Some(PathErrKind::NotFound) => Err(RustyLangError::PathNotFound(path.to_owned())),
    }
}

/// The first match for `k` stands at `p` when `p` matches and nothing
/// before it does.
proof fn lemma_key_index_first(es: Seq<(Seq<char>, DocV)>, k: Seq<char>, p: int)
    requires
        0 <= p < es.len(),
        es[p].0 == k,
        forall|t: int| 0 <= t < p ==> (#[trigger] es[t]).0 != k,
    ensures
        key_index(es, k) == p,
{
    lemma_key_index(es, k);
    let q = key_index(es, k);
    if q == -1 {
        assert(es[p].0 != k);
        assert(false);
    } else if q < p {
        assert(es[q].0 != k);
        assert(false);
    } else if q > p {
        assert(es[p].0 != k);
        assert(false);
    }
}

/// Every array index among the segments is non-negative, as every parsed
/// path's is.
pub open spec fn nonneg_indices(segs: Seq<SegV>) -> bool {
    forall|t: int| 0 <= t < segs.len() ==> match #[trigger] segs[t] {
        SegV::Index(x) => x >= 0,
        _ => true,
    }
}

/// A successful write is visible: reading back the path it wrote yields
/// exactly the value written.
pub proof fn lemma_get_after_set(d: DocV, segs: Seq<SegV>, j: int, v: DocV, create: bool)
    requires
        0 <= j < segs.len(),
        nonneg_indices(segs),
        set_at(d, segs, j, v, create).1 is None,
    ensures
        get_at(set_at(d, segs, j, v, create).0, segs, j) == Some(v),
    decreases segs.len() - j,
{
    let last = j == segs.len() - 1;
    match segs[j] {
        SegV::Key(k) => {
            match d {
                DocV::Object(es) => {
                    lemma_key_index(es, k);
                    let p = key_index(es, k);
                    if last {
                        if p == -1 {
                            lemma_key_index_first(es.push((k, v)), k, es.len() as int);
                            assert(get_at(v, segs, j + 1) == Some(v));
                            assert(get_at(set_at(d, segs, j, v, create).0, segs, j) == Some(v));
                        } else {
                            assert forall|t: int| 0 <= t < p implies (#[trigger] es.update(
                                p,
                                (k, v),
                            )[t]).0 != k by {
                                assert(es.update(p, (k, v))[t] == es[t]);
                            }
                            lemma_key_index_first(es.update(p, (k, v)), k, p);
                            assert(get_at(v, segs, j + 1) == Some(v));
                            assert(get_at(set_at(d, segs, j, v, create).0, segs, j) == Some(v));
                        }
                    } else {
                        if p >= 0 {
                            let sub = set_at(es[p].1, segs, j + 1, v, create);
                            assert forall|t: int| 0 <= t < p implies (#[trigger] es.update(
                                p,
                                (k, sub.0),
                            )[t]).0 != k by {
                                assert(es.update(p, (k, sub.0))[t] == es[t]);
                            }
                            lemma_key_index_first(es.update(p, (k, sub.0)), k, p);
                            lemma_get_after_set(es[p].1, segs, j + 1, v, create);
                            assert(get_at(set_at(d, segs, j, v, create).0, segs, j) == Some(v));
                        } else if create {
                            let sub = set_at(DocV::Object(Seq::empty()), segs, j + 1, v, create);
                            lemma_key_index_first(es.push((k, sub.0)), k, es.len() as int);
                            lemma_get_after_set(DocV::Object(Seq::empty()), segs, j + 1, v, create);
                            assert(get_at(set_at(d, segs, j, v, create).0, segs, j) == Some(v));
                        }
                    }
                },
                DocV::Null => {
                    if last {
                        lemma_key_index_first(seq![(k, v)], k, 0);
                        assert(get_at(v, segs, j + 1) == Some(v));
                        assert(get_at(set_at(d, segs, j, v, create).0, segs, j) == Some(v));
                    } else if create {
                        let sub = set_at(DocV::Object(Seq::empty()), segs, j + 1, v, create);
                        lemma_key_index_first(seq![(k, sub.0)], k, 0);
                        lemma_get_after_set(DocV::Object(Seq::empty()), segs, j + 1, v, create);
                        assert(get_at(set_at(d, segs, j, v, create).0, segs, j) == Some(v));
                    }
                },
                _ => {},
            }
        },
        SegV::Index(idx) => {
            match d {
                DocV::Array(xs) => {
                    if last {
                        assert(arr_set(xs, idx, v).len() > idx);
                        assert(arr_set(xs, idx, v)[idx] == v);
                        assert(get_at(set_at(d, segs, j, v, create).0, segs, j) == Some(v));
                    } else if 0 <= idx < xs.len() {
                        lemma_get_after_set(xs[idx], segs, j + 1, v, create);
                        assert(get_at(set_at(d, segs, j, v, create).0, segs, j) == Some(v));
                    } else if create {
                        lemma_get_after_set(DocV::Null, segs, j + 1, v, create);
                        assert(pad_to(xs, idx + 1).len() == idx + 1);
                        assert(get_at(set_at(d, segs, j, v, create).0, segs, j) == Some(v));
                    }
                },
                DocV::Null => {
                    if last {
                        if create {
                            assert(arr_set(Seq::empty(), idx, v).len() > idx);
                            assert(arr_set(Seq::empty(), idx, v)[idx] == v);
                            assert(get_at(set_at(d, segs, j, v, create).0, segs, j) == Some(v));
                        }
                    } else if create {
                        lemma_get_after_set(DocV::Null, segs, j + 1, v, create);
                        assert(nulls(idx + 1).len() == idx + 1);
                        assert(get_at(set_at(d, segs, j, v, create).0, segs, j) == Some(v));
                    }
                },
                _ => {},
            }
        },
    }
}

/// Parse a dotted path into segments. The empty string parses to the empty
/// segment sequence; a malformed bracket body is an `InvalidDotPath` error.
pub fn parse_dot_path(path: &str) -> (r: Result<Vec<PathSegment>, RustyLangError>)
    ensures
        match r {
            Ok(v) => parse_path(path@) == Some(v.deep_view()),
            Err(e) => parse_path(path@) is None && (e matches RustyLangError::InvalidDotPath(p)
                && p@ == path@),
        },
{
    match parse_rest_exec(path, 0, String::new()) {
        Some(v) => Ok(v),
        None => Err(RustyLangError::InvalidDotPath(path.to_owned())),
    }
}

} // verus!
