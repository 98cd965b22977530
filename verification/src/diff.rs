//! The flatten/diff engine: reduce a document to an ordered mapping of leaf
//! paths to string values, and compute which paths still need translation.

use vstd::prelude::*;

use crate::document::{
    Document, DocV, elems_view, entries_view, height_doc, lemma_elems_view, lemma_entries_view,
    lemma_height_elem, lemma_height_entry,
};

verus! {

/// Strict lexicographic order on character sequences, by scalar value; a
/// proper prefix comes first.
pub open spec fn lex_lt(a: Seq<char>, b: Seq<char>) -> bool
    decreases a.len(),
{
    if b.len() == 0 {
        false
    } else if a.len() == 0 {
        true
    } else if a[0] != b[0] {
        (a[0] as u32) < (b[0] as u32)
    } else {
        lex_lt(a.skip(1), b.skip(1))
    }
}

pub proof fn lemma_lex_irrefl(a: Seq<char>)
    ensures
        !lex_lt(a, a),
    decreases a.len(),
{
    if a.len() > 0 {
        lemma_lex_irrefl(a.skip(1));
    }
}

pub proof fn lemma_lex_trans(a: Seq<char>, b: Seq<char>, c: Seq<char>)
    requires
        lex_lt(a, b),
        lex_lt(b, c),
    ensures
        lex_lt(a, c),
    decreases a.len(),
{
    if a.len() > 0 && b.len() > 0 && a[0] == b[0] && c.len() > 0 && b[0] == c[0] {
        lemma_lex_trans(a.skip(1), b.skip(1), c.skip(1));
    }
}

/// Dropping an equal prefix from both sides keeps the order.
pub proof fn lemma_lex_skip(a: Seq<char>, b: Seq<char>, i: int)
    requires
        0 <= i <= a.len(),
        i <= b.len(),
        a.take(i) == b.take(i),
    ensures
        lex_lt(a, b) == lex_lt(a.skip(i), b.skip(i)),
    decreases i,
{
    if i > 0 {
        assert(a.take(i)[0] == a[0]);
        assert(b.take(i)[0] == b[0]);
        assert(a.skip(1).take(i - 1) =~= a.take(i).skip(1));
        assert(b.skip(1).take(i - 1) =~= b.take(i).skip(1));
        lemma_lex_skip(a.skip(1), b.skip(1), i - 1);
        assert(a.skip(1).skip(i - 1) =~= a.skip(i));
        assert(b.skip(1).skip(i - 1) =~= b.skip(i));
    } else {
        assert(a.skip(0) =~= a);
        assert(b.skip(0) =~= b);
    }
}

/// Compare two strings in lexicographic order: `-1` when `a` comes first,
/// `0` when equal, `1` when `b` comes first.
pub fn str_cmp(a: &String, b: &String) -> (r: i32)
    ensures
        r == 0 ==> a@ == b@,
        r == -1 ==> lex_lt(a@, b@) && a@ != b@,
        r == 1 ==> lex_lt(b@, a@) && a@ != b@,
        -1 <= r <= 1,
{
    let an = a.as_str().unicode_len();
    let bn = b.as_str().unicode_len();
    let mut i: usize = 0;
    while i < an && i < bn
        invariant
            i <= an,
            i <= bn,
            an == a@.len(),
            bn == b@.len(),
            a@.take(i as int) == b@.take(i as int),
        decreases an - i,
    {
        let ca = a.as_str().get_char(i);
        let cb = b.as_str().get_char(i);
        if ca as u32 != cb as u32 {
            proof {
                lemma_lex_skip(a@, b@, i as int);
                lemma_lex_skip(b@, a@, i as int);
                assert(a@.skip(i as int)[0] == a@[i as int]);
                assert(b@.skip(i as int)[0] == b@[i as int]);
                assert(a@[i as int] != b@[i as int]);
            }
            if (ca as u32) < (cb as u32) {
                return -1;
            } else {
                return 1;
            }
        }
        proof {
            assert(a@.take(i as int + 1) =~= b@.take(i as int + 1));
        }
        i += 1;
    }
    proof {
        lemma_lex_skip(a@, b@, i as int);
        lemma_lex_skip(b@, a@, i as int);
    }
    if an == bn {
        proof {
            assert(a@.take(i as int) =~= a@);
            assert(b@.take(i as int) =~= b@);
        }
        0
    } else if an < bn {
        proof {
            assert(a@.skip(i as int).len() == 0);
            assert(b@.skip(i as int).len() > 0);
        }
        -1
    } else {
        proof {
            assert(b@.skip(i as int).len() == 0);
            assert(a@.skip(i as int).len() > 0);
        }
        1
    }
}

/// A key with each literal dot escaped as `\.`.
pub open spec fn esc(k: Seq<char>) -> Seq<char>
    decreases k.len(),
{
    if k.len() == 0 {
        Seq::empty()
    } else {
        esc(k.drop_last()) + (if k.last() == '.' {
            seq!['\\', '.']
        } else {
            seq![k.last()]
        })
    }
}

/// Escape literal dots in an object key so they survive inside a path.
pub fn escape_key(k: &str) -> (r: String)
    ensures
        r@ == esc(k@),
{
    let n = k.unicode_len();
    let mut out = String::new();
    let mut i: usize = 0;
    while i < n
        invariant
            i <= n,
            n == k@.len(),
            out@ == esc(k@.take(i as int)),
        decreases n - i,
    {
        let c = k.get_char(i);
        if c == '.' {
            out.append("\\.");
            proof {
                reveal_strlit("\\.");
                assert(("\\.")@ =~= seq!['\\', '.']);
            }
        } else {
            out.append(k.substring_char(i, i + 1));
            proof {
                assert(k@.subrange(i as int, i as int + 1) =~= seq![k@[i as int]]);
            }
        }
        proof {
            assert(k@.take(i as int + 1).drop_last() =~= k@.take(i as int));
            assert(k@.take(i as int + 1).last() == k@[i as int]);
        }
        i += 1;
    }
    proof {
        assert(k@.take(n as int) =~= k@);
    }
    out
}

/// The decimal digits of `n`, most significant first.
pub open spec fn dec_digits(n: int) -> Seq<char>
    decreases n,
{
    if n < 10 {
        seq![digit_char(n)]
    } else {
        dec_digits(n / 10).push(digit_char(n % 10))
    }
}

/// The character for the digit `d`.
pub open spec fn digit_char(d: int) -> char {
    if d == 0 {
        '0'
    } else if d == 1 {
        '1'
    } else if d == 2 {
        '2'
    } else if d == 3 {
        '3'
    } else if d == 4 {
        '4'
    } else if d == 5 {
        '5'
    } else if d == 6 {
        '6'
    } else if d == 7 {
        '7'
    } else if d == 8 {
        '8'
    } else {
        '9'
    }
}

/// The text of one decimal digit.
fn digit_str(d: usize) -> (r: &'static str)
    requires
        d < 10,
    ensures
        r@ == seq![digit_char(d as int)],
{
    proof {
        reveal_strlit("0");
        reveal_strlit("1");
        reveal_strlit("2");
        reveal_strlit("3");
        reveal_strlit("4");
        reveal_strlit("5");
        reveal_strlit("6");
        reveal_strlit("7");
        reveal_strlit("8");
        reveal_strlit("9");
    }
    let r = if d == 0 {
        "0"
    } else if d == 1 {
        "1"
    } else if d == 2 {
        "2"
    } else if d == 3 {
        "3"
    } else if d == 4 {
        "4"
    } else if d == 5 {
        "5"
    } else if d == 6 {
        "6"
    } else if d == 7 {
        "7"
    } else if d == 8 {
        "8"
    } else {
        "9"
    };
    proof {
        assert(r@ =~= seq![digit_char(d as int)]);
    }
    r
}

/// Render `n` in decimal.
pub fn usize_to_string(n: usize) -> (r: String)
    ensures
        r@ == dec_digits(n as int),
    decreases n,
{
    if n < 10 {
        String::from_str(digit_str(n))
    } else {
        let mut s = usize_to_string(n / 10);
        s.append(digit_str(n % 10));
        proof {
            assert(s@ =~= dec_digits(n as int));
        }
        s
    }
}

/// Path keys strictly ascending in lexicographic order.
pub open spec fn entries_sorted(s: Seq<(Seq<char>, Seq<char>)>) -> bool {
    forall|i: int, j: int| 0 <= i < j < s.len() ==> lex_lt(#[trigger] s[i].0, #[trigger] s[j].0)
}

/// No two entries share a key.
pub open spec fn keys_distinct(s: Seq<(Seq<char>, Seq<char>)>) -> bool {
    forall|i: int, j: int| 0 <= i < j < s.len() ==> (#[trigger] s[i]).0 != (#[trigger] s[j]).0
}

pub proof fn lemma_sorted_distinct(s: Seq<(Seq<char>, Seq<char>)>)
    requires
        entries_sorted(s),
    ensures
        keys_distinct(s),
{
    assert forall|i: int, j: int| 0 <= i < j < s.len() implies (#[trigger] s[i]).0 != (
    #[trigger] s[j]).0 by {
        lemma_lex_irrefl(s[i].0);
    }
}

/// The mapping that a path/value list denotes; a later entry wins.
pub open spec fn entries_map(s: Seq<(Seq<char>, Seq<char>)>) -> Map<Seq<char>, Seq<char>>
    decreases s.len(),
{
    if s.len() == 0 {
        Map::empty()
    } else {
        entries_map(s.drop_last()).insert(s.last().0, s.last().1)
    }
}

/// With distinct keys, the mapping holds exactly the listed pairs.
pub proof fn lemma_entries_map_distinct(s: Seq<(Seq<char>, Seq<char>)>)
    requires
        keys_distinct(s),
    ensures
        forall|t: int| 0 <= t < s.len() ==> entries_map(s).contains_key((#[trigger] s[t]).0)
            && entries_map(s)[s[t].0] == s[t].1,
        forall|k: Seq<char>| entries_map(s).contains_key(k) ==> exists|t: int|
            0 <= t < s.len() && (#[trigger] s[t]).0 == k,
    decreases s.len(),
{
    if s.len() > 0 {
        assert(keys_distinct(s.drop_last()));
        lemma_entries_map_distinct(s.drop_last());
        assert forall|t: int| 0 <= t < s.len() implies entries_map(s).contains_key((
        #[trigger] s[t]).0) && entries_map(s)[s[t].0] == s[t].1 by {
            if t < s.len() - 1 {
                assert(s.drop_last()[t] == s[t]);
                assert(s[t].0 != s.last().0);
            }
        }
        assert forall|k: Seq<char>| entries_map(s).contains_key(k) implies exists|t: int|
            0 <= t < s.len() && (#[trigger] s[t]).0 == k by {
            if k == s.last().0 {
                assert(s[s.len() - 1].0 == k);
            } else {
                assert(entries_map(s.drop_last()).contains_key(k));
                let t = choose|t: int|
                    0 <= t < s.drop_last().len() && (#[trigger] s.drop_last()[t]).0 == k;
                assert(0 <= t < s.drop_last().len());
                assert(s.drop_last()[t] == s[t]);
                assert(s[t].0 == k);
            }
        }
    }
}

/// The path of the first entry of the flattened form of a child, below the
/// given prefix: for object entries, escaped keys joined with a dot (an empty
/// or absent prefix contributes nothing).
pub open spec fn obj_child_prefix(prefix: Option<Seq<char>>, k: Seq<char>) -> Seq<char> {
    match prefix {
        Some(p) => if p.len() > 0 {
            p + seq!['.'] + esc(k)
        } else {
            esc(k)
        },
        None => esc(k),
    }
}

/// Array elements append `[index]` to the prefix with no joining dot.
pub open spec fn arr_child_prefix(prefix: Option<Seq<char>>, i: int) -> Seq<char> {
    (match prefix {
        Some(p) => p,
        None => Seq::empty(),
    }) + seq!['['] + dec_digits(i) + seq![']']
}

/// The flattened form of `d` under `prefix`: every string leaf keyed by its
/// path. Non-string leaves contribute nothing; a bare top-level string has no
/// path to name it and contributes nothing either.
pub open spec fn flat_map(d: DocV, prefix: Option<Seq<char>>) -> Map<Seq<char>, Seq<char>>
    decreases d,
{
    match d {
        DocV::Object(es) => flat_obj(es, prefix),
        DocV::Array(xs) => flat_arr(xs, prefix),
        DocV::Text(s) => match prefix {
            Some(p) => Map::empty().insert(p, s),
            None => Map::empty(),
        },
        _ => Map::empty(),
    }
}

/// The flattened form of object entries, entry by entry; later entries win.
pub open spec fn flat_obj(es: Seq<(Seq<char>, DocV)>, prefix: Option<Seq<char>>) -> Map<
    Seq<char>,
    Seq<char>,
>
    decreases es,
{
    if es.len() == 0 {
        Map::empty()
    } else {
        flat_obj(es.drop_last(), prefix).union_prefer_right(
            flat_map(es.last().1, Some(obj_child_prefix(prefix, es.last().0))),
        )
    }
}

/// The flattened form of array elements, element by element.
pub open spec fn flat_arr(xs: Seq<DocV>, prefix: Option<Seq<char>>) -> Map<Seq<char>, Seq<char>>
    decreases xs,
{
    if xs.len() == 0 {
        Map::empty()
    } else {
        flat_arr(xs.drop_last(), prefix).union_prefer_right(
            flat_map(xs.last(), Some(arr_child_prefix(prefix, xs.len() - 1))),
        )
    }
}

/// Insert `(k, v)` into a sorted path/value list, replacing the value if the
/// path is already present.
fn flat_insert(list: &mut Vec<(String, String)>, k: String, v: String)
    requires
        entries_sorted(old(list).deep_view()),
    ensures
        entries_sorted(final(list).deep_view()),
        entries_map(final(list).deep_view()) == entries_map(old(list).deep_view()).insert(k@, v@),
{
    let ghost s0 = list.deep_view();
    let ghost kv = k@;
    let mut i: usize = 0;
    while i < list.len()
        invariant
            entries_sorted(list.deep_view()),
            list.deep_view() == s0,
            s0 == old(list).deep_view(),
            i <= s0.len(),
            forall|t: int| 0 <= t < i ==> lex_lt((#[trigger] s0[t]).0, kv),
            kv == k@,
        decreases s0.len() - i,
    {
        let c = str_cmp(&list[i].0, &k);
        if c == 0 {
            // same path: replace the value, keeping the stored key
            let (k0, _old_val) = list.remove(i);
            list.insert(i, (k0, v));
            proof {
                assert(list.deep_view() =~= s0.update(i as int, (s0[i as int].0, v@)));
                lemma_sorted_distinct(s0);
                lemma_update_same_key(s0, i as int, v@);
                assert(entries_map(list.deep_view()) =~= entries_map(s0).insert(kv, v@));
            }
            return ;
        }
        if c == 1 {
            list.insert(i, (k, v));
            proof {
                assert(list.deep_view() =~= s0.insert(i as int, (kv, v@)));
                assert forall|t: int| 0 <= t < s0.len() implies s0[t].0 != kv by {
                    if s0[t].0 == kv {
                        if t > i {
                            lemma_lex_trans(kv, s0[i as int].0, s0[t].0);
                        }
                        lemma_lex_irrefl(kv);
                    }
                }
                lemma_insert_new_key(s0, i as int, (kv, v@));
                assert(entries_sorted(list.deep_view())) by {
                    assert forall|t1: int, t2: int|
                        0 <= t1 < t2 < list.deep_view().len() implies lex_lt(
                        (#[trigger] list.deep_view()[t1]).0,
                        (#[trigger] list.deep_view()[t2]).0,
                    ) by {
                        let sd = list.deep_view();
                        if t1 < i && t2 == i {
                        } else if t1 == i && t2 > i {
                            if t2 > i + 1 {
                                lemma_lex_trans(kv, s0[i as int].0, s0[t2 - 1].0);
                            }
                        } else if t1 < i && t2 > i {
                            assert(sd[t1] == s0[t1]);
                            assert(sd[t2] == s0[t2 - 1]);
                        }
                    }
                }
            }
            return ;
        }
        i += 1;
    }
    list.push((k, v));
    proof {
        assert(list.deep_view() =~= s0.push((kv, v@)));
        assert(s0.push((kv, v@)).drop_last() =~= s0);
        assert forall|t1: int, t2: int|
            0 <= t1 < t2 < list.deep_view().len() implies lex_lt(
            (#[trigger] list.deep_view()[t1]).0,
            (#[trigger] list.deep_view()[t2]).0,
        ) by {
            if t2 == s0.len() {
                assert(list.deep_view()[t1] == s0[t1]);
            }
        }
    }
}

/// Replacing the value at an existing key re-keys the mapping to the same key.
proof fn lemma_update_same_key(s: Seq<(Seq<char>, Seq<char>)>, i: int, v: Seq<char>)
    requires
        keys_distinct(s),
        0 <= i < s.len(),
    ensures
        entries_map(s.update(i, (s[i].0, v))) == entries_map(s).insert(s[i].0, v),
    decreases s.len(),
{
    let su = s.update(i, (s[i].0, v));
    if i == s.len() - 1 {
        assert(su.drop_last() =~= s.drop_last());
        assert(entries_map(su) =~= entries_map(s).insert(s[i].0, v));
    } else {
        assert(su.drop_last() =~= s.drop_last().update(i, (s[i].0, v)));
        assert(keys_distinct(s.drop_last()));
        assert(s.drop_last()[i] == s[i]);
        lemma_update_same_key(s.drop_last(), i, v);
        assert(s[i].0 != s.last().0);
        assert(entries_map(su) =~= entries_map(s).insert(s[i].0, v));
    }
}

/// Inserting an entry under a fresh key adds exactly that pair.
proof fn lemma_insert_new_key(s: Seq<(Seq<char>, Seq<char>)>, i: int, e: (Seq<char>, Seq<char>))
    requires
        0 <= i <= s.len(),
        forall|t: int| 0 <= t < s.len() ==> (#[trigger] s[t]).0 != e.0,
    ensures
        entries_map(s.insert(i, e)) == entries_map(s).insert(e.0, e.1),
    decreases s.len(),
{
    let si = s.insert(i, e);
    if i == s.len() {
        assert(si.drop_last() =~= s);
        assert(entries_map(si) =~= entries_map(s).insert(e.0, e.1));
    } else {
        assert(si.drop_last() =~= s.drop_last().insert(i, e));
        assert(forall|t: int|
            0 <= t < s.drop_last().len() ==> (#[trigger] s.drop_last()[t]).0 != e.0);
        lemma_insert_new_key(s.drop_last(), i, e);
        assert(si.last() == s.last());
        assert(s[s.len() - 1].0 != e.0);
        assert(entries_map(si) =~= entries_map(s).insert(e.0, e.1));
    }
}

/// Look a path up in a sorted path/value list.
fn flat_get<'a>(list: &'a Vec<(String, String)>, k: &String) -> (r: Option<&'a String>)
    requires
        entries_sorted(list.deep_view()),
    ensures
        match r {
            Some(v) => entries_map(list.deep_view()).contains_key(k@) && entries_map(
                list.deep_view(),
            )[k@] == v@,
            None => !entries_map(list.deep_view()).contains_key(k@),
        },
{
    proof {
        lemma_sorted_distinct(list.deep_view());
        lemma_entries_map_distinct(list.deep_view());
    }
    let mut i: usize = 0;
    while i < list.len()
        invariant
            i <= list@.len(),
            entries_sorted(list.deep_view()),
            forall|t: int| 0 <= t < i ==> (#[trigger] list.deep_view()[t]).0 != k@,
        decreases list@.len() - i,
    {
        if list[i].0.eq(k) {
            proof {
                lemma_sorted_distinct(list.deep_view());
                lemma_entries_map_distinct(list.deep_view());
                assert(list.deep_view()[i as int].0 == k@);
                assert(entries_map(list.deep_view())[k@] == list.deep_view()[i as int].1);
            }
            return Some(&list[i].1);
        }
        i += 1;
    }
    proof {
        lemma_sorted_distinct(list.deep_view());
        lemma_entries_map_distinct(list.deep_view());
        if entries_map(list.deep_view()).contains_key(k@) {
            let t = choose|t: int|
                0 <= t < list.deep_view().len() && (#[trigger] list.deep_view()[t]).0 == k@;
            assert(false);
        }
    }
    None
}

/// Merge every entry of `child` into `out`, keeping `out` sorted; a path
/// already present is overwritten.
fn flat_merge(out: &mut Vec<(String, String)>, child: Vec<(String, String)>)
    requires
        entries_sorted(old(out).deep_view()),
    ensures
        entries_sorted(final(out).deep_view()),
        entries_map(final(out).deep_view()) == entries_map(old(out).deep_view())
            .union_prefer_right(entries_map(child.deep_view())),
{
    let ghost m1 = entries_map(out.deep_view());
    let ghost c0 = child.deep_view();
    let mut child = child;
    while child.len() > 0
        invariant
            entries_sorted(out.deep_view()),
            child@.len() <= c0.len(),
            child.deep_view() == c0.skip(c0.len() - child@.len()),
            entries_map(out.deep_view()) == m1.union_prefer_right(
                entries_map(c0.take(c0.len() - child@.len())),
            ),
        decreases child@.len(),
    {
        let ghost t: int = c0.len() - child@.len();
        let ghost out_before = entries_map(out.deep_view());
        let ghost cpre = child.deep_view();
        let ghost vpre = child@;
        let e = child.remove(0);
        proof {
            assert(c0.skip(t)[0] == c0[t]);
            assert(e.deep_view() == cpre[0]);
            assert(child.deep_view() =~= c0.skip(t + 1)) by {
                assert forall|u: int| 0 <= u < child.deep_view().len() implies child.deep_view()[u]
                    == c0.skip(t + 1)[u] by {
                    assert(child.deep_view()[u] == child@[u].deep_view());
                    assert(child@[u] == vpre[u + 1]);
                    assert(vpre[u + 1].deep_view() == cpre[u + 1]);
                    assert(cpre[u + 1] == c0.skip(t)[u + 1]);
                    assert(c0.skip(t)[u + 1] == c0[t + 1 + u]);
                    assert(c0.skip(t + 1)[u] == c0[t + 1 + u]);
                }
            }
        }
        flat_insert(out, e.0, e.1);
        proof {
            assert(c0.take(t + 1).drop_last() =~= c0.take(t));
            assert(c0.take(t + 1).last() == c0[t]);
            assert(m1.union_prefer_right(entries_map(c0.take(t + 1))) =~= out_before.insert(
                c0[t].0,
                c0[t].1,
            ));
        }
    }
    proof {
        assert(c0.take(c0.len() as int) =~= c0);
    }
}

/// Flatten the string leaves of `v` into a sorted path/value list: object
/// keys are escaped and joined with dots in stored order, array elements
/// append `[index]`, and non-string leaves are skipped.
pub fn flatten_string_paths(v: &Document, prefix: Option<&str>) -> (r: Vec<(String, String)>)
    ensures
        entries_sorted(r.deep_view()),
        entries_map(r.deep_view()) == flat_map(v.deep_view(), prefix.deep_view()),
    decreases height_doc(v.deep_view()),
{
    let ghost pfx = prefix.deep_view();
    match v {
        Document::Object(pairs) => {
            let ghost es = entries_view(pairs@);
            proof {
                lemma_entries_view(pairs@);
            }
            let mut out: Vec<(String, String)> = Vec::new();
            proof {
                assert(out.deep_view() =~= Seq::<(Seq<char>, Seq<char>)>::empty());
                assert(entries_map(out.deep_view()) =~= flat_obj(es.take(0), pfx));
            }
            let mut i: usize = 0;
            while i < pairs.len()
                invariant
                    i <= pairs@.len(),
                    es == entries_view(pairs@),
                    v.deep_view() == DocV::Object(es),
                    pfx == prefix.deep_view(),
                    entries_sorted(out.deep_view()),
                    entries_map(out.deep_view()) == flat_obj(es.take(i as int), pfx),
                decreases pairs@.len() - i,
            {
                proof {
                    lemma_entries_view(pairs@);
                }
                let seg = escape_key(pairs[i].0.as_str());
                let child_prefix: String = match prefix {
                    Some(p) => if !p.is_empty() {
                        let mut cp = p.to_owned();
                        cp.append(".");
                        cp.append(seg.as_str());
                        proof {
                            reveal_strlit(".");
                            assert(cp@ =~= obj_child_prefix(pfx, es[i as int].0));
                        }
                        cp
                    } else {
                        seg
                    },
                    None => seg,
                };
                proof {
                    assert(child_prefix@ == obj_child_prefix(pfx, es[i as int].0));
                }
                proof {
                    lemma_height_entry(es, i as int);
                    assert(height_doc(pairs@[i as int].1.deep_view()) < height_doc(v.deep_view()));
                }
                let child = flatten_string_paths(&pairs[i].1, Some(child_prefix.as_str()));
                flat_merge(&mut out, child);
                proof {
                    assert(es.take(i as int + 1).drop_last() =~= es.take(i as int));
                    assert(es.take(i as int + 1).last() == es[i as int]);
                }
                i += 1;
            }
            proof {
                assert(es.take(pairs@.len() as int) =~= es);
            }
            out
        },
        Document::Array(elems) => {
            let ghost xs = elems_view(elems@);
            proof {
                lemma_elems_view(elems@);
            }
            let mut out: Vec<(String, String)> = Vec::new();
            proof {
                assert(out.deep_view() =~= Seq::<(Seq<char>, Seq<char>)>::empty());
                assert(entries_map(out.deep_view()) =~= flat_arr(xs.take(0), pfx));
            }
            let mut i: usize = 0;
            while i < elems.len()
                invariant
                    i <= elems@.len(),
                    xs == elems_view(elems@),
                    v.deep_view() == DocV::Array(xs),
                    pfx == prefix.deep_view(),
                    entries_sorted(out.deep_view()),
                    entries_map(out.deep_view()) == flat_arr(xs.take(i as int), pfx),
                decreases elems@.len() - i,
            {
                proof {
                    lemma_elems_view(elems@);
                }
                let mut cp: String = match prefix {
                    Some(p) => p.to_owned(),
                    None => String::new(),
                };
                cp.append("[");
                let digits = usize_to_string(i);
                cp.append(digits.as_str());
                cp.append("]");
                proof {
                    reveal_strlit("[");
                    reveal_strlit("]");
                    assert(cp@ =~= arr_child_prefix(pfx, i as int));
                }
                proof {
                    lemma_height_elem(xs, i as int);
                    assert(height_doc(elems@[i as int].deep_view()) < height_doc(v.deep_view()));
                }
                let child = flatten_string_paths(&elems[i], Some(cp.as_str()));
                flat_merge(&mut out, child);
                proof {
                    assert(xs.take(i as int + 1).drop_last() =~= xs.take(i as int));
                    assert(xs.take(i as int + 1).last() == xs[i as int]);
                }
                i += 1;
            }
            proof {
                assert(xs.take(elems@.len() as int) =~= xs);
            }
            out
        },
        Document::Text(s) => {
            match prefix {
                Some(p) => {
                    let mut out: Vec<(String, String)> = Vec::new();
                    out.push((p.to_owned(), s.clone()));
                    proof {
                        assert(out.deep_view() =~= seq![(p@, s@)]);
                        assert(out.deep_view().drop_last() =~= Seq::<(Seq<char>, Seq<char>)>::empty());
                        assert(entries_map(out.deep_view().drop_last()) =~= Map::<Seq<char>, Seq<char>>::empty());
                        assert(entries_map(out.deep_view()) =~= Map::empty().insert(p@, s@));
                    }
                    out
                },
                None => {
                    let out: Vec<(String, String)> = Vec::new();
                    proof {
                        assert(out.deep_view() =~= Seq::<(Seq<char>, Seq<char>)>::empty());
                        assert(entries_map(out.deep_view()) =~= Map::<Seq<char>, Seq<char>>::empty());
                    }
                    out
                },
            }
        },
        _ => {
            let out: Vec<(String, String)> = Vec::new();
            proof {
                assert(out.deep_view() =~= Seq::<(Seq<char>, Seq<char>)>::empty());
                assert(entries_map(out.deep_view()) =~= Map::<Seq<char>, Seq<char>>::empty());
            }
            out
        },
    }
}

/// Does the path `p` still need translation? Under `overwrite` every source
/// leaf does; otherwise exactly those the target lacks or holds empty.
pub open spec fn missing_pred(
    tgt: Map<Seq<char>, Seq<char>>,
    overwrite: bool,
    p: Seq<char>,
) -> bool {
    overwrite || !tgt.contains_key(p) || tgt[p].len() == 0
}

/// The part of the source mapping that still needs translation.
pub open spec fn missing_map(
    src: Map<Seq<char>, Seq<char>>,
    tgt: Map<Seq<char>, Seq<char>>,
    overwrite: bool,
) -> Map<Seq<char>, Seq<char>> {
    Map::new(|p: Seq<char>| src.contains_key(p) && missing_pred(tgt, overwrite, p), |p: Seq<char>| src[p])
}

/// The ordered list of `(path, source text)` pairs that need translation:
/// every source string leaf whose path the target lacks or holds empty, or
/// every one of them under `overwrite`; paths in lexicographic order. Target
/// paths absent from the source are never touched.
pub fn compute_missing_translations(source: &Document, target: &Document, overwrite: bool) -> (r:
    Vec<(String, String)>)
    ensures
        entries_sorted(r.deep_view()),
        entries_map(r.deep_view()) == missing_map(
            flat_map(source.deep_view(), None),
            flat_map(target.deep_view(), None),
            overwrite,
        ),
{
    let src = flatten_string_paths(source, None);
    let tgt = flatten_string_paths(target, None);
    let ghost sd = src.deep_view();
    let ghost tm = entries_map(tgt.deep_view());
    let mut out: Vec<(String, String)> = Vec::new();
    proof {
        lemma_sorted_distinct(sd);
        lemma_entries_map_distinct(sd);
        assert(out.deep_view() =~= Seq::<(Seq<char>, Seq<char>)>::empty());
        assert(entries_map(out.deep_view()) =~= missing_map(entries_map(sd.take(0)), tm, overwrite));
    }
    let mut i: usize = 0;
    while i < src.len()
        invariant
            i <= src@.len(),
            sd == src.deep_view(),
            tm == entries_map(tgt.deep_view()),
            entries_sorted(sd),
            entries_sorted(tgt.deep_view()),
            entries_sorted(out.deep_view()),
            entries_map(out.deep_view()) == missing_map(entries_map(sd.take(i as int)), tm, overwrite),
            forall|u: int| 0 <= u < out.deep_view().len() ==> exists|w: int|
                0 <= w < i && (#[trigger] out.deep_view()[u]) == sd[w],
        decreases src@.len() - i,
    {
        let wanted: bool = if overwrite {
            true
        } else {
            match flat_get(&tgt, &src[i].0) {
                None => true,
                Some(t) => t.as_str().is_empty(),
            }
        };
        proof {
            assert(wanted == missing_pred(tm, overwrite, sd[i as int].0));
            assert(sd.take(i as int + 1).drop_last() =~= sd.take(i as int));
            assert(sd.take(i as int + 1).last() == sd[i as int]);
            lemma_sorted_distinct(sd);
            lemma_entries_map_distinct(sd.take(i as int));
            assert(keys_distinct(sd)) by {
                lemma_sorted_distinct(sd);
            }
            assert forall|t: int| 0 <= t < i implies (#[trigger] sd.take(i as int)[t]).0 != sd[
                i as int].0 by {
                assert(sd.take(i as int)[t] == sd[t]);
            }
        }
        if wanted {
            let path = src[i].0.clone();
            let text = src[i].1.clone();
            let ghost out_before = out.deep_view();
            out.push((path, text));
            proof {
                assert(out.deep_view() =~= out_before.push(sd[i as int]));
                assert(out.deep_view().drop_last() =~= out_before);
                assert(entries_map(out.deep_view()) =~= missing_map(
                    entries_map(sd.take(i as int + 1)),
                    tm,
                    overwrite,
                ));
                assert forall|t1: int, t2: int|
                    0 <= t1 < t2 < out.deep_view().len() implies lex_lt(
                    (#[trigger] out.deep_view()[t1]).0,
                    (#[trigger] out.deep_view()[t2]).0,
                ) by {
                    if t2 == out.deep_view().len() - 1 {
                        let w = choose|w: int| 0 <= w < i && (#[trigger] out_before[t1]) == sd[w];
                        assert(lex_lt(sd[w].0, sd[i as int].0));
                    }
                }
            }
        } else {
            proof {
                assert(entries_map(out.deep_view()) =~= missing_map(
                    entries_map(sd.take(i as int + 1)),
                    tm,
                    overwrite,
                ));
            }
        }
        i += 1;
    }
    proof {
        assert(sd.take(src@.len() as int) =~= sd);
    }
    out
}

} // verus!
