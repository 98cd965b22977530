//! Properties that tie the flattener and the tree mutator together.

use vstd::prelude::*;

use crate::cli::merge_spec;
use crate::diff::{entries_map, esc, flat_map, obj_child_prefix};
use crate::document::DocV;
use crate::json_utils::{key_index, lemma_key_index, parse_path, parse_rest, set_at, SegV};

verus! {

/// The segments of a key-only path.
pub open spec fn key_segs(ks: Seq<Seq<char>>) -> Seq<SegV> {
    Seq::new(ks.len(), |i: int| SegV::Key(ks[i]))
}

/// The flattened path of the leaf that `ks[j..]` addresses below `pfx`.
pub open spec fn leaf_path(ks: Seq<Seq<char>>, j: int, pfx: Option<Seq<char>>) -> Seq<char>
    decreases ks.len() - j,
{
    if j >= ks.len() - 1 {
        obj_child_prefix(pfx, ks[j])
    } else {
        leaf_path(ks, j + 1, Some(obj_child_prefix(pfx, ks[j])))
    }
}

/// Escaping never shortens a key.
proof fn lemma_esc_len(k: Seq<char>)
    ensures
        esc(k).len() >= k.len(),
    decreases k.len(),
{
    if k.len() > 0 {
        lemma_esc_len(k.drop_last());
    }
}

/// For a key segment, writing below null behaves as writing below an empty
/// object: null is an empty container.
proof fn lemma_null_like_empty_object(segs: Seq<SegV>, j: int, v: DocV)
    requires
        0 <= j < segs.len(),
        segs[j] is Key,
    ensures
        set_at(DocV::Null, segs, j, v, true) == set_at(
            DocV::Object(Seq::empty()),
            segs,
            j,
            v,
            true,
        ),
{
    let k = segs[j]->Key_0;
    assert(crate::json_utils::key_index(Seq::<(Seq<char>, DocV)>::empty(), k) == -1);
    if j == segs.len() - 1 {
        assert(crate::json_utils::obj_set(Seq::empty(), k, v) =~= seq![(k, v)]);
    } else {
        let sub = set_at(DocV::Object(Seq::empty()), segs, j + 1, v, true);
        assert(Seq::<(Seq<char>, DocV)>::empty().push((k, sub.0)) =~= seq![(k, sub.0)]);
    }
}

/// Writing one string leaf below null along nonempty keys succeeds, and the
/// result flattens to exactly the one entry at the joined, escaped path.
proof fn lemma_build_single_leaf(ks: Seq<Seq<char>>, j: int, v: Seq<char>, pfx: Option<Seq<char>>)
    requires
        0 <= j < ks.len(),
        forall|t: int| 0 <= t < ks.len() ==> (#[trigger] ks[t]).len() > 0,
        pfx matches Some(p) ==> p.len() > 0,
    ensures
        ({
            let r = set_at(DocV::Null, key_segs(ks), j, DocV::Text(v), true);
            &&& r.1 is None
            &&& flat_map(r.0, pfx) == Map::<Seq<char>, Seq<char>>::empty().insert(
                leaf_path(ks, j, pfx),
                v,
            )
        }),
    decreases ks.len() - j,
{
    let segs = key_segs(ks);
    let k = ks[j];
    let cp = obj_child_prefix(pfx, k);
    lemma_esc_len(k);
    if j == ks.len() - 1 {
        let r = set_at(DocV::Null, segs, j, DocV::Text(v), true);
        assert(r.0 == DocV::Object(seq![(k, DocV::Text(v))]));
        let es = seq![(k, DocV::Text(v))];
        assert(es.drop_last() =~= Seq::<(Seq<char>, DocV)>::empty());
        assert(es.last() == (k, DocV::Text(v)));
        assert(crate::diff::flat_obj(Seq::<(Seq<char>, DocV)>::empty(), pfx) == Map::<
            Seq<char>,
            Seq<char>,
        >::empty());
        assert(flat_map(DocV::Text(v), Some(cp)) == Map::<Seq<char>, Seq<char>>::empty().insert(
            cp,
            v,
        ));
        assert(crate::diff::flat_obj(es, pfx) == Map::<Seq<char>, Seq<char>>::empty()
            .union_prefer_right(flat_map(DocV::Text(v), Some(cp))));
        assert(flat_map(r.0, pfx) =~= Map::<Seq<char>, Seq<char>>::empty().insert(cp, v));
    } else {
        lemma_null_like_empty_object(segs, j + 1, DocV::Text(v));
        lemma_build_single_leaf(ks, j + 1, v, Some(cp));
        let sub = set_at(DocV::Object(Seq::empty()), segs, j + 1, DocV::Text(v), true);
        let r = set_at(DocV::Null, segs, j, DocV::Text(v), true);
        assert(r.0 == DocV::Object(seq![(k, sub.0)]));
        assert(seq![(k, sub.0)].drop_last() =~= Seq::<(Seq<char>, DocV)>::empty());
        assert(flat_map(sub.0, Some(cp)) == Map::<Seq<char>, Seq<char>>::empty().insert(
            leaf_path(ks, j + 1, Some(cp)),
            v,
        ));
        let es = seq![(k, sub.0)];
        assert(es.drop_last() =~= Seq::<(Seq<char>, DocV)>::empty());
        assert(es.last() == (k, sub.0));
        assert(crate::diff::flat_obj(Seq::<(Seq<char>, DocV)>::empty(), pfx) == Map::<
            Seq<char>,
            Seq<char>,
        >::empty());
        assert(crate::diff::flat_obj(es, pfx) == Map::<Seq<char>, Seq<char>>::empty()
            .union_prefer_right(flat_map(sub.0, Some(cp))));
        assert(flat_map(r.0, pfx) =~= Map::<Seq<char>, Seq<char>>::empty().insert(
            leaf_path(ks, j, pfx),
            v,
        ));
    }
}

/// One-leaf round trip: merging a single flattened entry into an empty
/// document succeeds and yields a document that flattens back to exactly
/// that entry — path and value survive the escape and the rebuild. The keys
/// must be nonempty, as every key named by a path expression is.
pub proof fn lemma_single_leaf_round_trip(ks: Seq<Seq<char>>, v: Seq<char>)
    requires
        ks.len() > 0,
        forall|t: int| 0 <= t < ks.len() ==> (#[trigger] ks[t]).len() > 0,
    ensures
        ({
            let r = set_at(DocV::Object(Seq::empty()), key_segs(ks), 0, DocV::Text(v), true);
            &&& r.1 is None
            &&& flat_map(r.0, None) == Map::<Seq<char>, Seq<char>>::empty().insert(
                leaf_path(ks, 0, None),
                v,
            )
        }),
{
    lemma_null_like_empty_object(key_segs(ks), 0, DocV::Text(v));
    lemma_build_single_leaf(ks, 0, v, None);
}

/// A key fit for a path expression: nonempty, and free of the two
/// characters that the path syntax claims for itself unescaped, the
/// backslash and the opening bracket. Literal dots are fine: escaping is
/// what the round trip is about.
pub open spec fn safe_key(k: Seq<char>) -> bool {
    k.len() > 0 && forall|t: int| 0 <= t < k.len() ==> (#[trigger] k[t]) != '\\' && k[t] != '['
}

/// The textual form of the keys `ks[j..]`, escaped and joined with dots.
pub open spec fn esc_tail(ks: Seq<Seq<char>>, j: int) -> Seq<char>
    decreases ks.len() - j,
{
    if j >= ks.len() {
        Seq::empty()
    } else if j == ks.len() - 1 {
        esc(ks[j])
    } else {
        esc(ks[j]) + seq!['.'] + esc_tail(ks, j + 1)
    }
}

/// The key segments of `ks[j..]`.
pub open spec fn tail_segs(ks: Seq<Seq<char>>, j: int) -> Seq<SegV>
    decreases ks.len() - j,
{
    if j >= ks.len() {
        Seq::empty()
    } else {
        seq![SegV::Key(ks[j])] + tail_segs(ks, j + 1)
    }
}

proof fn lemma_tail_segs(ks: Seq<Seq<char>>, j: int)
    requires
        0 <= j <= ks.len(),
    ensures
        tail_segs(ks, j) == key_segs(ks).skip(j),
    decreases ks.len() - j,
{
    if j < ks.len() {
        lemma_tail_segs(ks, j + 1);
        assert(tail_segs(ks, j) =~= key_segs(ks).skip(j));
    } else {
        assert(tail_segs(ks, j) =~= key_segs(ks).skip(j));
    }
}

/// How one character of a key appears in its escaped form.
pub open spec fn enc(c: char) -> Seq<char> {
    if c == '.' {
        seq!['\\', '.']
    } else {
        seq![c]
    }
}

/// The escaped form, read from the front.
proof fn lemma_esc_front(k: Seq<char>)
    requires
        k.len() > 0,
    ensures
        esc(k) == enc(k[0]) + esc(k.skip(1)),
    decreases k.len(),
{
    if k.len() == 1 {
        assert(k.drop_last() =~= Seq::<char>::empty());
        assert(k.skip(1) =~= Seq::<char>::empty());
        assert(esc(k) =~= enc(k[0]) + esc(k.skip(1)));
    } else {
        lemma_esc_front(k.drop_last());
        assert(k.drop_last()[0] == k[0]);
        assert(k.drop_last().skip(1) =~= k.skip(1).drop_last());
        assert(k.skip(1).last() == k.last());
        assert(esc(k) == esc(k.drop_last()) + (if k.last() == '.' {
            seq!['\\', '.']
        } else {
            seq![k.last()]
        }));
        assert(esc(k) =~= enc(k[0]) + esc(k.skip(1)));
    }
}

/// The separator and remaining segments after position `j`.
spec fn dot_tail(ks: Seq<Seq<char>>, j: int) -> Seq<char> {
    if j >= ks.len() {
        Seq::empty()
    } else {
        seq!['.'] + esc_tail(ks, j)
    }
}

/// Scanning the escaped remainder of `ks[j]` (from character `m`) and the
/// following segments appends those characters to the pending key text and
/// parses to exactly the remaining key segments.
proof fn lemma_parse_tail(
    ks: Seq<Seq<char>>,
    j: int,
    m: int,
    s: Seq<char>,
    i: int,
    buf: Seq<char>,
)
    requires
        0 <= j < ks.len(),
        0 <= m <= ks[j].len(),
        forall|t: int| 0 <= t < ks.len() ==> safe_key(#[trigger] ks[t]),
        0 <= i <= s.len(),
        s.skip(i) == esc(ks[j].skip(m)) + dot_tail(ks, j + 1),
        buf.len() + ks[j].len() - m > 0,
    ensures
        parse_rest(s, i, buf) == Some(
            seq![SegV::Key(buf + ks[j].skip(m))] + tail_segs(ks, j + 1),
        ),
    decreases ks.len() - j, ks[j].len() - m,
{
    let k = ks[j];
    let suffix = s.skip(i);
    if m == k.len() {
        assert(k.skip(m) =~= Seq::<char>::empty());
        assert(esc(k.skip(m)) =~= Seq::<char>::empty());
        assert(suffix =~= dot_tail(ks, j + 1));
        if j + 1 >= ks.len() {
            assert(suffix.len() == 0);
            assert(i == s.len());
            assert(buf + k.skip(m) =~= buf);
            assert(parse_rest(s, i, buf) == Some(crate::json_utils::flush(buf)));
            assert(crate::json_utils::flush(buf) =~= seq![SegV::Key(buf + k.skip(m))]
                + tail_segs(ks, j + 1));
        } else {
            assert(suffix[0] == '.');
            assert(s[i] == '.');
            assert(s[i] != '\\');
            assert(s.skip(i + 1) =~= suffix.skip(1));
            assert(suffix.skip(1) =~= esc_tail(ks, j + 1));
            assert(esc_tail(ks, j + 1) =~= esc(ks[j + 1].skip(0)) + dot_tail(ks, j + 2)) by {
                assert(ks[j + 1].skip(0) =~= ks[j + 1]);
                if j + 1 == ks.len() - 1 {
                    assert(dot_tail(ks, j + 2) =~= Seq::<char>::empty());
                    assert(esc_tail(ks, j + 1) =~= esc(ks[j + 1]) + dot_tail(ks, j + 2));
                }
            }
            lemma_parse_tail(ks, j + 1, 0, s, i + 1, Seq::empty());
            assert(Seq::<char>::empty() + ks[j + 1].skip(0) =~= ks[j + 1]);
            assert(parse_rest(s, i + 1, Seq::empty()) == Some(
                seq![SegV::Key(ks[j + 1])] + tail_segs(ks, j + 2),
            ));
            assert(buf.len() > 0);
            assert(crate::json_utils::flush(buf) == seq![SegV::Key(buf)]);
            assert(buf + k.skip(m) =~= buf);
            assert(seq![SegV::Key(buf)] + (seq![SegV::Key(ks[j + 1])] + tail_segs(ks, j + 2))
                =~= seq![SegV::Key(buf + k.skip(m))] + tail_segs(ks, j + 1));
        }
    } else {
        lemma_esc_front(k.skip(m));
        assert(k.skip(m)[0] == k[m]);
        assert(k.skip(m).skip(1) =~= k.skip(m + 1));
        assert(suffix =~= enc(k[m]) + (esc(k.skip(m + 1)) + dot_tail(ks, j + 1)));
        assert(safe_key(k));
        assert(k[m] != '\\' && k[m] != '[');
        if k[m] == '.' {
            assert(suffix[0] == '\\');
            assert(suffix[1] == '.');
            assert(s[i] == '\\');
            assert(suffix.len() >= 2);
            assert(i + 1 < s.len());
            assert(s[i + 1] == '.');
            assert(s.skip(i + 2) =~= suffix.skip(2));
            assert(suffix.skip(2) =~= esc(k.skip(m + 1)) + dot_tail(ks, j + 1));
            lemma_parse_tail(ks, j, m + 1, s, i + 2, buf.push('.'));
            assert(buf.push('.') + k.skip(m + 1) =~= buf + k.skip(m));
        } else {
            assert(suffix[0] == k[m]);
            assert(s[i] == k[m]);
            assert(s[i] != '\\' && s[i] != '.' && s[i] != '[');
            assert(s.skip(i + 1) =~= suffix.skip(1));
            assert(suffix.skip(1) =~= esc(k.skip(m + 1)) + dot_tail(ks, j + 1));
            lemma_parse_tail(ks, j, m + 1, s, i + 1, buf.push(k[m]));
            assert(buf.push(k[m]) + k.skip(m + 1) =~= buf + k.skip(m));
        }
    }
}

/// The flattened path of a leaf is its keys escaped and joined with dots.
proof fn lemma_leaf_path_text(ks: Seq<Seq<char>>, j: int, pfx: Option<Seq<char>>)
    requires
        0 <= j < ks.len(),
        forall|t: int| 0 <= t < ks.len() ==> safe_key(#[trigger] ks[t]),
    ensures
        match pfx {
            None => leaf_path(ks, j, pfx) == esc_tail(ks, j),
            Some(p) => p.len() > 0 ==> leaf_path(ks, j, pfx) == p + seq!['.'] + esc_tail(ks, j),
        },
    decreases ks.len() - j,
{
    if j < ks.len() - 1 {
        let cp = obj_child_prefix(pfx, ks[j]);
        lemma_esc_len(ks[j]);
        assert(safe_key(ks[j]));
        assert(cp.len() > 0);
        lemma_leaf_path_text(ks, j + 1, Some(cp));
        match pfx {
            None => {
                assert(leaf_path(ks, j, pfx) =~= esc_tail(ks, j));
            },
            Some(p) => {
                if p.len() > 0 {
                    assert(cp =~= p + seq!['.'] + esc(ks[j]));
                    assert(leaf_path(ks, j, pfx) =~= p + seq!['.'] + esc_tail(ks, j));
                }
            },
        }
    }
}

/// Round trip of one leaf path: the path that flattening gives a leaf under
/// nonempty, bracket- and backslash-free keys parses back to exactly those
/// keys.
pub proof fn lemma_leaf_path_parses(ks: Seq<Seq<char>>)
    requires
        ks.len() > 0,
        forall|t: int| 0 <= t < ks.len() ==> safe_key(#[trigger] ks[t]),
    ensures
        parse_path(leaf_path(ks, 0, None)) == Some(key_segs(ks)),
{
    lemma_leaf_path_text(ks, 0, None);
    let s = esc_tail(ks, 0);
    assert(s.skip(0) =~= s);
    assert(esc_tail(ks, 0) =~= esc(ks[0].skip(0)) + dot_tail(ks, 1)) by {
        assert(ks[0].skip(0) =~= ks[0]);
        if ks.len() == 1 {
            assert(dot_tail(ks, 1) =~= Seq::<char>::empty());
            assert(esc_tail(ks, 0) =~= esc(ks[0]) + dot_tail(ks, 1));
        }
    }
    lemma_parse_tail(ks, 0, 0, s, 0, Seq::empty());
    lemma_tail_segs(ks, 1);
    assert(Seq::<char>::empty() + ks[0].skip(0) =~= ks[0]);
    assert(seq![SegV::Key(ks[0])] + key_segs(ks).skip(1) =~= key_segs(ks));
}

/// One-record round trip, end to end: the path under which flattening
/// reports a leaf with nonempty, bracket- and backslash-free keys parses
/// back to those keys, and merging the entry into an empty document yields
/// a document that flattens to exactly that entry again.
pub proof fn lemma_one_record_round_trip(ks: Seq<Seq<char>>, v: Seq<char>)
    requires
        ks.len() > 0,
        forall|t: int| 0 <= t < ks.len() ==> safe_key(#[trigger] ks[t]),
    ensures
        ({
            let path = leaf_path(ks, 0, None);
            let r = set_at(DocV::Object(Seq::empty()), key_segs(ks), 0, DocV::Text(v), true);
            &&& parse_path(path) == Some(key_segs(ks))
            &&& r.1 is None
            &&& flat_map(r.0, None) == Map::<Seq<char>, Seq<char>>::empty().insert(path, v)
        }),
{
    lemma_leaf_path_parses(ks);
    lemma_single_leaf_round_trip(ks, v);
}

/// Merging two leaves with distinct leading keys into an empty document
/// succeeds and yields a document carrying each text at its own path — as
/// when one task's translation failed and fell back to source text while a
/// sibling's succeeded: each leaf keeps its own value.
pub proof fn lemma_two_record_round_trip(
    ks1: Seq<Seq<char>>,
    t1: Seq<char>,
    ks2: Seq<Seq<char>>,
    t2: Seq<char>,
)
    requires
        ks1.len() > 0,
        ks2.len() > 0,
        forall|t: int| 0 <= t < ks1.len() ==> safe_key(#[trigger] ks1[t]),
        forall|t: int| 0 <= t < ks2.len() ==> safe_key(#[trigger] ks2[t]),
        ks1[0] != ks2[0],
    ensures
        ({
            let first = set_at(DocV::Object(Seq::empty()), key_segs(ks1), 0, DocV::Text(t1), true);
            let second = set_at(first.0, key_segs(ks2), 0, DocV::Text(t2), true);
            &&& first.1 is None
            &&& second.1 is None
            &&& flat_map(second.0, None) == Map::<Seq<char>, Seq<char>>::empty().insert(
                leaf_path(ks1, 0, None),
                t1,
            ).insert(leaf_path(ks2, 0, None), t2)
        }),
{
    lemma_single_leaf_round_trip(ks1, t1);
    let segs1 = key_segs(ks1);
    let segs2 = key_segs(ks2);
    let k1 = ks1[0];
    let k2 = ks2[0];
    let first = set_at(DocV::Object(Seq::empty()), segs1, 0, DocV::Text(t1), true);
    assert(crate::json_utils::key_index(Seq::<(Seq<char>, DocV)>::empty(), k1) == -1);
    // the first write leaves a one-entry object keyed by the leading key
    let es1: Seq<(Seq<char>, DocV)> = if ks1.len() == 1 {
        crate::json_utils::obj_set(Seq::empty(), k1, DocV::Text(t1))
    } else {
        let sub = set_at(DocV::Object(Seq::empty()), segs1, 1, DocV::Text(t1), true);
        Seq::<(Seq<char>, DocV)>::empty().push((k1, sub.0))
    };
    assert(first.0 == DocV::Object(es1));
    assert(es1.len() == 1 && es1[0].0 == k1) by {
        if ks1.len() == 1 {
            assert(crate::json_utils::obj_set(Seq::empty(), k1, DocV::Text(t1)) =~= Seq::<
                (Seq<char>, DocV),
            >::empty().push((k1, DocV::Text(t1))));
        }
    }
    // the second write appends a fresh entry
    assert(crate::json_utils::key_index(es1, k2) == -1) by {
        assert(es1[0].0 != k2);
        assert(es1.skip(1) =~= Seq::<(Seq<char>, DocV)>::empty());
        assert(crate::json_utils::key_index(es1.skip(1), k2) == -1);
    }
    let second = set_at(first.0, segs2, 0, DocV::Text(t2), true);
    let cp2 = obj_child_prefix(None, k2);
    lemma_esc_len(k2);
    if ks2.len() == 1 {
        assert(second.0 == DocV::Object(crate::json_utils::obj_set(es1, k2, DocV::Text(t2))));
        assert(crate::json_utils::obj_set(es1, k2, DocV::Text(t2)) =~= es1.push(
            (k2, DocV::Text(t2)),
        ));
        let es2 = es1.push((k2, DocV::Text(t2)));
        assert(es2.drop_last() =~= es1);
        assert(flat_map(DocV::Text(t2), Some(cp2)) == Map::<Seq<char>, Seq<char>>::empty().insert(
            cp2,
            t2,
        ));
        assert(crate::diff::flat_obj(es2, None) == crate::diff::flat_obj(es1, None)
            .union_prefer_right(flat_map(DocV::Text(t2), Some(cp2))));
        assert(leaf_path(ks2, 0, None) == cp2);
        assert(flat_map(second.0, None) =~= Map::<Seq<char>, Seq<char>>::empty().insert(
            leaf_path(ks1, 0, None),
            t1,
        ).insert(leaf_path(ks2, 0, None), t2));
    } else {
        lemma_null_like_empty_object(segs2, 1, DocV::Text(t2));
        lemma_build_single_leaf(ks2, 1, t2, Some(cp2));
        let sub2 = set_at(DocV::Object(Seq::empty()), segs2, 1, DocV::Text(t2), true);
        assert(second.0 == DocV::Object(es1.push((k2, sub2.0))));
        assert(second.1 == sub2.1);
        let es2 = es1.push((k2, sub2.0));
        assert(es2.drop_last() =~= es1);
        assert(flat_map(sub2.0, Some(cp2)) == Map::<Seq<char>, Seq<char>>::empty().insert(
            leaf_path(ks2, 1, Some(cp2)),
            t2,
        ));
        assert(crate::diff::flat_obj(es2, None) == crate::diff::flat_obj(es1, None)
            .union_prefer_right(flat_map(sub2.0, Some(cp2))));
        assert(leaf_path(ks2, 0, None) == leaf_path(ks2, 1, Some(cp2)));
        assert(flat_map(second.0, None) =~= Map::<Seq<char>, Seq<char>>::empty().insert(
            leaf_path(ks1, 0, None),
            t1,
        ).insert(leaf_path(ks2, 0, None), t2));
    }
}

/// The object whose entries hold the first `i` pairs as string leaves.
pub open spec fn text_entries(pairs: Seq<(Seq<char>, Seq<char>)>, i: int) -> Seq<(Seq<char>, DocV)> {
    Seq::new(i as nat, |t: int| (pairs[t].0, DocV::Text(pairs[t].1)))
}

/// The flattened entries of the pairs: each key escaped.
pub open spec fn escaped_entries(pairs: Seq<(Seq<char>, Seq<char>)>) -> Seq<(Seq<char>, Seq<char>)> {
    Seq::new(pairs.len(), |t: int| (esc(pairs[t].0), pairs[t].1))
}

/// No two pairs share a key.
pub open spec fn pairwise_distinct(pairs: Seq<(Seq<char>, Seq<char>)>) -> bool {
    forall|i: int, j: int| 0 <= i < j < pairs.len() ==> (#[trigger] pairs[i]).0 != (
    #[trigger] pairs[j]).0
}

/// A flat object of string leaves flattens to its escaped entries.
proof fn lemma_flat_text_entries(pairs: Seq<(Seq<char>, Seq<char>)>, i: int)
    requires
        0 <= i <= pairs.len(),
    ensures
        crate::diff::flat_obj(text_entries(pairs, i), None) == entries_map(
            escaped_entries(pairs).take(i),
        ),
    decreases i,
{
    if i == 0 {
        assert(text_entries(pairs, 0) =~= Seq::<(Seq<char>, DocV)>::empty());
        assert(escaped_entries(pairs).take(0) =~= Seq::<(Seq<char>, Seq<char>)>::empty());
        assert(crate::diff::flat_obj(Seq::<(Seq<char>, DocV)>::empty(), None) =~= entries_map(
            Seq::<(Seq<char>, Seq<char>)>::empty(),
        ));
    } else {
        lemma_flat_text_entries(pairs, i - 1);
        let es = text_entries(pairs, i);
        let k = pairs[i - 1].0;
        let v = pairs[i - 1].1;
        assert(es.drop_last() =~= text_entries(pairs, i - 1));
        assert(es.last() == (k, DocV::Text(v)));
        assert(crate::diff::flat_obj(es, None) == crate::diff::flat_obj(
            text_entries(pairs, i - 1),
            None,
        ).union_prefer_right(flat_map(DocV::Text(v), Some(obj_child_prefix(None, k)))));
        assert(flat_map(DocV::Text(v), Some(esc(k))) == Map::<Seq<char>, Seq<char>>::empty()
            .insert(esc(k), v));
        assert(escaped_entries(pairs).take(i).drop_last() =~= escaped_entries(pairs).take(i - 1));
        assert(escaped_entries(pairs).take(i).last() == (esc(k), v));
        assert(crate::diff::flat_obj(es, None) =~= entries_map(escaped_entries(pairs).take(i)));
    }
}

/// Merging the remaining escaped entries into the object holding the first
/// `i` pairs succeeds and fills in the rest, one string leaf per key.
proof fn lemma_merge_flat(pairs: Seq<(Seq<char>, Seq<char>)>, i: int)
    requires
        0 <= i <= pairs.len(),
        pairwise_distinct(pairs),
        forall|t: int| 0 <= t < pairs.len() ==> safe_key((#[trigger] pairs[t]).0),
    ensures
        merge_spec(DocV::Object(text_entries(pairs, i)), escaped_entries(pairs), i) == (
            DocV::Object(text_entries(pairs, pairs.len() as int)),
            None::<(int, crate::json_utils::PathErrKind)>,
        ),
    decreases pairs.len() - i,
{
    let ups = escaped_entries(pairs);
    if i < pairs.len() {
        let k = pairs[i].0;
        let v = pairs[i].1;
        assert(ups[i] == (esc(k), v));
        lemma_leaf_path_parses(seq![k]);
        assert(leaf_path(seq![k], 0, None) == esc(k));
        assert(key_segs(seq![k]) =~= seq![SegV::Key(k)]);
        assert(parse_path(ups[i].0) == Some(seq![SegV::Key(k)]));
        let es = text_entries(pairs, i);
        assert(key_index(es, k) == -1) by {
            lemma_key_index(es, k);
            let p = key_index(es, k);
            if p != -1 {
                assert(es[p].0 == pairs[p].0);
                assert(pairs[p].0 != pairs[i].0);
                assert(false);
            }
        }
        let sub = set_at(DocV::Object(es), seq![SegV::Key(k)], 0, DocV::Text(v), true);
        assert(sub.0 == DocV::Object(crate::json_utils::obj_set(es, k, DocV::Text(v))));
        assert(sub.1 is None);
        assert(crate::json_utils::obj_set(es, k, DocV::Text(v)) =~= text_entries(pairs, i + 1));
        lemma_merge_flat(pairs, i + 1);
    }
}

/// Round trip of a flat document: flattening a one-level object of string
/// leaves under distinct, bracket- and backslash-free keys and merging every
/// entry, in order, into an empty document succeeds and yields a document
/// whose flattened form denotes exactly the same entries.
pub proof fn lemma_flat_document_round_trip(pairs: Seq<(Seq<char>, Seq<char>)>)
    requires
        pairwise_distinct(pairs),
        forall|t: int| 0 <= t < pairs.len() ==> safe_key((#[trigger] pairs[t]).0),
    ensures
        ({
            let m = merge_spec(DocV::Object(Seq::empty()), escaped_entries(pairs), 0);
            &&& m.1 is None
            &&& flat_map(m.0, None) == entries_map(escaped_entries(pairs))
        }),
{
    assert(text_entries(pairs, 0) =~= Seq::<(Seq<char>, DocV)>::empty());
    lemma_merge_flat(pairs, 0);
    lemma_flat_text_entries(pairs, pairs.len() as int);
    assert(escaped_entries(pairs).take(pairs.len() as int) =~= escaped_entries(pairs));
}

} // verus!
