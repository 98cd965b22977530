//! The JSON-like document tree that catalogs are stored in.

use vstd::prelude::*;

verus! {

/// Mathematical model of a document: object entries and array elements are
/// sequences, text is a sequence of characters.
pub enum DocV {
    Object(Seq<(Seq<char>, DocV)>),
    Array(Seq<DocV>),
    Text(Seq<char>),
    Number(Seq<char>),
    Bool(bool),
    Null,
}

/// A JSON-like value. Object entries keep their stored order; a `Number`
/// carries its literal JSON token, which this library never interprets.
#[derive(Debug, PartialEq, Eq)]
pub enum Document {
    Object(Vec<(String, Document)>),
    Array(Vec<Document>),
    Text(String),
    Number(String),
    Bool(bool),
    Null,
}

/// The view of a sequence of object entries, entry by entry.
pub open spec fn entries_view(pairs: Seq<(String, Document)>) -> Seq<(Seq<char>, DocV)>
    decreases pairs,
{
    if pairs.len() == 0 {
        Seq::empty()
    } else {
        entries_view(pairs.drop_last()).push(
            (pairs.last().0@, pairs.last().1.deep_view()),
        )
    }
}

/// The view of a sequence of array elements, element by element.
pub open spec fn elems_view(elems: Seq<Document>) -> Seq<DocV>
    decreases elems,
{
    if elems.len() == 0 {
        Seq::empty()
    } else {
        elems_view(elems.drop_last()).push(elems.last().deep_view())
    }
}

impl DeepView for Document {
    type V = DocV;

    open spec fn deep_view(&self) -> DocV
        decreases self,
    {
        match self {
            Document::Object(pairs) => DocV::Object(entries_view(pairs@)),
            Document::Array(elems) => DocV::Array(elems_view(elems@)),
            Document::Text(s) => DocV::Text(s@),
            Document::Number(s) => DocV::Number(s@),
            Document::Bool(b) => DocV::Bool(*b),
            Document::Null => DocV::Null,
        }
    }
}

/// `entries_view` maps the view over the entries pointwise.
pub proof fn lemma_entries_view(pairs: Seq<(String, Document)>)
    ensures
        entries_view(pairs).len() == pairs.len(),
        forall|i: int| 0 <= i < pairs.len() ==> #[trigger] entries_view(pairs)[i]
            == (pairs[i].0@, pairs[i].1.deep_view()),
    decreases pairs,
{
    if pairs.len() > 0 {
        lemma_entries_view(pairs.drop_last());
        assert(entries_view(pairs) == entries_view(pairs.drop_last()).push(
            (pairs.last().0@, pairs.last().1.deep_view()),
        ));
        assert forall|i: int| 0 <= i < pairs.len() implies #[trigger] entries_view(pairs)[i]
            == (pairs[i].0@, pairs[i].1.deep_view()) by {
            if i < pairs.len() - 1 {
                assert(entries_view(pairs)[i] == entries_view(pairs.drop_last())[i]);
                assert(pairs.drop_last()[i] == pairs[i]);
            }
        }
    }
}

/// Height of a document tree, for termination measures.
pub open spec fn height_doc(d: DocV) -> nat
    decreases d,
{
    match d {
        DocV::Object(es) => 1 + height_entries(es),
        DocV::Array(xs) => 1 + height_elems(xs),
        _ => 0,
    }
}

/// The largest height among entry values.
pub open spec fn height_entries(es: Seq<(Seq<char>, DocV)>) -> nat
    decreases es,
{
    if es.len() == 0 {
        0
    } else {
        let h1 = height_entries(es.drop_last());
        let h2 = height_doc(es.last().1);
        if h1 > h2 {
            h1
        } else {
            h2
        }
    }
}

/// The largest height among elements.
pub open spec fn height_elems(xs: Seq<DocV>) -> nat
    decreases xs,
{
    if xs.len() == 0 {
        0
    } else {
        let h1 = height_elems(xs.drop_last());
        let h2 = height_doc(xs.last());
        if h1 > h2 {
            h1
        } else {
            h2
        }
    }
}

/// Every entry value is at most as tall as the whole entry list.
pub proof fn lemma_height_entry(es: Seq<(Seq<char>, DocV)>, i: int)
    requires
        0 <= i < es.len(),
    ensures
        height_doc(es[i].1) <= height_entries(es),
    decreases es.len(),
{
    if i < es.len() - 1 {
        assert(es.drop_last()[i] == es[i]);
        lemma_height_entry(es.drop_last(), i);
    }
}

/// Every element is at most as tall as the whole element list.
pub proof fn lemma_height_elem(xs: Seq<DocV>, i: int)
    requires
        0 <= i < xs.len(),
    ensures
        height_doc(xs[i]) <= height_elems(xs),
    decreases xs.len(),
{
    if i < xs.len() - 1 {
        assert(xs.drop_last()[i] == xs[i]);
        lemma_height_elem(xs.drop_last(), i);
    }
}

/// `elems_view` maps the view over the elements pointwise.
pub proof fn lemma_elems_view(elems: Seq<Document>)
    ensures
        elems_view(elems).len() == elems.len(),
        forall|i: int| 0 <= i < elems.len() ==> #[trigger] elems_view(elems)[i]
            == elems[i].deep_view(),
    decreases elems,
{
    if elems.len() > 0 {
        lemma_elems_view(elems.drop_last());
        assert(elems_view(elems) == elems_view(elems.drop_last()).push(
            elems.last().deep_view(),
        ));
        assert forall|i: int| 0 <= i < elems.len() implies #[trigger] elems_view(elems)[i]
            == elems[i].deep_view() by {
            if i < elems.len() - 1 {
                assert(elems_view(elems)[i] == elems_view(elems.drop_last())[i]);
                assert(elems.drop_last()[i] == elems[i]);
            }
        }
    }
}

} // verus!

verus! {

/// Copy a document tree.
fn clone_doc(d: &Document) -> (r: Document)
    ensures
        r.deep_view() == d.deep_view(),
    decreases height_doc(d.deep_view()),
{
    match d {
        Document::Object(pairs) => {
            let ghost es = entries_view(pairs@);
            proof {
                lemma_entries_view(pairs@);
            }
            let mut out: Vec<(String, Document)> = Vec::new();
            let mut i: usize = 0;
            let n = pairs.len();
            while i < n
                invariant
                    i <= n,
                    n == pairs@.len(),
                    es == entries_view(pairs@),
                    d.deep_view() == DocV::Object(es),
                    entries_view(out@).len() == i,
                    forall|t: int| 0 <= t < i ==> #[trigger] entries_view(out@)[t] == es[t],
                decreases n - i,
            {
                proof {
                    lemma_entries_view(pairs@);
                    lemma_entries_view(out@);
                    lemma_height_entry(es, i as int);
                }
                let child = clone_doc(&pairs[i].1);
                let ghost out0 = out@;
                out.push((pairs[i].0.clone(), child));
                proof {
                    lemma_entries_view(out0);
                    lemma_entries_view(out@);
                    assert(out@.drop_last() =~= out0);
                    assert forall|t: int| 0 <= t < i + 1 implies #[trigger] entries_view(out@)[t]
                        == es[t] by {
                        if t < i {
                            assert(entries_view(out@)[t] == entries_view(out0)[t]);
                        }
                    }
                }
                i += 1;
            }
            proof {
                lemma_entries_view(out@);
                assert(entries_view(out@) =~= es);
            }
            Document::Object(out)
        },
        Document::Array(elems) => {
            let ghost xs = elems_view(elems@);
            proof {
                lemma_elems_view(elems@);
            }
            let mut out: Vec<Document> = Vec::new();
            let mut i: usize = 0;
            let n = elems.len();
            while i < n
                invariant
                    i <= n,
                    n == elems@.len(),
                    xs == elems_view(elems@),
                    d.deep_view() == DocV::Array(xs),
                    elems_view(out@).len() == i,
                    forall|t: int| 0 <= t < i ==> #[trigger] elems_view(out@)[t] == xs[t],
                decreases n - i,
            {
                proof {
                    lemma_elems_view(elems@);
                    lemma_elems_view(out@);
                    lemma_height_elem(xs, i as int);
                }
                let child = clone_doc(&elems[i]);
                let ghost out0 = out@;
                out.push(child);
                proof {
                    lemma_elems_view(out0);
                    lemma_elems_view(out@);
                    assert(out@.drop_last() =~= out0);
                    assert forall|t: int| 0 <= t < i + 1 implies #[trigger] elems_view(out@)[t]
                        == xs[t] by {
                        if t < i {
                            assert(elems_view(out@)[t] == elems_view(out0)[t]);
                        }
                    }
                }
                i += 1;
            }
            proof {
                lemma_elems_view(out@);
                assert(elems_view(out@) =~= xs);
            }
            Document::Array(out)
        },
        Document::Text(s) => Document::Text(s.clone()),
        Document::Number(s) => Document::Number(s.clone()),
        Document::Bool(b) => Document::Bool(*b),
        Document::Null => Document::Null,
    }
}

impl Clone for Document {
    /// A clone denotes the same tree.
    fn clone(&self) -> (r: Document)
        ensures
            r.deep_view() == self.deep_view(),
    {
        clone_doc(self)
    }
}

} // verus!
