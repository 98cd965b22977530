//! Command-line data and the per-locale orchestration decisions: what each
//! locale needs, how provider outcomes fall back to source text, and how
//! finished translations are merged into the target document.
//!
//! The surrounding process — argument parsing, file reads and writes, the
//! HTTP calls and the task scheduling — lives outside the library and feeds
//! plain values in.

use vstd::prelude::*;

use crate::diff::{
    compute_missing_translations, entries_map, entries_sorted, flat_map, missing_map,
};
use crate::document::{Document, DocV};
use crate::errors::RustyLangError;
use crate::json_utils::{parse_path, set_at, PathErrKind};
use crate::placeholders::{dedup, extract_placeholders, scan_tokens};

verus! {

/// The parsed command line.
#[derive(Debug)]
pub struct Cli {
    pub command: Commands,
}

/// The two operations the tool offers.
#[derive(Debug)]
pub enum Commands {
    SetCmd(SetArgs),
    Translate(TranslateArgs),
}

/// Arguments of the set operation: write one string into the source catalog.
#[derive(Debug)]
pub struct SetArgs {
    pub path: String,
    pub text: String,
    pub file: Option<String>,
    pub no_create_missing: bool,
}

/// Arguments of the translate operation.
#[derive(Debug)]
pub struct TranslateArgs {
    pub locales: Option<String>,
    pub concurrency: Option<usize>,
    pub overwrite: bool,
    pub dry_run: bool,
    pub model: Option<String>,
}

/// One unit of translation work: a leaf path, its source text, and the
/// placeholder tokens the translation must keep verbatim.
#[derive(Debug)]
pub struct TranslationTask {
    pub path: String,
    pub source_text: String,
    pub placeholders: Vec<String>,
}

/// Mathematical model of a task.
pub struct TaskV {
    pub path: Seq<char>,
    pub source_text: Seq<char>,
    pub placeholders: Seq<Seq<char>>,
}

impl DeepView for TranslationTask {
    type V = TaskV;

    open spec fn deep_view(&self) -> TaskV {
        TaskV {
            path: self.path@,
            source_text: self.source_text@,
            placeholders: self.placeholders.deep_view(),
        }
    }
}

/// The path/text pairs of a task list.
pub open spec fn task_entries(tasks: Seq<TaskV>) -> Seq<(Seq<char>, Seq<char>)> {
    Seq::new(tasks.len(), |i: int| (tasks[i].path, tasks[i].source_text))
}

/// What a locale needs: nothing because it is the source of truth, nothing
/// because every leaf is already filled, or a list of tasks.
#[derive(Debug)]
pub enum LocalePlan {
    SkipSource,
    UpToDate,
    Translate(Vec<TranslationTask>),
}

/// Are two pieces of text the same?
fn str_eq(a: &str, b: &str) -> (r: bool)
    ensures
        r == (a@ == b@),
{
    a.to_owned().eq(&b.to_owned())
}

/// Decide what `locale` needs: the source locale is skipped outright; any
/// other locale gets one task per missing (or, under `overwrite`, per
/// existing) source leaf, in path order, each carrying its placeholders.
pub fn plan_locale(
    locale: &str,
    source_locale: &str,
    source: &Document,
    target: &Document,
    overwrite: bool,
) -> (r: LocalePlan)
    ensures
        locale@ == source_locale@ <==> r is SkipSource,
        ({
            let wanted = missing_map(
                flat_map(source.deep_view(), None),
                flat_map(target.deep_view(), None),
                overwrite,
            );
            match r {
                LocalePlan::SkipSource => true,
                LocalePlan::UpToDate => wanted == Map::<Seq<char>, Seq<char>>::empty(),
                LocalePlan::Translate(ts) => {
                    let tasks = ts.deep_view();
                    &&& tasks.len() > 0
                    &&& entries_sorted(task_entries(tasks))
                    &&& entries_map(task_entries(tasks)) == wanted
                    &&& forall|i: int| 0 <= i < tasks.len() ==> (#[trigger] tasks[i]).placeholders
                        == dedup(scan_tokens(tasks[i].source_text, 0))
                },
            }
        }),
{
    if str_eq(locale, source_locale) {
        return LocalePlan::SkipSource;
    }
    let pairs = compute_missing_translations(source, target, overwrite);
    let ghost pv = pairs.deep_view();
    if pairs.len() == 0 {
        proof {
            assert(pv =~= Seq::<(Seq<char>, Seq<char>)>::empty());
            assert(entries_map(pv) =~= Map::<Seq<char>, Seq<char>>::empty());
            assert(missing_map(
                flat_map(source.deep_view(), None),
                flat_map(target.deep_view(), None),
                overwrite,
            ) =~= Map::<Seq<char>, Seq<char>>::empty());
        }
        return LocalePlan::UpToDate;
    }
    let mut tasks: Vec<TranslationTask> = Vec::new();
    let mut i: usize = 0;
    let n = pairs.len();
    while i < n
        invariant
            i <= n,
            n == pairs@.len(),
            pv == pairs.deep_view(),
            tasks.deep_view().len() == i,
            forall|t: int| 0 <= t < i ==> {
                &&& (#[trigger] tasks.deep_view()[t]).path == pv[t].0
                &&& tasks.deep_view()[t].source_text == pv[t].1
                &&& tasks.deep_view()[t].placeholders == dedup(scan_tokens(pv[t].1, 0))
            },
        decreases n - i,
    {
        let ghost od = tasks.deep_view();
        let ph = extract_placeholders(pairs[i].1.as_str());
        tasks.push(TranslationTask {
            path: pairs[i].0.clone(),
            source_text: pairs[i].1.clone(),
            placeholders: ph,
        });
        proof {
            assert(tasks.deep_view() =~= od.push(tasks.deep_view()[i as int]));
        }
        i += 1;
    }
    proof {
        assert(task_entries(tasks.deep_view()) =~= pv);
    }
    LocalePlan::Translate(tasks)
}

/// The outcome used for one task: the provider's text when it succeeded, the
/// untranslated source text when every attempt failed — a per-task failure
/// degrades that one leaf and nothing else.
pub fn resolve_translation(path: String, source_text: String, outcome: Result<String, String>)
    -> (r: (String, String))
    ensures
        r.0 == path,
        match outcome {
            Ok(t) => r.1 == t,
            Err(_) => r.1 == source_text,
        },
{
    match outcome {
        Ok(t) => (path, t),
        Err(_) => (path, source_text),
    }
}

/// The updates a dry run would apply: one per task, with a fixed marker in
/// place of a translation, so the reported count equals the diff size.
pub fn dry_run_updates(tasks: &Vec<TranslationTask>) -> (r: Vec<(String, String)>)
    ensures
        r.deep_view().len() == tasks.deep_view().len(),
        forall|i: int| 0 <= i < r.deep_view().len() ==> (#[trigger] r.deep_view()[i]) == (
        tasks.deep_view()[i].path, ("<translated>")@),
{
    let mut out: Vec<(String, String)> = Vec::new();
    let mut i: usize = 0;
    let n = tasks.len();
    while i < n
        invariant
            i <= n,
            n == tasks@.len(),
            out.deep_view().len() == i,
            forall|t: int| 0 <= t < i ==> (#[trigger] out.deep_view()[t]) == (
            tasks.deep_view()[t].path, ("<translated>")@),
        decreases n - i,
    {
        let ghost od = out.deep_view();
        out.push((tasks[i].path.clone(), String::from_str("<translated>")));
        proof {
            assert(out.deep_view() =~= od.push(
                (tasks@[i as int].path@, ("<translated>")@),
            ));
        }
        i += 1;
    }
    out
}

/// The document and first error after applying `ups[i..]` in order, each
/// update writing its text at its path with missing containers created.
pub open spec fn merge_spec(d: DocV, ups: Seq<(Seq<char>, Seq<char>)>, i: int) -> (
    DocV,
    Option<(int, PathErrKind)>,
)
    decreases ups.len() - i,
{
    if i < 0 || i >= ups.len() {
        (d, None)
    } else {
        match parse_path(ups[i].0) {
            None => (d, Some((i, PathErrKind::Invalid))),
            Some(segs) => {
                let sub = set_at(d, segs, 0, DocV::Text(ups[i].1), true);
                match sub.1 {
                    None => merge_spec(sub.0, ups, i + 1),
                    Some(k) => (sub.0, Some((i, k))),
                }
            },
        }
    }
}

/// Write every `(path, text)` update into `target`, creating missing
/// containers; the first failing update stops the merge with its error, and
/// everything written before it stays.
pub fn merge_updates(target: &mut Document, updates: &Vec<(String, String)>) -> (r: Result<
    (),
    RustyLangError,
>)
    ensures
        ({
            let m = merge_spec(old(target).deep_view(), updates.deep_view(), 0);
            &&& final(target).deep_view() == m.0
            &&& match m.1 {
                None => r is Ok,
                Some((i, PathErrKind::Invalid)) => r matches Err(
                    RustyLangError::InvalidDotPath(p),
                ) && p@ == updates.deep_view()[i].0,
                Some((i, PathErrKind::NotFound)) => r matches Err(
                    RustyLangError::PathNotFound(p),
                ) && p@ == updates.deep_view()[i].0,
            }
        }),
{
    let ghost ups = updates.deep_view();
    let mut i: usize = 0;
    let n = updates.len();
    while i < n
        invariant
            i <= n,
            n == updates@.len(),
            ups == updates.deep_view(),
            merge_spec(old(target).deep_view(), ups, 0) == merge_spec(
                target.deep_view(),
                ups,
                i as int,
            ),
        decreases n - i,
    {
        let text = Document::Text(updates[i].1.clone());
        match crate::json_utils::set_value_at_path(target, updates[i].0.as_str(), text, true) {
            Ok(()) => {},
            Err(e) => {
                return Err(e);
            },
        }
        i += 1;
    }
    Ok(())
}

} // verus!
