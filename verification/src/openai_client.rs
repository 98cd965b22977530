//! The decision core of the translation client: building the instruction
//! text, sanitizing what the provider returned, and the retry/backoff and
//! usage-recording step that drives each attempt.
//!
//! The HTTP transport itself lives outside the library; callers perform one
//! request per attempt and feed the outcome back in.

use vstd::prelude::*;

use crate::usage::{bumped, loc_upsert, UsageData, UsageLedger};
use crate::diff::{dec_digits, usize_to_string};

verus! {

/// Total number of attempts for one translation request.
pub const MAX_ATTEMPTS: u64 = 3;

/// The backoff before attempt `k + 1` is `(k + 1) * BACKOFF_STEP_MS`.
pub const BACKOFF_STEP_MS: u64 = 200;

/// Is `c` blank, for the purpose of trimming a response line?
pub open spec fn is_space(c: char) -> bool {
    c == ' ' || c == '\t' || c == '\r' || c == '\n'
}

/// First non-blank position in `[a, b)`, or `b`.
pub open spec fn lskip(s: Seq<char>, a: int, b: int) -> int
    decreases b - a,
{
    if a >= b {
        b
    } else if is_space(s[a]) {
        lskip(s, a + 1, b)
    } else {
        a
    }
}

/// Position just after the last non-blank character in `[a, b)`, or `a`.
pub open spec fn rskip(s: Seq<char>, a: int, b: int) -> int
    decreases b - a,
{
    if b <= a {
        a
    } else if is_space(s[b - 1]) {
        rskip(s, a, b - 1)
    } else {
        b
    }
}

/// `s[a..b]` with blanks removed from both ends.
pub open spec fn trim_range(s: Seq<char>, a: int, b: int) -> Seq<char> {
    if lskip(s, a, b) == b {
        Seq::empty()
    } else {
        s.subrange(lskip(s, a, b), rskip(s, a, b))
    }
}

proof fn lemma_lskip_bounds(s: Seq<char>, a: int, b: int)
    requires
        0 <= a <= b <= s.len(),
    ensures
        a <= lskip(s, a, b) <= b,
        lskip(s, a, b) < b ==> !is_space(s[lskip(s, a, b)]),
    decreases b - a,
{
    if a < b && is_space(s[a]) {
        lemma_lskip_bounds(s, a + 1, b);
    }
}

proof fn lemma_rskip_bounds(s: Seq<char>, a: int, b: int)
    requires
        0 <= a <= b <= s.len(),
    ensures
        a <= rskip(s, a, b) <= b,
    decreases b - a,
{
    if a < b && is_space(s[b - 1]) {
        lemma_rskip_bounds(s, a, b - 1);
    }
}

pub proof fn lemma_skip_bounds(s: Seq<char>, a: int, b: int)
    requires
        0 <= a <= b <= s.len(),
    ensures
        a <= lskip(s, a, b) <= b,
        a <= rskip(s, a, b) <= b,
        lskip(s, a, b) < b ==> lskip(s, a, b) < rskip(s, a, b),
{
    lemma_lskip_bounds(s, a, b);
    lemma_rskip_bounds(s, a, b);
    if lskip(s, a, b) < b {
        lemma_rskip_lower(s, a, b, lskip(s, a, b));
    }
}

/// A non-blank character at `p` keeps `rskip` above `p`.
proof fn lemma_rskip_lower(s: Seq<char>, a: int, b: int, p: int)
    requires
        0 <= a <= p < b <= s.len(),
        !is_space(s[p]),
    ensures
        rskip(s, a, b) > p,
    decreases b - a,
{
    if b - 1 > p && is_space(s[b - 1]) {
        lemma_rskip_lower(s, a, b - 1, p);
    }
}

/// Position of the first newline at or after `from`, or the end.
pub open spec fn line_end(s: Seq<char>, from: int) -> int
    decreases s.len() - from,
{
    if from >= s.len() {
        s.len() as int
    } else if s[from] == '\n' {
        from
    } else {
        line_end(s, from + 1)
    }
}

pub proof fn lemma_line_end(s: Seq<char>, from: int)
    requires
        0 <= from <= s.len(),
    ensures
        from <= line_end(s, from) <= s.len(),
        line_end(s, from) < s.len() ==> s[line_end(s, from)] == '\n',
        forall|k: int| from <= k < line_end(s, from) ==> s[k] != '\n',
    decreases s.len() - from,
{
    if from < s.len() && s[from] != '\n' {
        lemma_line_end(s, from + 1);
    }
}

/// The first line of `s[from..]` that is not blank, trimmed; empty when every
/// line is blank.
pub open spec fn first_line_trimmed(s: Seq<char>, from: int) -> Seq<char>
    decreases s.len() - from,
    when 0 <= from <= s.len()
    via first_line_trimmed_decreases
{
    let e = line_end(s, from);
    if trim_range(s, from, e).len() > 0 {
        trim_range(s, from, e)
    } else if e >= s.len() {
        Seq::empty()
    } else {
        first_line_trimmed(s, e + 1)
    }
}

#[via_fn]
proof fn first_line_trimmed_decreases(s: Seq<char>, from: int) {
    if 0 <= from <= s.len() {
        lemma_line_end(s, from);
    }
}

/// One layer of surrounding quotes removed, if both ends match, with the
/// remainder trimmed again.
pub open spec fn strip_pair(t: Seq<char>, lq: char, rq: char) -> Seq<char> {
    if t.len() >= 2 && t[0] == lq && t[t.len() - 1] == rq {
        trim_range(t.subrange(1, t.len() - 1), 0, t.len() - 2)
    } else {
        t
    }
}

/// The sanitized form of a raw provider response: the first non-blank line,
/// trimmed, with one layer of matching plain, curly or single quotes removed.
pub open spec fn sanitize_spec(s: Seq<char>) -> Seq<char> {
    strip_pair(strip_pair(strip_pair(first_line_trimmed(s, 0), '"', '"'), '\u{201c}', '\u{201d}'),
        '\'', '\'')
}

/// Trim blanks from both ends of `s[a..b]`.
pub fn trim_substring(s: &str, a: usize, b: usize) -> (r: String)
    requires
        a <= b <= s@.len(),
    ensures
        r@ == trim_range(s@, a as int, b as int),
{
    proof {
        lemma_skip_bounds(s@, a as int, b as int);
    }
    let mut lo: usize = a;
    while lo < b && is_space_exec(s.get_char(lo))
        invariant
            a <= lo <= b <= s@.len(),
            lskip(s@, a as int, b as int) == lskip(s@, lo as int, b as int),
        decreases b - lo,
    {
        lo += 1;
    }
    if lo == b {
        let r = String::new();
        proof {
            assert(r@ =~= trim_range(s@, a as int, b as int));
        }
        return r;
    }
    proof {
        assert(!is_space(s@[lo as int]));
    }
    let mut hi: usize = b;
    while hi > lo && is_space_exec(s.get_char(hi - 1))
        invariant
            lo <= hi <= b,
            lo < b <= s@.len(),
            !is_space(s@[lo as int]),
            rskip(s@, lo as int, b as int) == rskip(s@, lo as int, hi as int),
        decreases hi,
    {
        hi -= 1;
    }
    proof {
        lemma_rskip_lower(s@, lo as int, b as int, lo as int);
        if hi > lo {
            assert(rskip(s@, lo as int, hi as int) == hi);
        } else {
            assert(rskip(s@, lo as int, hi as int) == lo as int);
            assert(false);
        }
        assert(rskip(s@, a as int, b as int) == rskip(s@, lo as int, b as int)) by {
            lemma_rskip_left(s@, a as int, lo as int, b as int);
        }
        assert(lskip(s@, lo as int, b as int) == lo);
    }
    s.substring_char(lo, hi).to_owned()
}

/// `rskip` does not depend on where the left bound lies, below the result.
proof fn lemma_rskip_left(s: Seq<char>, a: int, lo: int, b: int)
    requires
        0 <= a <= lo <= b <= s.len(),
        lo < b,
        !is_space(s[lo]),
    ensures
        rskip(s, a, b) == rskip(s, lo, b),
    decreases b,
{
    if b > lo + 1 && is_space(s[b - 1]) {
        lemma_rskip_left(s, a, lo, b - 1);
    } else if b == lo + 1 {
    }
}

fn is_space_exec(c: char) -> (r: bool)
    ensures
        r == is_space(c),
{
    c == ' ' || c == '\t' || c == '\r' || c == '\n'
}

/// Remove one layer of surrounding quotes, trimming the remainder.
fn strip_pair_exec(t: String, lq: char, rq: char) -> (r: String)
    ensures
        r@ == strip_pair(t@, lq, rq),
{
    let n = t.as_str().unicode_len();
    if n >= 2 && t.as_str().get_char(0) == lq && t.as_str().get_char(n - 1) == rq {
        let inner = t.as_str().substring_char(1, n - 1);
        let r = trim_substring(inner, 0, n - 2);
        proof {
            assert(inner@ == t@.subrange(1, t@.len() - 1));
        }
        r
    } else {
        t
    }
}

/// The first non-blank line at or after `from`, trimmed.
fn first_line_exec(raw: &str, from: usize, n: usize) -> (r: String)
    requires
        from <= n,
        n == raw@.len(),
    ensures
        r@ == first_line_trimmed(raw@, from as int),
    decreases n - from,
{
    proof {
        lemma_line_end(raw@, from as int);
    }
    let e = line_end_exec(raw, from, n);
    let t = trim_substring(raw, from, e);
    if !t.as_str().is_empty() {
        t
    } else if e >= n {
        let r = String::new();
        proof {
            assert(r@ =~= first_line_trimmed(raw@, from as int));
        }
        r
    } else {
        first_line_exec(raw, e + 1, n)
    }
}

/// Take the first non-blank line of a raw response, trim it, and strip one
/// layer of matching quotes from around it.
pub fn sanitize_response(raw: &str) -> (r: String)
    ensures
        r@ == sanitize_spec(raw@),
{
    let n = raw.unicode_len();
    let core = first_line_exec(raw, 0, n);
    let s1 = strip_pair_exec(core, '"', '"');
    let s2 = strip_pair_exec(s1, '\u{201c}', '\u{201d}');
    strip_pair_exec(s2, '\'', '\'')
}

/// Position of the first newline at or after `from`.
fn line_end_exec(s: &str, from: usize, n: usize) -> (j: usize)
    requires
        from <= n,
        n == s@.len(),
    ensures
        j == line_end(s@, from as int),
        from <= j <= n,
{
    let mut j: usize = from;
    while j < n && s.get_char(j) != '\n'
        invariant
            from <= j <= n,
            n == s@.len(),
            line_end(s@, from as int) == line_end(s@, j as int),
        decreases n - j,
    {
        j += 1;
    }
    proof {
        lemma_line_end(s@, from as int);
    }
    j
}

/// The text of `parts` joined with `", "`.
pub open spec fn join_comma(parts: Seq<Seq<char>>) -> Seq<char>
    decreases parts.len(),
{
    if parts.len() == 0 {
        Seq::empty()
    } else if parts.len() == 1 {
        parts[0]
    } else {
        join_comma(parts.drop_last()) + (", ")@ + parts.last()
    }
}

/// The instruction text for one request: source and target locale, the
/// placeholder list that must reappear verbatim, and the key path as
/// context, when given.
pub open spec fn prompt_spec(
    src: Seq<char>,
    tgt: Seq<char>,
    placeholders: Seq<Seq<char>>,
    key_path: Option<Seq<char>>,
) -> Seq<char> {
    ("Translate the user text from ")@ + src + (" to ")@ + tgt + (
    ".\n- Preserve placeholders unchanged (verbatim), e.g. {like_this}, :named, %s, {...}, {...}.\n- Reply with the translated text only: no quotes, no code fences, no labels, no commentary.\n- Do not repeat the placeholder list.\n")@
        + (if placeholders.len() > 0 {
        ("- Required placeholders (must appear verbatim): ")@ + join_comma(placeholders) + ("\n")@
    } else {
        Seq::empty()
    }) + (match key_path {
        Some(k) => (
        "- Key (context only; not part of the text to translate): ")@
            + k + ("\n")@,
        None => Seq::empty(),
    })
}

/// Build the instruction text for one request.
pub fn build_system_prompt(
    source_locale: &str,
    target_locale: &str,
    placeholders: &Vec<String>,
    key_path: Option<&str>,
) -> (r: String)
    ensures
        r@ == prompt_spec(
            source_locale@,
            target_locale@,
            placeholders.deep_view(),
            key_path.deep_view(),
        ),
{
    let mut s = String::from_str("Translate the user text from ");
    s.append(source_locale);
    s.append(" to ");
    s.append(target_locale);
    s.append(
        ".\n- Preserve placeholders unchanged (verbatim), e.g. {like_this}, :named, %s, {...}, {...}.\n- Reply with the translated text only: no quotes, no code fences, no labels, no commentary.\n- Do not repeat the placeholder list.\n",
    );
    if placeholders.len() > 0 {
        s.append("- Required placeholders (must appear verbatim): ");
        let mut i: usize = 0;
        let ghost ph = placeholders.deep_view();
        let ghost base = s@;
        while i < placeholders.len()
            invariant
                0 < i <= ph.len() || i == 0,
                i <= ph.len(),
                ph == placeholders.deep_view(),
                ph.len() == placeholders@.len(),
                i > 0 ==> s@ == base + join_comma(ph.take(i as int)),
                i == 0 ==> s@ == base,
            decreases placeholders@.len() - i,
        {
            if i > 0 {
                s.append(", ");
            }
            s.append(placeholders[i].as_str());
            proof {
                assert(ph.take(i as int + 1).drop_last() =~= ph.take(i as int));
                assert(ph.take(i as int + 1).last() == ph[i as int]);
                if i == 0 {
                    assert(join_comma(ph.take(1)) == ph[0]);
                }
            }
            i += 1;
        }
        proof {
            assert(ph.take(placeholders@.len() as int) =~= ph);
        }
        s.append("\n");
    }
    match key_path {
        Some(k) => {
            s.append(
                "- Key (context only; not part of the text to translate): ",
            );
            s.append(k);
            s.append("\n");
        },
        None => {},
    }
    s
}

/// What one attempt against the provider came to: a success-status response
/// with its content and reported usage, a structured non-success response,
/// or a transport failure with no structured response at all.
pub enum AttemptOutcome {
    Success { content: String, usage: Option<UsageData> },
    HttpFailure { status: u16, body: String },
    TransportFailure { message: String },
}

/// What the caller must do next: hand the sanitized text back, sleep and try
/// again, or give up with the last error's text.
#[derive(Debug, PartialEq, Eq)]
pub enum RetryStep {
    Finish(String),
    Backoff(u64),
    Fail(String),
}

/// The error text for a structured non-success response.
pub open spec fn http_error_msg(status: u16, body: Seq<char>) -> Seq<char> {
    ("OpenAI error ")@ + dec_digits(status as int) + (": ")@ + body
}

/// Drive one attempt's outcome: record usage for every structured response
/// (success or not; a transport failure leaves the ledger untouched), hand
/// back the sanitized text on success, and otherwise back off linearly until
/// the attempt budget is spent.
pub fn provider_step(
    attempt: u64,
    outcome: AttemptOutcome,
    ledger: &mut UsageLedger,
    target_locale: &str,
) -> (r: RetryStep)
    requires
        attempt < MAX_ATTEMPTS,
    ensures
        match outcome {
            AttemptOutcome::Success { content, usage } => {
                &&& final(ledger).global_spec() == bumped(old(ledger).global_spec(), usage)
                &&& final(ledger).locales_spec() == loc_upsert(
                    old(ledger).locales_spec(),
                    target_locale@,
                    usage,
                )
                &&& r matches RetryStep::Finish(t) && t@ == sanitize_spec(content@)
            },
            AttemptOutcome::HttpFailure { status, body } => {
                &&& final(ledger).global_spec() == bumped(old(ledger).global_spec(), None)
                &&& final(ledger).locales_spec() == loc_upsert(
                    old(ledger).locales_spec(),
                    target_locale@,
                    None,
                )
                &&& attempt + 1 < MAX_ATTEMPTS ==> r == RetryStep::Backoff(
                    ((attempt + 1) * BACKOFF_STEP_MS) as u64,
                )
                &&& attempt + 1 == MAX_ATTEMPTS ==> (r matches RetryStep::Fail(m) && m@
                    == http_error_msg(status, body@))
            },
            AttemptOutcome::TransportFailure { message } => {
                &&& *final(ledger) == *old(ledger)
                &&& attempt + 1 < MAX_ATTEMPTS ==> r == RetryStep::Backoff(
                    ((attempt + 1) * BACKOFF_STEP_MS) as u64,
                )
                &&& attempt + 1 == MAX_ATTEMPTS ==> (r matches RetryStep::Fail(m) && m@
                    == message@)
            },
        },
{
    match outcome {
        AttemptOutcome::Success { content, usage } => {
            ledger.record(target_locale, usage);
            RetryStep::Finish(sanitize_response(content.as_str()))
        },
        AttemptOutcome::HttpFailure { status, body } => {
            ledger.record(target_locale, None);
            if attempt + 1 < MAX_ATTEMPTS {
                RetryStep::Backoff((attempt + 1) * BACKOFF_STEP_MS)
            } else {
                let mut m = String::from_str("OpenAI error ");
                m.append(usize_to_string(status as usize).as_str());
                m.append(": ");
                m.append(body.as_str());
                RetryStep::Fail(m)
            }
        },
        AttemptOutcome::TransportFailure { message } => {
            if attempt + 1 < MAX_ATTEMPTS {
                RetryStep::Backoff((attempt + 1) * BACKOFF_STEP_MS)
            } else {
                RetryStep::Fail(message)
            }
        },
    }
}

} // verus!
