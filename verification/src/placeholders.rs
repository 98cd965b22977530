//! The placeholder scanner: find interpolation tokens that a translation
//! must reproduce verbatim.
//!
//! Recognized shapes, tried in this order at each position so that no token
//! overlaps another: `{{...}}`, `{...}`, `:identifier`, and `%s`, `%d` or a
//! bare `%`. Each distinct token text is reported once, in first-seen order.

use vstd::prelude::*;

verus! {

/// Position of the first `}` at or after `from`, or the end of the string.
pub open spec fn brace_close(s: Seq<char>, from: int) -> int
    decreases s.len() - from,
{
    if from >= s.len() {
        s.len() as int
    } else if s[from] == '}' {
        from
    } else {
        brace_close(s, from + 1)
    }
}

pub proof fn lemma_brace_close(s: Seq<char>, from: int)
    requires
        0 <= from <= s.len(),
    ensures
        from <= brace_close(s, from) <= s.len(),
        brace_close(s, from) < s.len() ==> s[brace_close(s, from)] == '}',
        forall|k: int| from <= k < brace_close(s, from) ==> s[k] != '}',
    decreases s.len() - from,
{
    if from < s.len() && s[from] != '}' {
        lemma_brace_close(s, from + 1);
    }
}

/// A letter or underscore, as an identifier may start with.
pub open spec fn is_ident_start(c: char) -> bool {
    (97 <= c as u32 <= 122) || (65 <= c as u32 <= 90) || c == '_'
}

/// A letter, digit or underscore.
pub open spec fn is_ident_char(c: char) -> bool {
    is_ident_start(c) || (48 <= c as u32 <= 57)
}

/// Position of the first non-identifier character at or after `from`, or the
/// end of the string.
pub open spec fn ident_end(s: Seq<char>, from: int) -> int
    decreases s.len() - from,
{
    if from >= s.len() {
        s.len() as int
    } else if !is_ident_char(s[from]) {
        from
    } else {
        ident_end(s, from + 1)
    }
}

pub proof fn lemma_ident_end(s: Seq<char>, from: int)
    requires
        0 <= from <= s.len(),
    ensures
        from <= ident_end(s, from) <= s.len(),
    decreases s.len() - from,
{
    if from < s.len() && is_ident_char(s[from]) {
        lemma_ident_end(s, from + 1);
    }
}

/// The token starting at position `i`, with the position just after it, or
/// `None` when no recognized token starts here.
pub open spec fn token_at(s: Seq<char>, i: int) -> Option<(Seq<char>, int)> {
    if s[i] == '{' {
        let j = brace_close(s, i + 2);
        if i + 1 < s.len() && s[i + 1] == '{' && j > i + 2 && j + 1 < s.len() && s[j + 1] == '}' {
            Some((s.subrange(i, j + 2), j + 2))
        } else {
            let j2 = brace_close(s, i + 1);
            if j2 > i + 1 && j2 < s.len() {
                Some((s.subrange(i, j2 + 1), j2 + 1))
            } else {
                None
            }
        }
    } else if s[i] == ':' {
        if i + 1 < s.len() && is_ident_start(s[i + 1]) {
            let e = ident_end(s, i + 2);
            Some((s.subrange(i, e), e))
        } else {
            None
        }
    } else if s[i] == '%' {
        if i + 1 < s.len() && (s[i + 1] == 's' || s[i + 1] == 'd') {
            Some((s.subrange(i, i + 2), i + 2))
        } else {
            Some((s.subrange(i, i + 1), i + 1))
        }
    } else {
        None
    }
}

/// Every token of `s[i..]`, leftmost first, repeats included.
pub open spec fn scan_tokens(s: Seq<char>, i: int) -> Seq<Seq<char>>
    decreases s.len() - i,
    when 0 <= i
    via scan_tokens_decreases
{
    if i >= s.len() {
        Seq::empty()
    } else {
        match token_at(s, i) {
            Some((tok, next)) => seq![tok] + scan_tokens(s, next),
            None => scan_tokens(s, i + 1),
        }
    }
}

#[via_fn]
proof fn scan_tokens_decreases(s: Seq<char>, i: int) {
    if 0 <= i < s.len() {
        lemma_token_at_bounds(s, i);
    }
}

pub proof fn lemma_token_at_bounds(s: Seq<char>, i: int)
    requires
        0 <= i < s.len(),
    ensures
        match token_at(s, i) {
            Some((tok, next)) => i < next <= s.len() && tok == s.subrange(i, next),
            None => true,
        },
{
    lemma_brace_close(s, i + 1);
    if i + 2 <= s.len() {
        lemma_brace_close(s, i + 2);
        lemma_ident_end(s, i + 2);
    }
}

/// Keep the first occurrence of each token, in order.
pub open spec fn dedup(toks: Seq<Seq<char>>) -> Seq<Seq<char>>
    decreases toks.len(),
{
    if toks.len() == 0 {
        Seq::empty()
    } else {
        let d = dedup(toks.drop_last());
        if d.contains(toks.last()) {
            d
        } else {
            d.push(toks.last())
        }
    }
}

/// Is the text of `tok` already among `v`?
fn contains_str(v: &Vec<String>, tok: &String) -> (r: bool)
    ensures
        r == v.deep_view().contains(tok@),
{
    let mut i: usize = 0;
    while i < v.len()
        invariant
            i <= v@.len(),
            forall|t: int| 0 <= t < i ==> (#[trigger] v.deep_view()[t]) != tok@,
        decreases v@.len() - i,
    {
        if v[i].eq(tok) {
            proof {
                assert(v.deep_view()[i as int] == tok@);
            }
            return true;
        }
        i += 1;
    }
    proof {
        if v.deep_view().contains(tok@) {
            let t = choose|t: int|
                0 <= t < v.deep_view().len() && (#[trigger] v.deep_view()[t]) == tok@;
            assert(false);
        }
    }
    false
}

/// Position of the first `}` at or after `from`.
fn find_brace_close(s: &str, from: usize, n: usize) -> (j: usize)
    requires
        from <= n,
        n == s@.len(),
    ensures
        j == brace_close(s@, from as int),
        from <= j <= n,
{
    let mut j: usize = from;
    while j < n && s.get_char(j) != '}'
        invariant
            from <= j <= n,
            n == s@.len(),
            brace_close(s@, from as int) == brace_close(s@, j as int),
        decreases n - j,
    {
        j += 1;
    }
    proof {
        lemma_brace_close(s@, from as int);
    }
    j
}

/// Is `c` a letter, digit or underscore?
fn ident_char_exec(c: char) -> (r: bool)
    ensures
        r == is_ident_char(c),
{
    let u = c as u32;
    proof {
        assert(c == '_' <==> c as u32 == 95);
    }
    (97 <= u && u <= 122) || (65 <= u && u <= 90) || u == 95 || (48 <= u && u <= 57)
}

/// Position of the first non-identifier character at or after `from`.
fn find_ident_end(s: &str, from: usize, n: usize) -> (j: usize)
    requires
        from <= n,
        n == s@.len(),
    ensures
        j == ident_end(s@, from as int),
        from <= j <= n,
{
    let mut j: usize = from;
    while j < n && ident_char_exec(s.get_char(j))
        invariant
            from <= j <= n,
            n == s@.len(),
            ident_end(s@, from as int) == ident_end(s@, j as int),
        decreases n - j,
    {
        j += 1;
    }
    proof {
        lemma_ident_end(s@, from as int);
    }
    j
}

/// The token starting at `i`, as text, with the position just after it.
fn token_at_exec(s: &str, i: usize, n: usize) -> (r: Option<(String, usize)>)
    requires
        i < n,
        n == s@.len(),
    ensures
        match r {
            Some(p) => token_at(s@, i as int) == Some((p.0@, p.1 as int)) && i < p.1 <= n,
            None => token_at(s@, i as int) is None,
        },
{
    proof {
        lemma_token_at_bounds(s@, i as int);
    }
    let c = s.get_char(i);
    if c == '{' {
        if n - i >= 2 {
            let j = find_brace_close(s, i + 2, n);
            if i + 1 < n && s.get_char(i + 1) == '{' && j > i + 2 && j < n - 1 && s.get_char(j + 1)
                == '}' {
                return Some((s.substring_char(i, j + 2).to_owned(), j + 2));
            }
        }
        proof {
            if i + 2 > s@.len() {
                // a lone `{` at the very end: the double-brace shape cannot
                // apply, and `brace_close(s, i + 2)` is the string's end
                assert(brace_close(s@, i as int + 2) == s@.len());
            }
        }
        let j2 = find_brace_close(s, i + 1, n);
        if j2 > i + 1 && j2 < n {
            Some((s.substring_char(i, j2 + 1).to_owned(), j2 + 1))
        } else {
            None
        }
    } else if c == ':' {
        if i + 1 < n {
            let u = s.get_char(i + 1) as u32;
            if (97 <= u && u <= 122) || (65 <= u && u <= 90) || u == 95 {
                proof {
                    assert(s@[i as int + 1] == '_' <==> s@[i as int + 1] as u32 == 95);
                }
                let e = find_ident_end(s, i + 2, n);
                return Some((s.substring_char(i, e).to_owned(), e));
            }
            proof {
                assert(s@[i as int + 1] == '_' <==> s@[i as int + 1] as u32 == 95);
            }
        }
        None
    } else if c == '%' {
        if i + 1 < n {
            let c2 = s.get_char(i + 1);
            if c2 == 's' || c2 == 'd' {
                return Some((s.substring_char(i, i + 2).to_owned(), i + 2));
            }
        }
        Some((s.substring_char(i, i + 1).to_owned(), i + 1))
    } else {
        None
    }
}

/// The distinct placeholder tokens of `s`, in first-seen order.
pub fn extract_placeholders(s: &str) -> (r: Vec<String>)
    ensures
        r.deep_view() == dedup(scan_tokens(s@, 0)),
{
    let n = s.unicode_len();
    let mut out: Vec<String> = Vec::new();
    let mut done: Ghost<Seq<Seq<char>>> = Ghost(Seq::empty());
    proof {
        assert(out.deep_view() =~= dedup(Seq::empty()));
        assert(Seq::empty() + scan_tokens(s@, 0) =~= scan_tokens(s@, 0));
    }
    let mut i: usize = 0;
    while i < n
        invariant
            i <= n,
            n == s@.len(),
            scan_tokens(s@, 0) == done@ + scan_tokens(s@, i as int),
            out.deep_view() == dedup(done@),
        decreases n - i,
    {
        match token_at_exec(s, i, n) {
            Some((tok, next)) => {
                let ghost tokv = tok@;
                proof {
                    assert(done@.push(tokv).drop_last() =~= done@);
                    assert(done@ + scan_tokens(s@, i as int) =~= done@.push(tokv) + scan_tokens(
                        s@,
                        next as int,
                    ));
                }
                if !contains_str(&out, &tok) {
                    let ghost od = out.deep_view();
                    out.push(tok);
                    proof {
                        assert(out.deep_view() =~= od.push(tokv));
                        assert(dedup(done@.push(tokv)) == dedup(done@).push(tokv));
                    }
                } else {
                    proof {
                        assert(dedup(done@.push(tokv)) == dedup(done@));
                    }
                }
                proof {
                    done@ = done@.push(tokv);
                }
                i = next;
            },
            None => {
                i += 1;
            },
        }
    }
    proof {
        assert(done@ + scan_tokens(s@, i as int) =~= done@);
    }
    out
}

} // verus!
