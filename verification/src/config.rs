//! Configuration surface: the settings the run consumes, their defaults, and
//! the small pure rules around them — file-pattern expansion, locale-list
//! parsing and API-key resolution.

use vstd::prelude::*;

use crate::openai_client::trim_range;

verus! {

/// Settings for one run.
#[derive(Debug)]
pub struct Config {
    pub source_locale: String,
    pub file_pattern: String,
    pub locales: Vec<String>,
    pub concurrency: usize,
    pub openai: OpenAi,
    pub translate: Translate,
}

/// Provider settings.
#[derive(Debug)]
pub struct OpenAi {
    pub model: String,
    pub api_key: Option<String>,
}

/// Translation policy settings.
#[derive(Debug)]
pub struct Translate {
    pub overwrite_existing: bool,
    pub preserve_placeholders: bool,
}

impl Default for Config {
    /// The defaults used when no configuration file is present.
    fn default() -> (r: Config)
        ensures
            r.source_locale@ == ("en-GB")@,
            r.file_pattern@ == ("{locale}.json")@,
            r.locales@.len() == 0,
            r.concurrency == 5,
            r.openai.model@ == ("gpt-4o-mini")@,
            r.openai.api_key is None,
            r.translate.overwrite_existing == false,
            r.translate.preserve_placeholders == true,
    {
        Config {
            source_locale: String::from_str("en-GB"),
            file_pattern: String::from_str("{locale}.json"),
            locales: Vec::new(),
            concurrency: 5,
            openai: OpenAi::default(),
            translate: Translate::default(),
        }
    }
}

impl Default for OpenAi {
    fn default() -> (r: OpenAi)
        ensures
            r.model@ == ("gpt-4o-mini")@,
            r.api_key is None,
    {
        OpenAi { model: String::from_str("gpt-4o-mini"), api_key: None }
    }
}

impl Default for Translate {
    fn default() -> (r: Translate)
        ensures
            r.overwrite_existing == false,
            r.preserve_placeholders == true,
    {
        Translate { overwrite_existing: false, preserve_placeholders: true }
    }
}

/// The placeholder that a file pattern replaces with the locale name.
pub open spec fn locale_needle() -> Seq<char> {
    seq!['{', 'l', 'o', 'c', 'a', 'l', 'e', '}']
}

/// `p` with every `{locale}` replaced by `loc`, leftmost first.
pub open spec fn render_pattern(p: Seq<char>, loc: Seq<char>) -> Seq<char>
    decreases p.len(),
{
    if p.len() >= 8 && p.take(8) == locale_needle() {
        loc + render_pattern(p.skip(8), loc)
    } else if p.len() == 0 {
        Seq::empty()
    } else {
        seq![p[0]] + render_pattern(p.skip(1), loc)
    }
}

/// Does `{locale}` stand at position `i` of `p`?
fn needle_at(p: &str, i: usize, n: usize) -> (r: bool)
    requires
        i <= n,
        n == p@.len(),
    ensures
        r == (i + 8 <= p@.len() && p@.subrange(i as int, i as int + 8) == locale_needle()),
{
    if n - i < 8 {
        return false;
    }
    let r = p.get_char(i) == '{' && p.get_char(i + 1) == 'l' && p.get_char(i + 2) == 'o'
        && p.get_char(i + 3) == 'c' && p.get_char(i + 4) == 'a' && p.get_char(i + 5) == 'l'
        && p.get_char(i + 6) == 'e' && p.get_char(i + 7) == '}';
    proof {
        if r {
            assert(p@.subrange(i as int, i as int + 8) =~= locale_needle());
        } else {
            if p@.subrange(i as int, i as int + 8) == locale_needle() {
                assert(p@[i as int] == locale_needle()[0]);
                assert(p@[i as int + 1] == locale_needle()[1]);
                assert(p@[i as int + 2] == locale_needle()[2]);
                assert(p@[i as int + 3] == locale_needle()[3]);
                assert(p@[i as int + 4] == locale_needle()[4]);
                assert(p@[i as int + 5] == locale_needle()[5]);
                assert(p@[i as int + 6] == locale_needle()[6]);
                assert(p@[i as int + 7] == locale_needle()[7]);
                assert(false);
            }
        }
    }
    r
}

/// Render `p[i..]` with the locale substituted.
fn render_from(p: &str, i: usize, n: usize, loc: &str) -> (r: String)
    requires
        i <= n,
        n == p@.len(),
    ensures
        r@ == render_pattern(p@.skip(i as int), loc@),
    decreases n - i,
{
    let ghost tail = p@.skip(i as int);
    if i == n {
        let r = String::new();
        proof {
            assert(tail.len() == 0);
        }
        r
    } else if needle_at(p, i, n) {
        proof {
            assert(tail.take(8) =~= p@.subrange(i as int, i as int + 8));
            assert(tail.skip(8) =~= p@.skip(i as int + 8));
        }
        let rest = render_from(p, i + 8, n, loc);
        let mut out = loc.to_owned();
        out.append(rest.as_str());
        out
    } else {
        proof {
            if tail.len() >= 8 {
                assert(tail.take(8) =~= p@.subrange(i as int, i as int + 8));
            }
            assert(tail.skip(1) =~= p@.skip(i as int + 1));
            assert(tail[0] == p@[i as int]);
        }
        let rest = render_from(p, i + 1, n, loc);
        let mut out = p.substring_char(i, i + 1).to_owned();
        out.append(rest.as_str());
        proof {
            assert(p@.subrange(i as int, i as int + 1) =~= seq![p@[i as int]]);
        }
        out
    }
}

/// Expand a file pattern: every `{locale}` becomes the locale's name.
pub fn render_file_pattern(pattern: &str, locale: &str) -> (r: String)
    ensures
        r@ == render_pattern(pattern@, locale@),
{
    let n = pattern.unicode_len();
    let r = render_from(pattern, 0, n, locale);
    proof {
        assert(pattern@.skip(0) =~= pattern@);
    }
    r
}

/// Position of the first comma at or after `from`, or the end.
pub open spec fn comma_pos(s: Seq<char>, from: int) -> int
    decreases s.len() - from,
{
    if from >= s.len() {
        s.len() as int
    } else if s[from] == ',' {
        from
    } else {
        comma_pos(s, from + 1)
    }
}

pub proof fn lemma_comma_pos(s: Seq<char>, from: int)
    requires
        0 <= from <= s.len(),
    ensures
        from <= comma_pos(s, from) <= s.len(),
    decreases s.len() - from,
{
    if from < s.len() && s[from] != ',' {
        lemma_comma_pos(s, from + 1);
    }
}

/// The locale names in a comma-separated list from position `i` on: each
/// piece trimmed of blanks, empty pieces dropped.
pub open spec fn locales_from(s: Seq<char>, i: int) -> Seq<Seq<char>>
    decreases s.len() - i,
    when 0 <= i <= s.len()
    via locales_from_decreases
{
    let e = comma_pos(s, i);
    let piece = trim_range(s, i, e);
    let rest = if e >= s.len() {
        Seq::<Seq<char>>::empty()
    } else {
        locales_from(s, e + 1)
    };
    if piece.len() > 0 {
        seq![piece] + rest
    } else {
        rest
    }
}

#[via_fn]
proof fn locales_from_decreases(s: Seq<char>, i: int) {
    if 0 <= i <= s.len() {
        lemma_comma_pos(s, i);
    }
}

/// Position of the first comma at or after `from`.
fn comma_pos_exec(s: &str, from: usize, n: usize) -> (j: usize)
    requires
        from <= n,
        n == s@.len(),
    ensures
        j == comma_pos(s@, from as int),
        from <= j <= n,
{
    let mut j: usize = from;
    while j < n && s.get_char(j) != ','
        invariant
            from <= j <= n,
            n == s@.len(),
            comma_pos(s@, from as int) == comma_pos(s@, j as int),
        decreases n - j,
    {
        j += 1;
    }
    proof {
        lemma_comma_pos(s@, from as int);
    }
    j
}

/// The locale names from position `i` on.
fn locales_from_exec(s: &str, i: usize, n: usize) -> (r: Vec<String>)
    requires
        i <= n,
        n == s@.len(),
    ensures
        r.deep_view() == locales_from(s@, i as int),
    decreases n - i,
{
    let e = comma_pos_exec(s, i, n);
    let piece = crate::openai_client::trim_substring(s, i, e);
    let rest: Vec<String> = if e >= n {
        Vec::new()
    } else {
        locales_from_exec(s, e + 1, n)
    };
    proof {
        if e >= n {
            assert(rest.deep_view() =~= Seq::<Seq<char>>::empty());
        }
    }
    if !piece.as_str().is_empty() {
        let ghost pv = piece@;
        let ghost rv = rest.deep_view();
        let mut out = rest;
        out.insert(0, piece);
        proof {
            assert(out.deep_view() =~= seq![pv] + rv);
        }
        out
    } else {
        rest
    }
}

/// Split a comma-separated locale list, trimming blanks around each name and
/// dropping empty pieces.
pub fn parse_locales_arg(s: &str) -> (r: Vec<String>)
    ensures
        r.deep_view() == locales_from(s@, 0),
{
    let n = s.unicode_len();
    locales_from_exec(s, 0, n)
}

/// The key text the run will use: the environment's value when the variable
/// is set (even empty), else the configured one, else nothing.
pub open spec fn chosen_key(env_key: Option<Seq<char>>, cfg_key: Option<Seq<char>>) -> Seq<char> {
    match env_key {
        Some(e) => e,
        None => match cfg_key {
            Some(c) => c,
            None => Seq::empty(),
        },
    }
}

/// Resolve the API key: the environment takes precedence over the
/// configuration, and a blank outcome means no credential at all.
pub fn resolve_api_key(env_key: Option<String>, cfg_key: Option<String>) -> (r: Option<String>)
    ensures
        ({
            let chosen = chosen_key(env_key.deep_view(), cfg_key.deep_view());
            match r {
                Some(k) => k@ == chosen && chosen.len() > 0,
                None => chosen.len() == 0,
            }
        }),
{
    let picked = match env_key {
        Some(e) => Some(e),
        None => cfg_key,
    };
    match picked {
        Some(k) => {
            if k.as_str().is_empty() {
                None
            } else {
                Some(k)
            }
        },
        None => None,
    }
}

/// The locale list the run will use: the override when given, else the
/// configured list.
pub fn select_locales(override_arg: Option<&str>, cfg_locales: &Vec<String>) -> (r: Vec<String>)
    ensures
        match override_arg {
            Some(s) => r.deep_view() == locales_from(s@, 0),
            None => r.deep_view() == cfg_locales.deep_view(),
        },
{
    match override_arg {
        Some(s) => parse_locales_arg(s),
        None => {
            let mut out: Vec<String> = Vec::new();
            let mut i: usize = 0;
            let n = cfg_locales.len();
            while i < n
                invariant
                    i <= n,
                    n == cfg_locales@.len(),
                    out.deep_view().len() == i,
                    forall|t: int| 0 <= t < i ==> #[trigger] out.deep_view()[t]
                        == cfg_locales.deep_view()[t],
                decreases n - i,
            {
                let ghost od = out.deep_view();
                out.push(cfg_locales[i].clone());
                proof {
                    assert(out.deep_view() =~= od.push(cfg_locales@[i as int]@));
                }
                i += 1;
            }
            proof {
                assert(out.deep_view() =~= cfg_locales.deep_view());
            }
            out
        },
    }
}

} // verus!
