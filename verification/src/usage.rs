//! Token-usage accounting: counters kept globally and per target locale,
//! bumped once for every structured provider response.

use vstd::prelude::*;

verus! {

/// A point-in-time copy of one set of counters.
#[derive(Debug, Clone, Copy, PartialEq, Eq, Structural)]
pub struct TokenUsageSnapshot {
    pub prompt_tokens: u64,
    pub completion_tokens: u64,
    pub total_tokens: u64,
    pub requests: u64,
}

/// The token counts one provider response reported; any field may be absent.
#[derive(Debug, Clone, Copy, PartialEq, Eq, Structural)]
pub struct UsageData {
    pub prompt_tokens: Option<u64>,
    pub completion_tokens: Option<u64>,
    pub total_tokens: Option<u64>,
}

impl View for TokenUsageSnapshot {
    type V = TokenUsageSnapshot;

    open spec fn view(&self) -> TokenUsageSnapshot {
        *self
    }
}

impl DeepView for TokenUsageSnapshot {
    type V = TokenUsageSnapshot;

    open spec fn deep_view(&self) -> TokenUsageSnapshot {
        *self
    }
}

/// All counters at zero.
pub open spec fn zero_counters() -> TokenUsageSnapshot {
    TokenUsageSnapshot { prompt_tokens: 0, completion_tokens: 0, total_tokens: 0, requests: 0 }
}

/// Addition that stops at the counter's ceiling instead of wrapping.
pub open spec fn sat_add_spec(a: u64, b: u64) -> u64 {
    if a + b <= u64::MAX {
        (a + b) as u64
    } else {
        u64::MAX
    }
}

fn sat_add(a: u64, b: u64) -> (r: u64)
    ensures
        r == sat_add_spec(a, b),
{
    if a <= u64::MAX - b {
        a + b
    } else {
        u64::MAX
    }
}

/// An absent count adds nothing.
pub open spec fn opt0(o: Option<u64>) -> u64 {
    match o {
        Some(v) => v,
        None => 0,
    }
}

/// Counters after one structured response: reported counts are added and the
/// request count always grows by one; without usage data only the request
/// count grows.
pub open spec fn bumped(c: TokenUsageSnapshot, u: Option<UsageData>) -> TokenUsageSnapshot {
    match u {
        Some(d) => TokenUsageSnapshot {
            prompt_tokens: sat_add_spec(c.prompt_tokens, opt0(d.prompt_tokens)),
            completion_tokens: sat_add_spec(c.completion_tokens, opt0(d.completion_tokens)),
            total_tokens: sat_add_spec(c.total_tokens, opt0(d.total_tokens)),
            requests: sat_add_spec(c.requests, 1),
        },
        None => TokenUsageSnapshot {
            prompt_tokens: c.prompt_tokens,
            completion_tokens: c.completion_tokens,
            total_tokens: c.total_tokens,
            requests: sat_add_spec(c.requests, 1),
        },
    }
}

/// Index of the first per-locale entry for `loc`, or `-1`.
pub open spec fn loc_index(ls: Seq<(Seq<char>, TokenUsageSnapshot)>, loc: Seq<char>) -> int
    decreases ls.len(),
{
    if ls.len() == 0 {
        -1
    } else if ls[0].0 == loc {
        0
    } else {
        let p = loc_index(ls.skip(1), loc);
        if p == -1 {
            -1
        } else {
            p + 1
        }
    }
}

pub proof fn lemma_loc_index(ls: Seq<(Seq<char>, TokenUsageSnapshot)>, loc: Seq<char>)
    ensures
        ({
            let p = loc_index(ls, loc);
            &&& (p == -1 ==> forall|t: int| 0 <= t < ls.len() ==> (#[trigger] ls[t]).0 != loc)
            &&& (p != -1 ==> 0 <= p < ls.len() && ls[p].0 == loc && forall|t: int|
                0 <= t < p ==> (#[trigger] ls[t]).0 != loc)
        }),
    decreases ls.len(),
{
    if ls.len() > 0 && ls[0].0 != loc {
        lemma_loc_index(ls.skip(1), loc);
        assert forall|t: int| 1 <= t < ls.len() implies ls.skip(1)[t - 1] == ls[t] by {}
    }
}

/// The per-locale table after one response for `loc`: its entry is bumped in
/// place, or appended (starting from zero) the first time the locale is seen.
pub open spec fn loc_upsert(
    ls: Seq<(Seq<char>, TokenUsageSnapshot)>,
    loc: Seq<char>,
    u: Option<UsageData>,
) -> Seq<(Seq<char>, TokenUsageSnapshot)> {
    let p = loc_index(ls, loc);
    if p == -1 {
        ls.push((loc, bumped(zero_counters(), u)))
    } else {
        ls.update(p, (loc, bumped(ls[p].1, u)))
    }
}

/// Thread-unaware core of the usage tally: one global set of counters and one
/// per target locale, created lazily and never removed.
#[derive(Debug)]
pub struct UsageLedger {
    global: TokenUsageSnapshot,
    per_locale: Vec<(String, TokenUsageSnapshot)>,
}

impl UsageLedger {
    /// The global counters, as a mathematical value.
    pub closed spec fn global_spec(&self) -> TokenUsageSnapshot {
        self.global
    }

    /// The per-locale table, as a mathematical value.
    pub closed spec fn locales_spec(&self) -> Seq<(Seq<char>, TokenUsageSnapshot)> {
        Seq::new(self.per_locale@.len(), |i: int| (self.per_locale@[i].0@, self.per_locale@[i].1))
    }

    /// A fresh ledger: everything at zero, no locales yet.
    pub fn new() -> (r: UsageLedger)
        ensures
            r.global_spec() == zero_counters(),
            r.locales_spec() == Seq::<(Seq<char>, TokenUsageSnapshot)>::empty(),
    {
        let r = UsageLedger {
            global: TokenUsageSnapshot {
                prompt_tokens: 0,
                completion_tokens: 0,
                total_tokens: 0,
                requests: 0,
            },
            per_locale: Vec::new(),
        };
        proof {
            assert(r.locales_spec() =~= Seq::<(Seq<char>, TokenUsageSnapshot)>::empty());
        }
        r
    }

    /// Record one structured response for `locale`: the global counters and
    /// that locale's counters are bumped, no other locale is touched.
    pub fn record(&mut self, locale: &str, usage: Option<UsageData>)
        ensures
            final(self).global_spec() == bumped(old(self).global_spec(), usage),
            final(self).locales_spec() == loc_upsert(old(self).locales_spec(), locale@, usage),
    {
        let ghost ls0 = self.locales_spec();
        match usage {
            Some(d) => {
                self.global.prompt_tokens = sat_add(self.global.prompt_tokens, match d
                    .prompt_tokens {
                    Some(v) => v,
                    None => 0,
                });
                self.global.completion_tokens = sat_add(self.global.completion_tokens, match d
                    .completion_tokens {
                    Some(v) => v,
                    None => 0,
                });
                self.global.total_tokens = sat_add(self.global.total_tokens, match d.total_tokens {
                    Some(v) => v,
                    None => 0,
                });
                self.global.requests = sat_add(self.global.requests, 1);
            },
            None => {
                self.global.requests = sat_add(self.global.requests, 1);
            },
        }
        proof {
            lemma_loc_index(ls0, locale@);
        }
        let loc = locale.to_owned();
        let mut p: usize = 0;
        let n = self.per_locale.len();
        while p < n
            invariant
                p <= n,
                n == self.per_locale@.len(),
                ls0 == self.locales_spec(),
                ls0 == old(self).locales_spec(),
                self.global_spec() == bumped(old(self).global_spec(), usage),
                forall|t: int| 0 <= t < p ==> (#[trigger] ls0[t]).0 != loc@,
                loc@ == locale@,
            decreases n - p,
        {
            if self.per_locale[p].0.eq(&loc) {
                proof {
                    lemma_loc_index(ls0, locale@);
                    let q = loc_index(ls0, locale@);
                    assert(ls0[p as int].0 == locale@);
                    if q == -1 {
                        assert(false);
                    } else if q < p as int {
                        assert(ls0[q].0 == locale@);
                        assert(false);
                    } else if q > p as int {
                        assert(ls0[p as int].0 != locale@);
                        assert(false);
                    }
                }
                let counters = self.per_locale[p].1;
                let nc = TokenUsageSnapshot {
                    prompt_tokens: match usage {
                        Some(d) => sat_add(counters.prompt_tokens, match d.prompt_tokens {
                            Some(v) => v,
                            None => 0,
                        }),
                        None => counters.prompt_tokens,
                    },
                    completion_tokens: match usage {
                        Some(d) => sat_add(counters.completion_tokens, match d.completion_tokens {
                            Some(v) => v,
                            None => 0,
                        }),
                        None => counters.completion_tokens,
                    },
                    total_tokens: match usage {
                        Some(d) => sat_add(counters.total_tokens, match d.total_tokens {
                            Some(v) => v,
                            None => 0,
                        }),
                        None => counters.total_tokens,
                    },
                    requests: sat_add(counters.requests, 1),
                };
                let (k0, _old) = self.per_locale.remove(p);
                self.per_locale.insert(p, (k0, nc));
                proof {
                    assert(self.locales_spec() =~= loc_upsert(ls0, locale@, usage));
                }
                return ;
            }
            p += 1;
        }
        proof {
            lemma_loc_index(ls0, locale@);
            let q = loc_index(ls0, locale@);
            if q != -1 {
                assert(ls0[q].0 == locale@);
                assert(false);
            }
        }
        let fresh = TokenUsageSnapshot {
            prompt_tokens: 0,
            completion_tokens: 0,
            total_tokens: 0,
            requests: 0,
        };
        let nc = TokenUsageSnapshot {
            prompt_tokens: match usage {
                Some(d) => sat_add(fresh.prompt_tokens, match d.prompt_tokens {
                    Some(v) => v,
                    None => 0,
                }),
                None => fresh.prompt_tokens,
            },
            completion_tokens: match usage {
                Some(d) => sat_add(fresh.completion_tokens, match d.completion_tokens {
                    Some(v) => v,
                    None => 0,
                }),
                None => fresh.completion_tokens,
            },
            total_tokens: match usage {
                Some(d) => sat_add(fresh.total_tokens, match d.total_tokens {
                    Some(v) => v,
                    None => 0,
                }),
                None => fresh.total_tokens,
            },
            requests: sat_add(fresh.requests, 1),
        };
        self.per_locale.push((loc, nc));
        proof {
            assert(self.locales_spec() =~= loc_upsert(ls0, locale@, usage));
        }
    }

    /// The global counters.
    pub fn usage_snapshot(&self) -> (r: TokenUsageSnapshot)
        ensures
            r == self.global_spec(),
    {
        self.global
    }

    /// Every locale's counters, in the order the locales were first seen.
    pub fn usage_by_locale_snapshot(&self) -> (r: Vec<(String, TokenUsageSnapshot)>)
        ensures
            r.deep_view().len() == self.locales_spec().len(),
            forall|i: int| 0 <= i < r.deep_view().len() ==> #[trigger] r.deep_view()[i]
                == self.locales_spec()[i],
    {
        let mut out: Vec<(String, TokenUsageSnapshot)> = Vec::new();
        let mut i: usize = 0;
        let n = self.per_locale.len();
        while i < n
            invariant
                i <= n,
                n == self.per_locale@.len(),
                out.deep_view().len() == i,
                forall|t: int| 0 <= t < i ==> #[trigger] out.deep_view()[t]
                    == self.locales_spec()[t],
            decreases n - i,
        {
            let ghost od = out.deep_view();
            out.push((self.per_locale[i].0.clone(), self.per_locale[i].1));
            proof {
                assert(out.deep_view() =~= od.push(
                    (self.per_locale@[i as int].0@, self.per_locale@[i as int].1),
                ));
            }
            i += 1;
        }
        out
    }
}

} // verus!

verus! {

/// Counters after a whole run of structured responses, in order.
pub open spec fn apply_all(us: Seq<Option<UsageData>>) -> TokenUsageSnapshot
    decreases us.len(),
{
    if us.len() == 0 {
        zero_counters()
    } else {
        bumped(apply_all(us.drop_last()), us.last())
    }
}

/// The prompt tokens reported over a run.
pub open spec fn sum_prompt(us: Seq<Option<UsageData>>) -> int
    decreases us.len(),
{
    if us.len() == 0 {
        0
    } else {
        sum_prompt(us.drop_last()) + (match us.last() {
            Some(d) => opt0(d.prompt_tokens),
            None => 0,
        })
    }
}

/// The completion tokens reported over a run.
pub open spec fn sum_completion(us: Seq<Option<UsageData>>) -> int
    decreases us.len(),
{
    if us.len() == 0 {
        0
    } else {
        sum_completion(us.drop_last()) + (match us.last() {
            Some(d) => opt0(d.completion_tokens),
            None => 0,
        })
    }
}

/// The total tokens reported over a run.
pub open spec fn sum_total(us: Seq<Option<UsageData>>) -> int
    decreases us.len(),
{
    if us.len() == 0 {
        0
    } else {
        sum_total(us.drop_last()) + (match us.last() {
            Some(d) => opt0(d.total_tokens),
            None => 0,
        })
    }
}

/// Responses with reported counts sum exactly into the counters, as long as
/// no counter reaches its ceiling, and every structured response — with or
/// without usage data — adds exactly one to the request count.
pub proof fn lemma_usage_accounting(us: Seq<Option<UsageData>>)
    requires
        sum_prompt(us) <= u64::MAX,
        sum_completion(us) <= u64::MAX,
        sum_total(us) <= u64::MAX,
        us.len() <= u64::MAX,
    ensures
        apply_all(us).prompt_tokens == sum_prompt(us),
        apply_all(us).completion_tokens == sum_completion(us),
        apply_all(us).total_tokens == sum_total(us),
        apply_all(us).requests == us.len(),
    decreases us.len(),
{
    if us.len() > 0 {
        lemma_usage_accounting(us.drop_last());
    }
}

/// The per-locale table after a run in which every response belongs to one
/// locale: that locale's counters alone, equal to the run's accumulated
/// counters.
pub open spec fn locales_after(us: Seq<Option<UsageData>>, loc: Seq<char>) -> Seq<
    (Seq<char>, TokenUsageSnapshot),
>
    decreases us.len(),
{
    if us.len() == 0 {
        Seq::empty()
    } else {
        loc_upsert(locales_after(us.drop_last(), loc), loc, us.last())
    }
}

/// A run against a single locale leaves exactly one per-locale entry, and it
/// carries the same counters as the whole run.
pub proof fn lemma_single_locale(us: Seq<Option<UsageData>>, loc: Seq<char>)
    ensures
        us.len() == 0 ==> locales_after(us, loc) == Seq::<(Seq<char>, TokenUsageSnapshot)>::empty(),
        us.len() > 0 ==> locales_after(us, loc) == seq![(loc, apply_all(us))],
    decreases us.len(),
{
    if us.len() > 0 {
        lemma_single_locale(us.drop_last(), loc);
        if us.len() == 1 {
            assert(locales_after(us.drop_last(), loc) == Seq::<
                (Seq<char>, TokenUsageSnapshot),
            >::empty());
            assert(loc_index(Seq::<(Seq<char>, TokenUsageSnapshot)>::empty(), loc) == -1);
            assert(locales_after(us, loc) =~= seq![(loc, apply_all(us))]);
        } else {
            let prev = seq![(loc, apply_all(us.drop_last()))];
            assert(loc_index(prev, loc) == 0);
            assert(locales_after(us, loc) =~= seq![(loc, apply_all(us))]);
        }
    }
}

} // verus!
