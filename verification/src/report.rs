//! Pack findings into a scannable report. Both renderers, `human` (terminal, for a person) and
//! `markdown` (a fileable note body, for the consumer to store), share one packing:
//!
//! 1. a per-domain debt scoreboard (triage: which area owes the most),
//! 2. a "most leveraged" callout (creating one target resolves many references),
//! 3. findings grouped by domain and sorted by blast radius (fan-in), with identical issues folded,
//! 4. a folded count of the tracked forward-references (planned concepts) and external paths, which
//!    are `Info` and hidden from the actionable body but surfaced as a count (markdown expands them).

use vstd::prelude::*;

use crate::checks::{count_sev, Report};
use crate::graph::normalize_spec;
use crate::model::{Finding, Severity};
use crate::ranked::{insert_ranked, sorted_ranked, Ranked};
use crate::text::{
    decimal, chars_of, has_prefix, lemma_seq_lt_total, lemma_seq_lt_trans, seq_le, seq_lt, str_eq,
    str_lt, str_starts_with, string_of_range, string_views,
};

verus! {

// ---------------------------------------------------------------------------------------------
// Domains
// ---------------------------------------------------------------------------------------------

/// The first `/`-separated segment of `s`.
pub open spec fn first_segment(s: Seq<char>) -> Seq<char>
    decreases s.len(),
{
    if s.len() == 0 || s[0] == '/' {
        Seq::empty()
    } else {
        seq![s[0]] + first_segment(s.drop_first())
    }
}

/// A finding's domain, inferred from its vault path (the folder convention): the folder right
/// under `Concepts/` or `Writing/lessons/`; `(other)` when the path carries no knowledge domain.
pub open spec fn domain_of_spec(p: Seq<char>) -> Seq<char> {
    if has_prefix(p, "Concepts/"@) {
        first_segment(p.skip("Concepts/"@.len() as int))
    } else if has_prefix(p, "Writing/lessons/"@) {
        first_segment(p.skip("Writing/lessons/"@.len() as int))
    } else {
        "(other)"@
    }
}

proof fn lemma_first_segment(s: Seq<char>, a: int, j: int)
    requires
        0 <= a <= j <= s.len(),
        forall|k: int| a <= k < j ==> s[k] != '/',
        j == s.len() || s[j] == '/',
    ensures
        first_segment(s.skip(a)) == s.subrange(a, j),
    decreases j - a,
{
    if a == j {
        assert(s.subrange(a, j) =~= Seq::<char>::empty());
    } else {
        lemma_first_segment(s, a + 1, j);
        assert(s.skip(a).drop_first() =~= s.skip(a + 1));
        assert(s.subrange(a, j) =~= seq![s[a]] + s.subrange(a + 1, j));
    }
}

/// The first segment of `v[from..]`.
fn first_segment_from(v: &[char], from: usize) -> (out: String)
    requires
        from <= v@.len(),
    ensures
        out@ == first_segment(v@.skip(from as int)),
{
    let mut j: usize = from;
    while j < v.len() && v[j] != '/'
        invariant
            from <= j <= v@.len(),
            forall|k: int| from <= k < j ==> v@[k] != '/',
        decreases v.len() - j,
    {
        j += 1;
    }
    proof {
        lemma_first_segment(v@, from as int, j as int);
    }
    string_of_range(v, from, j)
}

/// Infer a finding's domain from its vault path.
pub fn domain_of(path: &str) -> (out: String)
    ensures
        out@ == domain_of_spec(path@),
{
    if str_starts_with(path, "Concepts/") {
        let v = chars_of(path);
        proof {
            reveal_strlit("Concepts/");
        }
        first_segment_from(v.as_slice(), 9)
    } else if str_starts_with(path, "Writing/lessons/") {
        let v = chars_of(path);
        proof {
            reveal_strlit("Writing/lessons/");
        }
        first_segment_from(v.as_slice(), 16)
    } else {
        crate::text::owned("(other)")
    }
}

/// The domain of every finding, in order.
fn domains_of(fs: &Vec<Finding>) -> (out: Vec<String>)
    ensures
        out@.len() == fs@.len(),
        forall|k: int| 0 <= k < fs@.len() ==> (#[trigger] out@[k])@ == domain_of_spec(fs@[k].path@),
{
    let mut out: Vec<String> = Vec::new();
    let mut k: usize = 0;
    while k < fs.len()
        invariant
            k <= fs@.len(),
            out@.len() == k,
            forall|q: int| 0 <= q < k ==> (#[trigger] out@[q])@ == domain_of_spec(fs@[q].path@),
        decreases fs.len() - k,
    {
        out.push(domain_of(fs[k].path.as_str()));
        k += 1;
    }
    out
}

/// Whether `s` occurs among the first `k` strings of `v`.
pub open spec fn occurs(v: Seq<String>, s: Seq<char>, k: int) -> bool {
    exists|i: int| 0 <= i < k && (#[trigger] v[i])@ == s
}

/// Whether the strings of `v` are pairwise distinct.
pub open spec fn distinct_views(v: Seq<String>) -> bool {
    forall|i: int, j: int| #![trigger v[i], v[j]] 0 <= i < j < v.len() ==> v[i]@ != v[j]@
}

/// Whether `s` is one of the strings of `v`.
fn holds_str(v: &Vec<String>, s: &str) -> (r: bool)
    ensures
        r == occurs(v@, s@, v@.len() as int),
{
    let mut i: usize = 0;
    while i < v.len()
        invariant
            i <= v@.len(),
            !occurs(v@, s@, i as int),
        decreases v.len() - i,
    {
        if str_eq(v[i].as_str(), s) {
            return true;
        }
        i += 1;
    }
    false
}

/// Whether `s` is one of the first `k` strings of `v` where `keep` holds.
pub open spec fn kept_occurs(v: Seq<String>, keep: Seq<bool>, s: Seq<char>, k: int) -> bool {
    exists|q: int| 0 <= q < k && keep[q] && (#[trigger] v[q])@ == s
}

/// The distinct strings of `v` (among the entries where `keep` holds), in first-appearance order.
fn distinct_kept(v: &Vec<String>, keep: &Vec<bool>) -> (out: Vec<String>)
    requires
        keep@.len() == v@.len(),
    ensures
        distinct_views(out@),
        forall|i: int|
            0 <= i < out@.len() ==> kept_occurs(v@, keep@, (#[trigger] out@[i])@, v@.len() as int),
        forall|k: int|
            0 <= k < v@.len() && keep@[k] ==> occurs(out@, (#[trigger] v@[k])@, out@.len() as int),
{
    let mut out: Vec<String> = Vec::new();
    let mut k: usize = 0;
    while k < v.len()
        invariant
            k <= v@.len(),
            keep@.len() == v@.len(),
            distinct_views(out@),
            forall|i: int| 0 <= i < out@.len() ==> kept_occurs(v@, keep@, (#[trigger] out@[i])@, k as int),
            forall|q: int|
                0 <= q < k && keep@[q] ==> occurs(out@, (#[trigger] v@[q])@, out@.len() as int),
        decreases v.len() - k,
    {
        let ghost before = out@;
        if keep[k] && !holds_str(&out, v[k].as_str()) {
            out.push(v[k].clone());
            proof {
                assert(out@[before.len() as int] == v@[k as int]);
                assert forall|q: int|
                    0 <= q < k + 1 && keep@[q] implies occurs(
                    out@,
                    (#[trigger] v@[q])@,
                    out@.len() as int,
                ) by {
                    if q < k {
                        let i = choose|i: int| 0 <= i < before.len() && (#[trigger] before[i])@ == v@[q]@;
                        assert(out@[i] == before[i]);
                    } else {
                        assert(out@[before.len() as int]@ == v@[q]@);
                    }
                }
                assert forall|i: int|
                    0 <= i < out@.len() implies kept_occurs(v@, keep@, (#[trigger] out@[i])@, k + 1) by {
                    if i < before.len() {
                        assert(out@[i] == before[i]);
                        assert(kept_occurs(v@, keep@, before[i]@, k as int));
                    } else {
                        assert(v@[k as int]@ == out@[i]@);
                    }
                }
            }
        } else {
            proof {
                assert forall|q: int|
                    0 <= q < k + 1 && keep@[q] implies occurs(
                    out@,
                    (#[trigger] v@[q])@,
                    out@.len() as int,
                ) by {}
                assert forall|i: int|
                    0 <= i < out@.len() implies kept_occurs(v@, keep@, (#[trigger] out@[i])@, k + 1) by {
                    assert(kept_occurs(v@, keep@, out@[i]@, k as int));
                }
            }
        }
        k += 1;
    }
    out
}

// ---------------------------------------------------------------------------------------------
// Scoreboard
// ---------------------------------------------------------------------------------------------

/// One scoreboard row: a domain's error and warn counts.
#[derive(Debug, Clone)]
pub struct BoardRow {
    pub domain: String,
    pub errors: usize,
    pub warns: usize,
}

impl Ranked for BoardRow {
    /// Most debt first, then most errors, then domain name.
    open spec fn ranks_le(&self, other: &Self) -> bool {
        let (a, b) = (self.errors + self.warns, other.errors + other.warns);
        a > b || (a == b && (self.errors > other.errors || (self.errors == other.errors && seq_le(
            self.domain@,
            other.domain@,
        ))))
    }

    proof fn lemma_ranks_total(a: &Self, b: &Self) {
        lemma_seq_lt_total(a.domain@, b.domain@);
    }

    proof fn lemma_ranks_trans(a: &Self, b: &Self, c: &Self) {
        if seq_lt(a.domain@, b.domain@) && seq_lt(b.domain@, c.domain@) {
            lemma_seq_lt_trans(a.domain@, b.domain@, c.domain@);
        }
    }

    fn ranks_before(&self, other: &Self) -> (r: bool) {
        let a = self.errors as u128 + self.warns as u128;
        let b = other.errors as u128 + other.warns as u128;
        a > b || (a == b && (self.errors > other.errors || (self.errors == other.errors && (str_lt(
            self.domain.as_str(),
            other.domain.as_str(),
        ) || str_eq(self.domain.as_str(), other.domain.as_str())))))
    }
}

/// The findings among the first `k` of domain `d` and severity `s`.
pub open spec fn count_in(fs: Seq<Finding>, d: Seq<char>, s: Severity, k: int) -> nat
    decreases k,
{
    if k <= 0 {
        0
    } else {
        count_in(fs, d, s, k - 1) + if domain_of_spec(fs[k - 1].path@) == d && fs[k - 1].severity
            == s {
            1nat
        } else {
            0nat
        }
    }
}

/// A domain's debt: its error and warn findings.
pub open spec fn debt(fs: Seq<Finding>, d: Seq<char>) -> nat {
    count_in(fs, d, Severity::Error, fs.len() as int) + count_in(
        fs,
        d,
        Severity::Warn,
        fs.len() as int,
    )
}

/// The scoreboard: one row per domain with debt, counts exact, rows in rank order.
pub open spec fn board_matches(fs: Seq<Finding>, rows: Seq<BoardRow>) -> bool {
    let n = fs.len() as int;
    &&& sorted_ranked(rows)
    &&& forall|i: int, j: int|
        #![trigger rows[i], rows[j]]
        0 <= i < j < rows.len() ==> rows[i].domain@ != rows[j].domain@
    &&& forall|i: int|
        0 <= i < rows.len() ==> {
            &&& (#[trigger] rows[i]).errors == count_in(fs, rows[i].domain@, Severity::Error, n)
            &&& rows[i].warns == count_in(fs, rows[i].domain@, Severity::Warn, n)
            &&& debt(fs, rows[i].domain@) > 0
        }
    &&& forall|k: int|
        0 <= k < n && debt(fs, domain_of_spec((#[trigger] fs[k]).path@)) > 0 ==> exists|i: int|
            0 <= i < rows.len() && rows[i].domain@ == domain_of_spec(fs[k].path@)
}

/// The findings of domain `d` and severity `s`.
fn count_domain(fs: &Vec<Finding>, ds: &Vec<String>, d: &str, s: Severity) -> (c: usize)
    requires
        ds@.len() == fs@.len(),
        forall|k: int| 0 <= k < fs@.len() ==> (#[trigger] ds@[k])@ == domain_of_spec(fs@[k].path@),
    ensures
        c == count_in(fs@, d@, s, fs@.len() as int),
{
    let mut c: usize = 0;
    let mut k: usize = 0;
    while k < fs.len()
        invariant
            k <= fs@.len(),
            ds@.len() == fs@.len(),
            forall|q: int| 0 <= q < fs@.len() ==> (#[trigger] ds@[q])@ == domain_of_spec(fs@[q].path@),
            c == count_in(fs@, d@, s, k as int),
            c <= k,
        decreases fs.len() - k,
    {
        assert(ds@[k as int]@ == domain_of_spec(fs@[k as int].path@));
        if fs[k].severity == s && str_eq(ds[k].as_str(), d) {
            c += 1;
        }
        k += 1;
    }
    c
}

/// The per-domain debt scoreboard (a vector of rows searched by domain, not a map keyed by the
/// domain string; see the symbol table for why).
fn scoreboard(fs: &Vec<Finding>, ds: &Vec<String>) -> (rows: Vec<BoardRow>)
    requires
        ds@.len() == fs@.len(),
        forall|k: int| 0 <= k < fs@.len() ==> (#[trigger] ds@[k])@ == domain_of_spec(fs@[k].path@),
    ensures
        board_matches(fs@, rows@),
{
    let mut all: Vec<bool> = Vec::new();
    let mut k: usize = 0;
    while k < ds.len()
        invariant
            k <= ds@.len(),
            all@.len() == k,
            forall|q: int| 0 <= q < k ==> #[trigger] all@[q],
        decreases ds.len() - k,
    {
        all.push(true);
        k += 1;
    }
    let uniq = distinct_kept(ds, &all);
    let n = fs.len();
    let mut rows: Vec<BoardRow> = Vec::new();
    let mut q: usize = 0;
    while q < uniq.len()
        invariant
            q <= uniq@.len(),
            n == fs@.len(),
            ds@.len() == fs@.len(),
            forall|k: int| 0 <= k < fs@.len() ==> (#[trigger] ds@[k])@ == domain_of_spec(fs@[k].path@),
            distinct_views(uniq@),
            sorted_ranked(rows@),
            forall|i: int, j: int|
                #![trigger rows@[i], rows@[j]]
                0 <= i < j < rows@.len() ==> rows@[i].domain@ != rows@[j].domain@,
            forall|i: int|
                0 <= i < rows@.len() ==> {
                    &&& (#[trigger] rows@[i]).errors == count_in(
                        fs@,
                        rows@[i].domain@,
                        Severity::Error,
                        n as int,
                    )
                    &&& rows@[i].warns == count_in(fs@, rows@[i].domain@, Severity::Warn, n as int)
                    &&& debt(fs@, rows@[i].domain@) > 0
                    &&& occurs(uniq@, rows@[i].domain@, q as int)
                },
            forall|p: int|
                0 <= p < q && debt(fs@, (#[trigger] uniq@[p])@) > 0 ==> exists|i: int|
                    0 <= i < rows@.len() && rows@[i].domain@ == uniq@[p]@,
        decreases uniq.len() - q,
    {
        let d = uniq[q].as_str();
        let e = count_domain(fs, ds, d, Severity::Error);
        let w = count_domain(fs, ds, d, Severity::Warn);
        if e as u128 + w as u128 > 0 {
            let ghost r0 = rows@;
            let row = BoardRow { domain: uniq[q].clone(), errors: e, warns: w };
            let p = insert_ranked(&mut rows, row);
            proof {
                let r = rows@;
                assert(r[p as int] == row);
                assert forall|i: int| 0 <= i < r.len() && i != p implies (#[trigger] r[i]) == r0[if i
                    < p {
                    i
                } else {
                    i - 1
                }] by {}
                assert forall|i: int|
                    0 <= i < r0.len() implies (#[trigger] r0[i]).domain@ != uniq@[q as int]@ by {
                    let a = choose|a: int| 0 <= a < q && (#[trigger] uniq@[a])@ == r0[i].domain@;
                }
                assert forall|i: int, j: int|
                    #![trigger r[i], r[j]]
                    0 <= i < j < r.len() implies r[i].domain@ != r[j].domain@ by {
                    if i != p && j != p {
                        let i0 = if i < p {
                            i
                        } else {
                            i - 1
                        };
                        let j0 = if j < p {
                            j
                        } else {
                            j - 1
                        };
                        assert(r[i] == r0[i0] && r[j] == r0[j0]);
                        assert(r0[i0].domain@ != r0[j0].domain@);
                    } else if i == p {
                        assert(r[j] == r0[j - 1]);
                        assert(r0[j - 1].domain@ != uniq@[q as int]@);
                    } else {
                        assert(r[i] == r0[i]);
                        assert(r0[i].domain@ != uniq@[q as int]@);
                    }
                }
                assert forall|i: int|
                    0 <= i < r.len() implies occurs(uniq@, (#[trigger] r[i]).domain@, q + 1) by {
                    if i == p {
                        assert(uniq@[q as int]@ == r[i].domain@);
                    } else {
                        let i0 = if i < p {
                            i
                        } else {
                            i - 1
                        };
                        assert(r[i] == r0[i0]);
                        let a = choose|a: int| 0 <= a < q && (#[trigger] uniq@[a])@ == r0[i0].domain@;
                    }
                }
                assert forall|pp: int|
                    0 <= pp < q + 1 && debt(fs@, (#[trigger] uniq@[pp])@) > 0 implies exists|i: int|
                        0 <= i < r.len() && r[i].domain@ == uniq@[pp]@ by {
                    if pp == q {
                        assert(r[p as int].domain@ == uniq@[pp]@);
                    } else {
                        let i = choose|i: int| 0 <= i < r0.len() && r0[i].domain@ == uniq@[pp]@;
                        if i < p {
                            assert(r[i] == r0[i]);
                        } else {
                            assert(r[i + 1] == r0[i]);
                        }
                    }
                }
            }
        } else {
            proof {
                assert forall|i: int|
                    0 <= i < rows@.len() implies occurs(uniq@, (#[trigger] rows@[i]).domain@, q + 1) by {
                    let a = choose|a: int| 0 <= a < q && (#[trigger] uniq@[a])@ == rows@[i].domain@;
                }
            }
        }
        q += 1;
    }
    proof {
        assert forall|k: int|
            0 <= k < n && debt(fs@, domain_of_spec((#[trigger] fs@[k]).path@)) > 0 implies exists|
            i: int,
        | 0 <= i < rows@.len() && rows@[i].domain@ == domain_of_spec(fs@[k].path@) by {
            assert(occurs(uniq@, ds@[k]@, uniq@.len() as int));
            let pp = choose|pp: int| 0 <= pp < uniq@.len() && (#[trigger] uniq@[pp])@ == ds@[k]@;
        }
    }
    rows
}

// ---------------------------------------------------------------------------------------------
// Leverage
// ---------------------------------------------------------------------------------------------

/// One high-leverage target: creating it resolves `count` references.
#[derive(Debug, Clone)]
pub struct Leverage {
    /// The target as first written.
    pub target: String,
    pub count: usize,
    /// Whether every reference is planned (`Info`).
    pub planned: bool,
    /// The citing domains, sorted, each once.
    pub domains: Vec<String>,
    /// The normalized target the references share.
    pub key: String,
}

impl Ranked for Leverage {
    /// Most references first, then target.
    open spec fn ranks_le(&self, other: &Self) -> bool {
        self.count > other.count || (self.count == other.count && seq_le(
            self.target@,
            other.target@,
        ))
    }

    proof fn lemma_ranks_total(a: &Self, b: &Self) {
        lemma_seq_lt_total(a.target@, b.target@);
    }

    proof fn lemma_ranks_trans(a: &Self, b: &Self, c: &Self) {
        if seq_lt(a.target@, b.target@) && seq_lt(b.target@, c.target@) {
            lemma_seq_lt_trans(a.target@, b.target@, c.target@);
        }
    }

    fn ranks_before(&self, other: &Self) -> (r: bool) {
        self.count > other.count || (self.count == other.count && (str_lt(
            self.target.as_str(),
            other.target.as_str(),
        ) || str_eq(self.target.as_str(), other.target.as_str())))
    }
}

/// A link finding (broken, or naming a title) with a target: creating the target resolves it.
pub open spec fn is_link_finding(f: Finding) -> bool {
    (f.rule_id@ == "link.broken"@ || f.rule_id@ == "link.title_not_alias"@) && f.target is Some
}

/// Whether `f` is a link finding whose normalized target is `key`.
pub open spec fn cites(f: Finding, key: Seq<char>) -> bool {
    is_link_finding(f) && normalize_spec(f.target->0@) == key
}

/// Link findings among the first `k` citing `key`.
pub open spec fn cite_count(fs: Seq<Finding>, key: Seq<char>, k: int) -> nat
    decreases k,
{
    if k <= 0 {
        0
    } else {
        cite_count(fs, key, k - 1) + if cites(fs[k - 1], key) {
            1nat
        } else {
            0nat
        }
    }
}

/// The target as written by the first of the first `k` findings citing `key`.
pub open spec fn first_cite(fs: Seq<Finding>, key: Seq<char>, k: int) -> Option<Seq<char>>
    decreases k,
{
    if k <= 0 {
        None
    } else {
        match first_cite(fs, key, k - 1) {
            Some(t) => Some(t),
            None => if cites(fs[k - 1], key) {
                Some(fs[k - 1].target->0@)
            } else {
                None
            },
        }
    }
}

/// Whether every one of the first `k` findings citing `key` is `Info` (planned).
pub open spec fn all_planned(fs: Seq<Finding>, key: Seq<char>, k: int) -> bool
    decreases k,
{
    if k <= 0 {
        true
    } else {
        all_planned(fs, key, k - 1) && (cites(fs[k - 1], key) ==> fs[k - 1].severity
            == Severity::Info)
    }
}

/// Whether one of the first `n` findings citing `key` lies in domain `d`.
pub open spec fn cited_within(fs: Seq<Finding>, key: Seq<char>, d: Seq<char>, n: int) -> bool {
    exists|k: int| 0 <= k < n && cites(#[trigger] fs[k], key) && domain_of_spec(fs[k].path@) == d
}

/// Whether some finding citing `key` lies in domain `d`.
pub open spec fn cited_from(fs: Seq<Finding>, key: Seq<char>, d: Seq<char>) -> bool {
    cited_within(fs, key, d, fs.len() as int)
}

/// Strictly increasing in code-point order.
pub open spec fn strictly_sorted(v: Seq<String>) -> bool {
    forall|i: int, j: int| #![trigger v[i], v[j]] 0 <= i < j < v.len() ==> seq_lt(v[i]@, v[j]@)
}

/// One leverage entry is exact for its key.
pub open spec fn leverage_ok(fs: Seq<Finding>, l: Leverage) -> bool {
    let n = fs.len() as int;
    &&& l.count == cite_count(fs, l.key@, n)
    &&& l.count > 1
    &&& first_cite(fs, l.key@, n) == Some(l.target@)
    &&& l.planned == all_planned(fs, l.key@, n)
    &&& strictly_sorted(l.domains@)
    &&& forall|i: int| 0 <= i < l.domains@.len() ==> cited_from(fs, l.key@, (#[trigger] l.domains@[i])@)
    &&& forall|d: Seq<char>| cited_from(fs, l.key@, d) ==> occurs(l.domains@, d, l.domains@.len() as int)
}

/// The leverage list: one entry per target cited more than once, in rank order.
pub open spec fn leverage_matches(fs: Seq<Finding>, ls: Seq<Leverage>) -> bool {
    let n = fs.len() as int;
    &&& sorted_ranked(ls)
    &&& forall|i: int, j: int| #![trigger ls[i], ls[j]] 0 <= i < j < ls.len() ==> ls[i].key@ != ls[j].key@
    &&& forall|i: int| 0 <= i < ls.len() ==> leverage_ok(fs, #[trigger] ls[i])
    &&& forall|k: int|
        0 <= k < n && is_link_finding(#[trigger] fs[k]) && cite_count(
            fs,
            normalize_spec(fs[k].target->0@),
            n,
        ) > 1 ==> exists|i: int| 0 <= i < ls.len() && ls[i].key@ == normalize_spec(fs[k].target->0@)
}

/// Insert `d` into the strictly sorted `v` unless it is already there.
fn insert_sorted_distinct(v: &mut Vec<String>, d: &String)
    requires
        strictly_sorted(old(v)@),
    ensures
        strictly_sorted(final(v)@),
        forall|s: Seq<char>| occurs(final(v)@, s, final(v)@.len() as int) <==> (occurs(
            old(v)@,
            s,
            old(v)@.len() as int,
        ) || s == d@),
{
    let mut p: usize = 0;
    while p < v.len() && str_lt(v[p].as_str(), d.as_str())
        invariant
            p <= v@.len(),
            forall|k: int| 0 <= k < p ==> seq_lt((#[trigger] v@[k])@, d@),
        decreases v.len() - p,
    {
        p += 1;
    }
    if p < v.len() && str_eq(v[p].as_str(), d.as_str()) {
        return ;
    }
    let ghost s0 = v@;
    proof {
        if p < s0.len() {
            lemma_seq_lt_total(s0[p as int]@, d@);
        }
        assert forall|j: int| p <= j < s0.len() implies seq_lt(d@, (#[trigger] s0[j])@) by {
            if j > p {
                lemma_seq_lt_trans(d@, s0[p as int]@, s0[j]@);
            }
        }
    }
    v.insert(p, d.clone());
    proof {
        let s = v@;
        assert(s =~= s0.insert(p as int, *d));
        assert forall|i: int, j: int| #![trigger s[i], s[j]] 0 <= i < j < s.len() implies seq_lt(
            s[i]@,
            s[j]@,
        ) by {
            if j < p {
                assert(s[i] == s0[i] && s[j] == s0[j]);
            } else if j == p {
                assert(s[i] == s0[i]);
            } else if i == p {
                assert(s[j] == s0[j - 1]);
            } else if i < p {
                assert(s[i] == s0[i] && s[j] == s0[j - 1]);
                lemma_seq_lt_trans(s0[i]@, d@, s0[j - 1]@);
            } else {
                assert(s[i] == s0[i - 1] && s[j] == s0[j - 1]);
            }
        }
        assert forall|t: Seq<char>| occurs(s, t, s.len() as int) <==> (occurs(
            s0,
            t,
            s0.len() as int,
        ) || t == d@) by {
            if occurs(s, t, s.len() as int) {
                let i = choose|i: int| 0 <= i < s.len() && (#[trigger] s[i])@ == t;
                if i < p {
                    assert(s[i] == s0[i]);
                } else if i > p {
                    assert(s[i] == s0[i - 1]);
                }
            }
            if occurs(s0, t, s0.len() as int) {
                let i = choose|i: int| 0 <= i < s0.len() && (#[trigger] s0[i])@ == t;
                if i < p {
                    assert(s[i] == s0[i]);
                } else {
                    assert(s[i + 1] == s0[i]);
                }
            }
            if t == d@ {
                assert(s[p as int]@ == t);
            }
        }
    }
}

/// The normalized target of every link finding (`None` for the others).
fn cite_keys(fs: &Vec<Finding>) -> (out: (Vec<String>, Vec<bool>))
    ensures
        out.0@.len() == fs@.len(),
        out.1@.len() == fs@.len(),
        forall|k: int|
            0 <= k < fs@.len() ==> (#[trigger] out.1@[k]) == is_link_finding(fs@[k]) && (out.1@[k]
                ==> out.0@[k]@ == normalize_spec(fs@[k].target->0@)),
{
    let mut keys: Vec<String> = Vec::new();
    let mut link: Vec<bool> = Vec::new();
    let mut k: usize = 0;
    while k < fs.len()
        invariant
            k <= fs@.len(),
            keys@.len() == k,
            link@.len() == k,
            forall|q: int|
                0 <= q < k ==> (#[trigger] link@[q]) == is_link_finding(fs@[q]) && (link@[q]
                    ==> keys@[q]@ == normalize_spec(fs@[q].target->0@)),
        decreases fs.len() - k,
    {
        let f = &fs[k];
        let rule = f.rule_id.as_str();
        let is_link = str_eq(rule, "link.broken") || str_eq(rule, "link.title_not_alias");
        match &f.target {
            Some(t) if is_link => {
                keys.push(crate::graph::normalize(t.as_str()));
                link.push(true);
            },
            _ => {
                keys.push(String::new());
                link.push(false);
            },
        }
        k += 1;
    }
    (keys, link)
}

/// The leverage entry of `key`: count, first target, planned, sorted citing domains.
fn gather_cites(fs: &Vec<Finding>, ds: &Vec<String>, keys: &Vec<String>, link: &Vec<bool>, key: &String) -> (out: (usize, Option<String>, bool, Vec<String>))
    requires
        ds@.len() == fs@.len(),
        keys@.len() == fs@.len(),
        link@.len() == fs@.len(),
        forall|k: int| 0 <= k < fs@.len() ==> (#[trigger] ds@[k])@ == domain_of_spec(fs@[k].path@),
        forall|k: int|
            0 <= k < fs@.len() ==> (#[trigger] link@[k]) == is_link_finding(fs@[k]) && (link@[k]
                ==> keys@[k]@ == normalize_spec(fs@[k].target->0@)),
    ensures
        out.0 == cite_count(fs@, key@, fs@.len() as int),
        crate::model::opt_chars(out.1) == first_cite(fs@, key@, fs@.len() as int),
        out.2 == all_planned(fs@, key@, fs@.len() as int),
        strictly_sorted(out.3@),
        forall|i: int| 0 <= i < out.3@.len() ==> cited_from(fs@, key@, (#[trigger] out.3@[i])@),
        forall|d: Seq<char>| cited_from(fs@, key@, d) ==> occurs(out.3@, d, out.3@.len() as int),
{
    let mut count: usize = 0;
    let mut first: Option<String> = None;
    let mut planned = true;
    let mut domains: Vec<String> = Vec::new();
    let mut k: usize = 0;
    while k < fs.len()
        invariant
            k <= fs@.len(),
            ds@.len() == fs@.len(),
            keys@.len() == fs@.len(),
            link@.len() == fs@.len(),
            forall|q: int| 0 <= q < fs@.len() ==> (#[trigger] ds@[q])@ == domain_of_spec(fs@[q].path@),
            forall|q: int|
                0 <= q < fs@.len() ==> (#[trigger] link@[q]) == is_link_finding(fs@[q]) && (link@[q]
                    ==> keys@[q]@ == normalize_spec(fs@[q].target->0@)),
            count == cite_count(fs@, key@, k as int),
            count <= k,
            crate::model::opt_chars(first) == first_cite(fs@, key@, k as int),
            planned == all_planned(fs@, key@, k as int),
            strictly_sorted(domains@),
            forall|i: int|
                0 <= i < domains@.len() ==> cited_within(fs@, key@, (#[trigger] domains@[i])@, k as int),
            forall|q: int|
                0 <= q < k && cites(#[trigger] fs@[q], key@) ==> occurs(
                    domains@,
                    domain_of_spec(fs@[q].path@),
                    domains@.len() as int,
                ),
        decreases fs.len() - k,
    {
        assert(link@[k as int] == is_link_finding(fs@[k as int]));
        assert(ds@[k as int]@ == domain_of_spec(fs@[k as int].path@));
        let hit = link[k] && str_eq(keys[k].as_str(), key.as_str());
        if hit {
            count += 1;
            if first.is_none() {
                first = match &fs[k].target {
                    Some(t) => Some(t.clone()),
                    None => None,
                };
            }
            planned = planned && fs[k].severity == Severity::Info;
            let ghost d0 = domains@;
            insert_sorted_distinct(&mut domains, &ds[k]);
            proof {
                assert forall|i: int|
                    0 <= i < domains@.len() implies cited_within(fs@, key@, (#[trigger] domains@[i])@, k + 1) by {
                    assert(occurs(domains@, domains@[i]@, domains@.len() as int));
                    if occurs(d0, domains@[i]@, d0.len() as int) {
                        let j = choose|j: int| 0 <= j < d0.len() && (#[trigger] d0[j])@ == domains@[i]@;
                        assert(cited_within(fs@, key@, d0[j]@, k as int));
                    } else {
                        assert(cites(fs@[k as int], key@));
                    }
                }
                assert forall|q: int|
                    0 <= q < k + 1 && cites(#[trigger] fs@[q], key@) implies occurs(
                    domains@,
                    domain_of_spec(fs@[q].path@),
                    domains@.len() as int,
                ) by {
                    if q < k {
                        assert(occurs(d0, domain_of_spec(fs@[q].path@), d0.len() as int));
                    }
                }
            }
        } else {
            proof {
                assert(!cites(fs@[k as int], key@));
                assert forall|i: int|
                    0 <= i < domains@.len() implies cited_within(fs@, key@, (#[trigger] domains@[i])@, k + 1) by {
                    assert(cited_within(fs@, key@, domains@[i]@, k as int));
                }
            }
        }
        k += 1;
    }
    proof {
        assert forall|d: Seq<char>| cited_from(fs@, key@, d) implies occurs(
            domains@,
            d,
            domains@.len() as int,
        ) by {
            let q = choose|q: int|
                0 <= q < fs@.len() && cites(#[trigger] fs@[q], key@) && domain_of_spec(fs@[q].path@)
                    == d;
        }
    }
    (count, first, planned, domains)
}

proof fn lemma_first_cite(fs: Seq<Finding>, key: Seq<char>, k: int)
    ensures
        (cite_count(fs, key, k) > 0) == (first_cite(fs, key, k) is Some),
    decreases k,
{
    if k > 0 {
        lemma_first_cite(fs, key, k - 1);
    }
}

/// Targets whose creation resolves more than one reference, including planned ones (a broken link
/// is broken regardless of severity, so every link finding is aggregated by target). The
/// per-target counts are a vector searched by key rather than a `HashMap`; see the symbol table
/// for why.
fn leverage(fs: &Vec<Finding>, ds: &Vec<String>) -> (ls: Vec<Leverage>)
    requires
        ds@.len() == fs@.len(),
        forall|k: int| 0 <= k < fs@.len() ==> (#[trigger] ds@[k])@ == domain_of_spec(fs@[k].path@),
    ensures
        leverage_matches(fs@, ls@),
{
    let (keys, link) = cite_keys(fs);
    let uniq = distinct_kept(&keys, &link);
    let n = fs.len();
    let mut ls: Vec<Leverage> = Vec::new();
    let mut q: usize = 0;
    while q < uniq.len()
        invariant
            q <= uniq@.len(),
            n == fs@.len(),
            ds@.len() == fs@.len(),
            keys@.len() == fs@.len(),
            link@.len() == fs@.len(),
            forall|k: int| 0 <= k < fs@.len() ==> (#[trigger] ds@[k])@ == domain_of_spec(fs@[k].path@),
            forall|k: int|
                0 <= k < fs@.len() ==> (#[trigger] link@[k]) == is_link_finding(fs@[k]) && (link@[k]
                    ==> keys@[k]@ == normalize_spec(fs@[k].target->0@)),
            distinct_views(uniq@),
            sorted_ranked(ls@),
            forall|i: int, j: int|
                #![trigger ls@[i], ls@[j]]
                0 <= i < j < ls@.len() ==> ls@[i].key@ != ls@[j].key@,
            forall|i: int|
                0 <= i < ls@.len() ==> leverage_ok(fs@, #[trigger] ls@[i]) && occurs(
                    uniq@,
                    ls@[i].key@,
                    q as int,
                ),
            forall|p: int|
                0 <= p < q && cite_count(fs@, (#[trigger] uniq@[p])@, n as int) > 1 ==> exists|i: int|
                    0 <= i < ls@.len() && ls@[i].key@ == uniq@[p]@,
        decreases uniq.len() - q,
    {
        let key = &uniq[q];
        let (count, first, planned, domains) = gather_cites(fs, ds, &keys, &link, key);
        proof {
            lemma_first_cite(fs@, key@, n as int);
        }
        if count > 1 {
            let target = match first {
                Some(t) => t,
                None => String::new(),
            };
            let ghost r0 = ls@;
            let l = Leverage { target, count, planned, domains, key: key.clone() };
            let p = insert_ranked(&mut ls, l);
            proof {
                let r = ls@;
                assert(r[p as int] == l);
                assert forall|i: int|
                    0 <= i < r0.len() implies (#[trigger] r0[i]).key@ != uniq@[q as int]@ by {
                    let a = choose|a: int| 0 <= a < q && (#[trigger] uniq@[a])@ == r0[i].key@;
                }
                assert forall|i: int, j: int|
                    #![trigger r[i], r[j]]
                    0 <= i < j < r.len() implies r[i].key@ != r[j].key@ by {
                    if i != p && j != p {
                        let i0 = if i < p {
                            i
                        } else {
                            i - 1
                        };
                        let j0 = if j < p {
                            j
                        } else {
                            j - 1
                        };
                        assert(r[i] == r0[i0] && r[j] == r0[j0]);
                        assert(r0[i0].key@ != r0[j0].key@);
                    } else if i == p {
                        assert(r[j] == r0[j - 1]);
                        assert(r0[j - 1].key@ != uniq@[q as int]@);
                    } else {
                        assert(r[i] == r0[i]);
                        assert(r0[i].key@ != uniq@[q as int]@);
                    }
                }
                assert forall|i: int|
                    0 <= i < r.len() implies leverage_ok(fs@, #[trigger] r[i]) && occurs(
                        uniq@,
                        r[i].key@,
                        q + 1,
                    ) by {
                    if i == p {
                        assert(uniq@[q as int]@ == r[i].key@);
                    } else {
                        let i0 = if i < p {
                            i
                        } else {
                            i - 1
                        };
                        assert(r[i] == r0[i0]);
                        let a = choose|a: int| 0 <= a < q && (#[trigger] uniq@[a])@ == r0[i0].key@;
                    }
                }
                assert forall|pp: int|
                    0 <= pp < q + 1 && cite_count(fs@, (#[trigger] uniq@[pp])@, n as int) > 1 implies exists|
                    i: int,
                | 0 <= i < r.len() && r[i].key@ == uniq@[pp]@ by {
                    if pp == q {
                        assert(r[p as int].key@ == uniq@[pp]@);
                    } else {
                        let i = choose|i: int| 0 <= i < r0.len() && r0[i].key@ == uniq@[pp]@;
                        if i < p {
                            assert(r[i] == r0[i]);
                        } else {
                            assert(r[i + 1] == r0[i]);
                        }
                    }
                }
            }
        } else {
            proof {
                assert forall|i: int|
                    0 <= i < ls@.len() implies leverage_ok(fs@, #[trigger] ls@[i]) && occurs(
                        uniq@,
                        ls@[i].key@,
                        q + 1,
                    ) by {
                    let a = choose|a: int| 0 <= a < q && (#[trigger] uniq@[a])@ == ls@[i].key@;
                }
            }
        }
        q += 1;
    }
    proof {
        assert forall|k: int|
            0 <= k < n && is_link_finding(#[trigger] fs@[k]) && cite_count(
                fs@,
                normalize_spec(fs@[k].target->0@),
                n as int,
            ) > 1 implies exists|i: int|
            0 <= i < ls@.len() && ls@[i].key@ == normalize_spec(fs@[k].target->0@) by {
            assert(link@[k]);
            assert(occurs(uniq@, keys@[k]@, uniq@.len() as int));
            let pp = choose|pp: int| 0 <= pp < uniq@.len() && (#[trigger] uniq@[pp])@ == keys@[k]@;
        }
    }
    ls
}

// ---------------------------------------------------------------------------------------------
// Domain sections
// ---------------------------------------------------------------------------------------------

/// One folded group of identical findings (same domain, rule and target).
#[derive(Debug, Clone)]
pub struct Item {
    pub severity: Severity,
    pub message: String,
    /// Total fan-in of the folded findings.
    pub blast: usize,
    pub sample_path: String,
    /// The group's key: domain, rule and target joined by `U+001F`.
    pub key: String,
    pub domain: String,
}

impl Ranked for Item {
    /// Errors first, then widest blast, then message, then key.
    open spec fn ranks_le(&self, other: &Self) -> bool {
        let (a, b) = (self.severity.rank(), other.severity.rank());
        a > b || (a == b && (self.blast > other.blast || (self.blast == other.blast && (seq_lt(
            self.message@,
            other.message@,
        ) || (self.message@ == other.message@ && seq_le(self.key@, other.key@))))))
    }

    proof fn lemma_ranks_total(a: &Self, b: &Self) {
        lemma_seq_lt_total(a.message@, b.message@);
        lemma_seq_lt_total(a.key@, b.key@);
    }

    proof fn lemma_ranks_trans(a: &Self, b: &Self, c: &Self) {
        if seq_lt(a.message@, b.message@) && seq_lt(b.message@, c.message@) {
            lemma_seq_lt_trans(a.message@, b.message@, c.message@);
        }
        if seq_lt(a.key@, b.key@) && seq_lt(b.key@, c.key@) {
            lemma_seq_lt_trans(a.key@, b.key@, c.key@);
        }
    }

    fn ranks_before(&self, other: &Self) -> (r: bool) {
        let a = self.severity.level();
        let b = other.severity.level();
        a > b || (a == b && (self.blast > other.blast || (self.blast == other.blast && (str_lt(
            self.message.as_str(),
            other.message.as_str(),
        ) || (str_eq(self.message.as_str(), other.message.as_str()) && (str_lt(
            self.key.as_str(),
            other.key.as_str(),
        ) || str_eq(self.key.as_str(), other.key.as_str())))))))
    }
}

/// One domain's section: its folded items and their total blast.
#[derive(Debug, Clone)]
pub struct Section {
    pub domain: String,
    pub items: Vec<Item>,
    pub blast: usize,
}

impl Ranked for Section {
    /// Most debt (total blast) first, then domain name.
    open spec fn ranks_le(&self, other: &Self) -> bool {
        self.blast > other.blast || (self.blast == other.blast && seq_le(
            self.domain@,
            other.domain@,
        ))
    }

    proof fn lemma_ranks_total(a: &Self, b: &Self) {
        lemma_seq_lt_total(a.domain@, b.domain@);
    }

    proof fn lemma_ranks_trans(a: &Self, b: &Self, c: &Self) {
        if seq_lt(a.domain@, b.domain@) && seq_lt(b.domain@, c.domain@) {
            lemma_seq_lt_trans(a.domain@, b.domain@, c.domain@);
        }
    }

    fn ranks_before(&self, other: &Self) -> (r: bool) {
        self.blast > other.blast || (self.blast == other.blast && (str_lt(
            self.domain.as_str(),
            other.domain.as_str(),
        ) || str_eq(self.domain.as_str(), other.domain.as_str())))
    }
}

/// An actionable finding: `Warn` or `Error`.
pub open spec fn actionable(f: Finding) -> bool {
    f.severity != Severity::Info
}

/// The folding key: domain, rule and target (the path when there is none), `U+001F`-joined.
pub open spec fn group_key(f: Finding) -> Seq<char> {
    domain_of_spec(f.path@) + "\u{1f}"@ + f.rule_id@ + "\u{1f}"@ + match f.target {
        Some(t) => t@,
        None => f.path@,
    }
}

/// Whether `f` folds into the group `g`.
pub open spec fn in_group(f: Finding, g: Seq<char>) -> bool {
    actionable(f) && group_key(f) == g
}

/// A finding's fan-in: its collision members, at least one.
pub open spec fn weight(f: Finding) -> nat {
    if f.collision_members@.len() > 1 {
        f.collision_members@.len()
    } else {
        1
    }
}

/// The first of the first `k` findings in group `g`.
pub open spec fn group_first(fs: Seq<Finding>, g: Seq<char>, k: int) -> Option<Finding>
    decreases k,
{
    if k <= 0 {
        None
    } else {
        match group_first(fs, g, k - 1) {
            Some(f) => Some(f),
            None => if in_group(fs[k - 1], g) {
                Some(fs[k - 1])
            } else {
                None
            },
        }
    }
}

/// The total fan-in of the first `k` findings in group `g`.
pub open spec fn group_blast(fs: Seq<Finding>, g: Seq<char>, k: int) -> nat
    decreases k,
{
    if k <= 0 {
        0
    } else {
        group_blast(fs, g, k - 1) + if in_group(fs[k - 1], g) {
            weight(fs[k - 1])
        } else {
            0
        }
    }
}

/// The total fan-in of the first `k` actionable findings.
pub open spec fn blast_total(fs: Seq<Finding>, k: int) -> nat
    decreases k,
{
    if k <= 0 {
        0
    } else {
        blast_total(fs, k - 1) + if actionable(fs[k - 1]) {
            weight(fs[k - 1])
        } else {
            0
        }
    }
}

/// Whether finding `k` is actionable and its group (named by its first finding) is in domain `d`.
pub open spec fn folded_into(fs: Seq<Finding>, k: int, d: Seq<char>) -> bool {
    actionable(fs[k]) && match group_first(fs, group_key(fs[k]), fs.len() as int) {
        Some(f0) => domain_of_spec(f0.path@) == d,
        None => false,
    }
}

/// The total fan-in of the first `m` findings folded into domain `d`.
pub open spec fn section_blast(fs: Seq<Finding>, d: Seq<char>, m: int) -> nat
    decreases m,
{
    if m <= 0 {
        0
    } else {
        section_blast(fs, d, m - 1) + if folded_into(fs, m - 1, d) {
            weight(fs[m - 1])
        } else {
            0
        }
    }
}

/// One folded item is exact for its group.
pub open spec fn item_ok(fs: Seq<Finding>, it: Item) -> bool {
    let n = fs.len() as int;
    match group_first(fs, it.key@, n) {
        Some(f0) => {
            &&& it.severity == f0.severity
            &&& it.message@ == f0.message@
            &&& it.sample_path@ == f0.path@
            &&& it.domain@ == domain_of_spec(f0.path@)
            &&& it.blast == group_blast(fs, it.key@, n)
        },
        None => false,
    }
}

/// One domain section is exact: its items are the groups named in it, in rank order.
pub open spec fn section_ok(fs: Seq<Finding>, s: Section) -> bool {
    let n = fs.len() as int;
    let items = s.items@;
    &&& sorted_ranked(items)
    &&& items.len() > 0
    &&& forall|i: int, j: int|
        #![trigger items[i], items[j]]
        0 <= i < j < items.len() ==> items[i].key@ != items[j].key@
    &&& forall|i: int|
        0 <= i < items.len() ==> item_ok(fs, #[trigger] items[i]) && items[i].domain@ == s.domain@
    &&& forall|k: int|
        0 <= k < n && folded_into(fs, k, s.domain@) ==> exists|i: int|
            0 <= i < items.len() && items[i].key@ == group_key(#[trigger] fs[k])
    &&& s.blast == section_blast(fs, s.domain@, n)
}

/// The domain sections: one per domain that names a group, in rank order.
pub open spec fn sections_matches(fs: Seq<Finding>, secs: Seq<Section>) -> bool {
    let n = fs.len() as int;
    &&& sorted_ranked(secs)
    &&& forall|i: int, j: int|
        #![trigger secs[i], secs[j]]
        0 <= i < j < secs.len() ==> secs[i].domain@ != secs[j].domain@
    &&& forall|i: int| 0 <= i < secs.len() ==> section_ok(fs, #[trigger] secs[i])
    &&& forall|k: int|
        0 <= k < n && actionable(#[trigger] fs[k]) ==> exists|i: int|
            0 <= i < secs.len() && folded_into(fs, k, secs[i].domain@)
}

proof fn lemma_group_first(fs: Seq<Finding>, g: Seq<char>, k: int)
    requires
        0 <= k <= fs.len(),
    ensures
        match group_first(fs, g, k) {
            Some(f) => in_group(f, g),
            None => forall|q: int| 0 <= q < k ==> !in_group(#[trigger] fs[q], g),
        },
    decreases k,
{
    if k > 0 {
        lemma_group_first(fs, g, k - 1);
    }
}

proof fn lemma_group_blast_bound(fs: Seq<Finding>, g: Seq<char>, k: int)
    ensures
        group_blast(fs, g, k) <= blast_total(fs, k),
    decreases k,
{
    if k > 0 {
        lemma_group_blast_bound(fs, g, k - 1);
    }
}

proof fn lemma_section_blast_bound(fs: Seq<Finding>, d: Seq<char>, k: int)
    ensures
        section_blast(fs, d, k) <= blast_total(fs, k),
    decreases k,
{
    if k > 0 {
        lemma_section_blast_bound(fs, d, k - 1);
    }
}

proof fn lemma_blast_total_mono(fs: Seq<Finding>, k: int, m: int)
    requires
        0 <= k <= m,
    ensures
        blast_total(fs, k) <= blast_total(fs, m),
    decreases m,
{
    if k < m {
        lemma_blast_total_mono(fs, k, m - 1);
    }
}

/// A finding's fan-in.
fn weight_of(f: &Finding) -> (w: usize)
    ensures
        w == weight(*f),
{
    let n = f.collision_members.len();
    if n > 1 {
        n
    } else {
        1
    }
}

/// The folding key of every finding, and whether it is actionable.
fn group_keys(fs: &Vec<Finding>, ds: &Vec<String>) -> (out: (Vec<String>, Vec<bool>))
    requires
        ds@.len() == fs@.len(),
        forall|k: int| 0 <= k < fs@.len() ==> (#[trigger] ds@[k])@ == domain_of_spec(fs@[k].path@),
    ensures
        out.0@.len() == fs@.len(),
        out.1@.len() == fs@.len(),
        forall|k: int|
            0 <= k < fs@.len() ==> (#[trigger] out.1@[k]) == actionable(fs@[k]) && out.0@[k]@
                == group_key(fs@[k]),
{
    let mut keys: Vec<String> = Vec::new();
    let mut act: Vec<bool> = Vec::new();
    let mut k: usize = 0;
    while k < fs.len()
        invariant
            k <= fs@.len(),
            ds@.len() == fs@.len(),
            forall|q: int| 0 <= q < fs@.len() ==> (#[trigger] ds@[q])@ == domain_of_spec(fs@[q].path@),
            keys@.len() == k,
            act@.len() == k,
            forall|q: int| 0 <= q < k ==> (#[trigger] act@[q]) == actionable(fs@[q]),
            forall|q: int| 0 <= q < k ==> (#[trigger] keys@[q])@ == group_key(fs@[q]),
        decreases fs.len() - k,
    {
        let f = &fs[k];
        assert(ds@[k as int]@ == domain_of_spec(f.path@));
        let target: &str = match &f.target {
            Some(t) => t.as_str(),
            None => f.path.as_str(),
        };
        let head = crate::text::concat3(ds[k].as_str(), "\u{1f}", f.rule_id.as_str());
        let key = crate::text::concat3(head.as_str(), "\u{1f}", target);
        assert(key@ == group_key(*f));
        let a = f.severity != Severity::Info;
        let ghost (k0, a0) = (keys@, act@);
        keys.push(key);
        act.push(a);
        proof {
            assert forall|q: int| 0 <= q < k + 1 implies (#[trigger] act@[q]) == actionable(fs@[q]) by {
                if q < k {
                    assert(act@[q] == a0[q]);
                }
            }
            assert forall|q: int| 0 <= q < k + 1 implies (#[trigger] keys@[q])@ == group_key(fs@[q]) by {
                if q < k {
                    assert(keys@[q] == k0[q]);
                }
            }
        }
        k += 1;
    }
    (keys, act)
}

/// The folded item of group `g` (a key some actionable finding has).
fn fold_group(fs: &Vec<Finding>, ds: &Vec<String>, keys: &Vec<String>, act: &Vec<bool>, g: &String) -> (it: Item)
    requires
        ds@.len() == fs@.len(),
        keys@.len() == fs@.len(),
        act@.len() == fs@.len(),
        forall|k: int| 0 <= k < fs@.len() ==> (#[trigger] ds@[k])@ == domain_of_spec(fs@[k].path@),
        forall|k: int|
            0 <= k < fs@.len() ==> (#[trigger] act@[k]) == actionable(fs@[k]) && keys@[k]@
                == group_key(fs@[k]),
        kept_occurs(keys@, act@, g@, fs@.len() as int),
        blast_total(fs@, fs@.len() as int) <= usize::MAX,
    ensures
        item_ok(fs@, it),
        it.key@ == g@,
{
    let n = fs.len();
    let mut first: Option<usize> = None;
    let mut blast: usize = 0;
    let mut k: usize = 0;
    while k < n
        invariant
            k <= n == fs@.len(),
            keys@.len() == fs@.len(),
            act@.len() == fs@.len(),
            forall|q: int|
                0 <= q < fs@.len() ==> (#[trigger] act@[q]) == actionable(fs@[q]) && keys@[q]@
                    == group_key(fs@[q]),
            blast_total(fs@, fs@.len() as int) <= usize::MAX,
            blast == group_blast(fs@, g@, k as int),
            match first {
                Some(i) => i < k && group_first(fs@, g@, k as int) == Some(fs@[i as int]),
                None => group_first(fs@, g@, k as int) is None,
            },
        decreases n - k,
    {
        assert(act@[k as int] == actionable(fs@[k as int]));
        let hit = act[k] && str_eq(keys[k].as_str(), g.as_str());
        if hit {
            proof {
                lemma_group_blast_bound(fs@, g@, k + 1);
                lemma_blast_total_mono(fs@, k + 1, n as int);
            }
            blast = blast + weight_of(&fs[k]);
            if first.is_none() {
                first = Some(k);
            }
        }
        k += 1;
    }
    proof {
        lemma_group_first(fs@, g@, n as int);
        let q = choose|q: int| 0 <= q < n && act@[q] && (#[trigger] keys@[q])@ == g@;
        assert(in_group(fs@[q], g@));
    }
    let i = match first {
        Some(i) => i,
        None => 0,
    };
    let f = &fs[i];
    assert(ds@[i as int]@ == domain_of_spec(f.path@));
    Item {
        severity: f.severity,
        message: f.message.clone(),
        blast,
        sample_path: f.path.clone(),
        key: g.clone(),
        domain: ds[i].clone(),
    }
}

/// A copy of `it`.
fn copy_item(it: &Item) -> (c: Item)
    ensures
        c.severity == it.severity,
        c.message@ == it.message@,
        c.blast == it.blast,
        c.sample_path@ == it.sample_path@,
        c.key@ == it.key@,
        c.domain@ == it.domain@,
{
    Item {
        severity: it.severity,
        message: it.message.clone(),
        blast: it.blast,
        sample_path: it.sample_path.clone(),
        key: it.key.clone(),
        domain: it.domain.clone(),
    }
}

/// The index of the item keyed `key` (one is there).
fn find_item(items: &Vec<Item>, key: &String) -> (i: usize)
    requires
        exists|i: int| 0 <= i < items@.len() && (#[trigger] items@[i]).key@ == key@,
    ensures
        i < items@.len(),
        items@[i as int].key@ == key@,
{
    let mut i: usize = 0;
    while i < items.len()
        invariant
            i <= items@.len(),
            exists|j: int| i <= j < items@.len() && (#[trigger] items@[j]).key@ == key@,
        decreases items.len() - i,
    {
        if str_eq(items[i].key.as_str(), key.as_str()) {
            return i;
        }
        i += 1;
    }
    0
}

/// Actionable findings (`Warn` + `Error`) grouped by domain, identical issues folded (the groups
/// are vectors kept in key order, not a `BTreeMap`; see the symbol table for why), each domain
/// sorted error-first then by blast radius; domains ordered by total blast (most debt first).
fn domain_sections(fs: &Vec<Finding>, ds: &Vec<String>) -> (secs: Vec<Section>)
    requires
        ds@.len() == fs@.len(),
        forall|k: int| 0 <= k < fs@.len() ==> (#[trigger] ds@[k])@ == domain_of_spec(fs@[k].path@),
        blast_total(fs@, fs@.len() as int) <= usize::MAX,
    ensures
        sections_matches(fs@, secs@),
{
    let n = fs.len();
    let (keys, act) = group_keys(fs, ds);
    let uniq = distinct_kept(&keys, &act);
    let mut items: Vec<Item> = Vec::new();
    let mut q: usize = 0;
    while q < uniq.len()
        invariant
            q <= uniq@.len(),
            n == fs@.len(),
            ds@.len() == fs@.len(),
            keys@.len() == fs@.len(),
            act@.len() == fs@.len(),
            forall|k: int| 0 <= k < fs@.len() ==> (#[trigger] ds@[k])@ == domain_of_spec(fs@[k].path@),
            forall|k: int|
                0 <= k < fs@.len() ==> (#[trigger] act@[k]) == actionable(fs@[k]) && keys@[k]@
                    == group_key(fs@[k]),
            forall|i: int| 0 <= i < uniq@.len() ==> kept_occurs(keys@, act@, (#[trigger] uniq@[i])@, n as int),
            blast_total(fs@, n as int) <= usize::MAX,
            items@.len() == q,
            forall|i: int| 0 <= i < q ==> item_ok(fs@, #[trigger] items@[i]) && items@[i].key@ == uniq@[i]@,
        decreases uniq.len() - q,
    {
        let it = fold_group(fs, ds, &keys, &act, &uniq[q]);
        items.push(it);
        q += 1;
    }
    // The domain each actionable finding's group is named in.
    let mut gdom: Vec<String> = Vec::new();
    let mut k: usize = 0;
    while k < n
        invariant
            k <= n == fs@.len(),
            keys@.len() == fs@.len(),
            act@.len() == fs@.len(),
            forall|k: int|
                0 <= k < fs@.len() ==> (#[trigger] act@[k]) == actionable(fs@[k]) && keys@[k]@
                    == group_key(fs@[k]),
            forall|k: int|
                0 <= k < keys@.len() && act@[k] ==> occurs(uniq@, (#[trigger] keys@[k])@, uniq@.len() as int),
            items@.len() == uniq@.len(),
            forall|i: int| 0 <= i < uniq@.len() ==> item_ok(fs@, #[trigger] items@[i]) && items@[i].key@ == uniq@[i]@,
            gdom@.len() == k,
            forall|j: int| 0 <= j < k ==> (folded_into(fs@, j, (#[trigger] gdom@[j])@) <==> act@[j]),
            forall|j: int, d: Seq<char>| 0 <= j < k && #[trigger] folded_into(fs@, j, d) ==> gdom@[j]@ == d,
        decreases n - k,
    {
        assert(act@[k as int] == actionable(fs@[k as int]));
        if act[k] {
            proof {
                let u = choose|u: int| 0 <= u < uniq@.len() && (#[trigger] uniq@[u])@ == keys@[k as int]@;
                assert(items@[u].key@ == keys@[k as int]@);
            }
            let i = find_item(&items, &keys[k]);
            gdom.push(items[i].domain.clone());
        } else {
            gdom.push(String::new());
        }
        k += 1;
    }
    // The domains that name a group.
    let mut idoms: Vec<String> = Vec::new();
    let mut all: Vec<bool> = Vec::new();
    let mut i: usize = 0;
    while i < items.len()
        invariant
            i <= items@.len(),
            idoms@.len() == i,
            all@.len() == i,
            forall|j: int| 0 <= j < i ==> (#[trigger] idoms@[j])@ == items@[j].domain@ && all@[j],
        decreases items.len() - i,
    {
        let dom = items[i].domain.clone();
        let ghost (d0, a0) = (idoms@, all@);
        idoms.push(dom);
        all.push(true);
        proof {
            assert forall|j: int| 0 <= j < i + 1 implies (#[trigger] idoms@[j])@ == items@[j].domain@
                && all@[j] by {
                if j < i {
                    assert(idoms@[j] == d0[j] && all@[j] == a0[j]);
                }
            }
        }
        i += 1;
    }
    let udoms = distinct_kept(&idoms, &all);
    let mut secs: Vec<Section> = Vec::new();
    let mut p: usize = 0;
    while p < udoms.len()
        invariant
            p <= udoms@.len(),
            n == fs@.len(),
            keys@.len() == fs@.len(),
            act@.len() == fs@.len(),
            forall|k: int|
                0 <= k < fs@.len() ==> (#[trigger] act@[k]) == actionable(fs@[k]) && keys@[k]@
                    == group_key(fs@[k]),
            forall|k: int|
                0 <= k < keys@.len() && act@[k] ==> occurs(uniq@, (#[trigger] keys@[k])@, uniq@.len() as int),
            items@.len() == uniq@.len(),
            forall|i: int| 0 <= i < uniq@.len() ==> item_ok(fs@, #[trigger] items@[i]) && items@[i].key@ == uniq@[i]@,
            distinct_views(uniq@),
            gdom@.len() == n,
            forall|j: int| 0 <= j < n ==> (folded_into(fs@, j, (#[trigger] gdom@[j])@) <==> act@[j]),
            forall|j: int, d: Seq<char>| 0 <= j < n && #[trigger] folded_into(fs@, j, d) ==> gdom@[j]@ == d,
            idoms@.len() == items@.len(),
            all@.len() == items@.len(),
            forall|j: int| 0 <= j < items@.len() ==> (#[trigger] idoms@[j])@ == items@[j].domain@ && all@[j],
            forall|j: int| 0 <= j < udoms@.len() ==> kept_occurs(idoms@, all@, (#[trigger] udoms@[j])@, idoms@.len() as int),
            distinct_views(udoms@),
            blast_total(fs@, n as int) <= usize::MAX,
            sorted_ranked(secs@),
            forall|i: int, j: int|
                #![trigger secs@[i], secs@[j]]
                0 <= i < j < secs@.len() ==> secs@[i].domain@ != secs@[j].domain@,
            forall|i: int| 0 <= i < secs@.len() ==> section_ok(fs@, #[trigger] secs@[i]) && occurs(udoms@, secs@[i].domain@, p as int),
            forall|pp: int| 0 <= pp < p ==> exists|i: int| 0 <= i < secs@.len() && secs@[i].domain@ == (#[trigger] udoms@[pp])@,
        decreases udoms.len() - p,
    {
        let d = &udoms[p];
        let sec = build_section(fs, &keys, &act, &uniq, &items, &gdom, d);
        let ghost r0 = secs@;
        let at = insert_ranked(&mut secs, sec);
        proof {
            let r = secs@;
            assert(r[at as int] == sec);
            assert forall|i: int|
                0 <= i < r0.len() implies (#[trigger] r0[i]).domain@ != udoms@[p as int]@ by {
                let a = choose|a: int| 0 <= a < p && (#[trigger] udoms@[a])@ == r0[i].domain@;
            }
            assert forall|i: int, j: int|
                #![trigger r[i], r[j]]
                0 <= i < j < r.len() implies r[i].domain@ != r[j].domain@ by {
                if i != at && j != at {
                    let i0 = if i < at {
                        i
                    } else {
                        i - 1
                    };
                    let j0 = if j < at {
                        j
                    } else {
                        j - 1
                    };
                    assert(r[i] == r0[i0] && r[j] == r0[j0]);
                    assert(r0[i0].domain@ != r0[j0].domain@);
                } else if i == at {
                    assert(r[j] == r0[j - 1]);
                    assert(r0[j - 1].domain@ != udoms@[p as int]@);
                } else {
                    assert(r[i] == r0[i]);
                    assert(r0[i].domain@ != udoms@[p as int]@);
                }
            }
            assert forall|i: int|
                0 <= i < r.len() implies section_ok(fs@, #[trigger] r[i]) && occurs(udoms@, r[i].domain@, p + 1) by {
                if i == at {
                    assert(udoms@[p as int]@ == r[i].domain@);
                } else {
                    let i0 = if i < at {
                        i
                    } else {
                        i - 1
                    };
                    assert(r[i] == r0[i0]);
                    let a = choose|a: int| 0 <= a < p && (#[trigger] udoms@[a])@ == r0[i0].domain@;
                }
            }
            assert forall|pp: int| 0 <= pp < p + 1 implies exists|i: int|
                0 <= i < r.len() && r[i].domain@ == (#[trigger] udoms@[pp])@ by {
                if pp == p {
                    assert(r[at as int].domain@ == udoms@[pp]@);
                } else {
                    let i = choose|i: int| 0 <= i < r0.len() && r0[i].domain@ == udoms@[pp]@;
                    if i < at {
                        assert(r[i] == r0[i]);
                    } else {
                        assert(r[i + 1] == r0[i]);
                    }
                }
            }
        }
        p += 1;
    }
    proof {
        assert forall|k: int| 0 <= k < n && actionable(#[trigger] fs@[k]) implies exists|i: int|
            0 <= i < secs@.len() && folded_into(fs@, k, secs@[i].domain@) by {
            assert(act@[k]);
            assert(folded_into(fs@, k, gdom@[k]@));
            let u = choose|u: int| 0 <= u < uniq@.len() && (#[trigger] uniq@[u])@ == keys@[k]@;
            let it = items@[u];
            assert(item_ok(fs@, it));
            assert(it.domain@ == gdom@[k]@);
            assert(idoms@[u]@ == it.domain@);
            assert(occurs(udoms@, idoms@[u]@, udoms@.len() as int));
            let pp = choose|pp: int| 0 <= pp < udoms@.len() && (#[trigger] udoms@[pp])@ == idoms@[u]@;
            let i = choose|i: int| 0 <= i < secs@.len() && secs@[i].domain@ == (#[trigger] udoms@[pp])@;
        }
    }
    secs
}

/// The section of domain `d` (a domain that names a group).
fn build_section(
    fs: &Vec<Finding>,
    keys: &Vec<String>,
    act: &Vec<bool>,
    uniq: &Vec<String>,
    items: &Vec<Item>,
    gdom: &Vec<String>,
    d: &String,
) -> (sec: Section)
    requires
        keys@.len() == fs@.len(),
        act@.len() == fs@.len(),
        forall|k: int|
            0 <= k < fs@.len() ==> (#[trigger] act@[k]) == actionable(fs@[k]) && keys@[k]@
                == group_key(fs@[k]),
        forall|k: int|
            0 <= k < keys@.len() && act@[k] ==> occurs(uniq@, (#[trigger] keys@[k])@, uniq@.len() as int),
        items@.len() == uniq@.len(),
        forall|i: int| 0 <= i < uniq@.len() ==> item_ok(fs@, #[trigger] items@[i]) && items@[i].key@ == uniq@[i]@,
        distinct_views(uniq@),
        gdom@.len() == fs@.len(),
        forall|j: int| 0 <= j < fs@.len() ==> (folded_into(fs@, j, (#[trigger] gdom@[j])@) <==> act@[j]),
        forall|j: int, d: Seq<char>| 0 <= j < fs@.len() && #[trigger] folded_into(fs@, j, d) ==> gdom@[j]@ == d,
        exists|i: int| 0 <= i < items@.len() && (#[trigger] items@[i]).domain@ == d@,
        blast_total(fs@, fs@.len() as int) <= usize::MAX,
    ensures
        section_ok(fs@, sec),
        sec.domain@ == d@,
{
    let n = fs.len();
    let mut its: Vec<Item> = Vec::new();
    let mut i: usize = 0;
    while i < items.len()
        invariant
            i <= items@.len() == uniq@.len(),
            forall|i: int| 0 <= i < uniq@.len() ==> item_ok(fs@, #[trigger] items@[i]) && items@[i].key@ == uniq@[i]@,
            distinct_views(uniq@),
            sorted_ranked(its@),
            forall|a: int, b: int|
                #![trigger its@[a], its@[b]]
                0 <= a < b < its@.len() ==> its@[a].key@ != its@[b].key@,
            forall|a: int| 0 <= a < its@.len() ==> item_ok(fs@, #[trigger] its@[a]) && its@[a].domain@ == d@
                && occurs(uniq@, its@[a].key@, i as int),
            forall|j: int| 0 <= j < i && (#[trigger] items@[j]).domain@ == d@ ==> exists|a: int|
                0 <= a < its@.len() && its@[a].key@ == items@[j].key@,
        decreases items.len() - i,
    {
        if str_eq(items[i].domain.as_str(), d.as_str()) {
            let c = copy_item(&items[i]);
            let ghost r0 = its@;
            let at = insert_ranked(&mut its, c);
            proof {
                let r = its@;
                assert(r[at as int] == c);
                assert forall|a: int|
                    0 <= a < r0.len() implies (#[trigger] r0[a]).key@ != uniq@[i as int]@ by {
                    let b = choose|b: int| 0 <= b < i && (#[trigger] uniq@[b])@ == r0[a].key@;
                }
                assert forall|a: int, b: int|
                    #![trigger r[a], r[b]]
                    0 <= a < b < r.len() implies r[a].key@ != r[b].key@ by {
                    if a != at && b != at {
                        let a0 = if a < at {
                            a
                        } else {
                            a - 1
                        };
                        let b0 = if b < at {
                            b
                        } else {
                            b - 1
                        };
                        assert(r[a] == r0[a0] && r[b] == r0[b0]);
                        assert(r0[a0].key@ != r0[b0].key@);
                    } else if a == at {
                        assert(r[b] == r0[b - 1]);
                        assert(r0[b - 1].key@ != uniq@[i as int]@);
                    } else {
                        assert(r[a] == r0[a]);
                        assert(r0[a].key@ != uniq@[i as int]@);
                    }
                }
                assert forall|a: int| 0 <= a < r.len() implies item_ok(fs@, #[trigger] r[a]) && r[a].domain@ == d@
                    && occurs(uniq@, r[a].key@, i + 1) by {
                    if a == at {
                        assert(uniq@[i as int]@ == r[a].key@);
                    } else {
                        let a0 = if a < at {
                            a
                        } else {
                            a - 1
                        };
                        assert(r[a] == r0[a0]);
                        let b = choose|b: int| 0 <= b < i && (#[trigger] uniq@[b])@ == r0[a0].key@;
                    }
                }
                assert forall|j: int| 0 <= j < i + 1 && (#[trigger] items@[j]).domain@ == d@ implies exists|a: int|
                    0 <= a < r.len() && r[a].key@ == items@[j].key@ by {
                    if j == i {
                        assert(r[at as int].key@ == items@[j].key@);
                    } else {
                        let a = choose|a: int| 0 <= a < r0.len() && r0[a].key@ == items@[j].key@;
                        if a < at {
                            assert(r[a] == r0[a]);
                        } else {
                            assert(r[a + 1] == r0[a]);
                        }
                    }
                }
            }
        } else {
            proof {
                assert forall|a: int| 0 <= a < its@.len() implies item_ok(fs@, #[trigger] its@[a]) && its@[a].domain@ == d@
                    && occurs(uniq@, its@[a].key@, i + 1) by {
                    let b = choose|b: int| 0 <= b < i && (#[trigger] uniq@[b])@ == its@[a].key@;
                }
            }
        }
        i += 1;
    }
    let mut blast: usize = 0;
    let mut k: usize = 0;
    while k < n
        invariant
            k <= n == fs@.len(),
            gdom@.len() == fs@.len(),
            act@.len() == fs@.len(),
            forall|j: int| 0 <= j < fs@.len() ==> (folded_into(fs@, j, (#[trigger] gdom@[j])@) <==> act@[j]),
            forall|j: int, d: Seq<char>| 0 <= j < fs@.len() && #[trigger] folded_into(fs@, j, d) ==> gdom@[j]@ == d,
            blast_total(fs@, fs@.len() as int) <= usize::MAX,
            blast == section_blast(fs@, d@, k as int),
        decreases n - k,
    {
        proof {
            lemma_section_blast_bound(fs@, d@, k + 1);
            lemma_blast_total_mono(fs@, k + 1, n as int);
        }
        if act[k] && str_eq(gdom[k].as_str(), d.as_str()) {
            blast = blast + weight_of(&fs[k]);
        } else {
            proof {
                if folded_into(fs@, k as int, d@) {
                    assert(gdom@[k as int]@ == d@);
                }
            }
        }
        k += 1;
    }
    proof {
        let j = choose|j: int| 0 <= j < items@.len() && (#[trigger] items@[j]).domain@ == d@;
        let a = choose|a: int| 0 <= a < its@.len() && its@[a].key@ == items@[j].key@;
        assert(its@.len() > 0);
        assert forall|k: int| 0 <= k < n && folded_into(fs@, k, d@) implies exists|a: int|
            0 <= a < its@.len() && its@[a].key@ == group_key(#[trigger] fs@[k]) by {
            assert(act@[k]);
            let u = choose|u: int| 0 <= u < uniq@.len() && (#[trigger] uniq@[u])@ == keys@[k]@;
            let it = items@[u];
            assert(item_ok(fs@, it));
            assert(it.key@ == group_key(fs@[k]));
            let a = choose|a: int| 0 <= a < its@.len() && its@[a].key@ == items@[u].key@;
        }
    }
    Section { domain: d.clone(), items: its, blast }
}

// ---------------------------------------------------------------------------------------------
// Packing
// ---------------------------------------------------------------------------------------------

/// The packed report, ready to render.
#[derive(Debug, Clone)]
pub struct Packed {
    pub errors: usize,
    pub warns: usize,
    /// Domains by debt.
    pub scoreboard: Vec<BoardRow>,
    /// Targets by fan-in.
    pub leverage: Vec<Leverage>,
    /// Domains with their blast-sorted folded items.
    pub domains: Vec<Section>,
    /// Tracked forward-references (`Info` other than external paths).
    pub planned: usize,
    /// External paths (`Info` `link.broken.path`).
    pub external: usize,
}

/// An external-path finding: `Info` `link.broken.path`.
pub open spec fn is_external(f: Finding) -> bool {
    f.rule_id@ == "link.broken.path"@ && f.severity == Severity::Info
}

/// The external-path findings among the first `k`.
pub open spec fn count_external(fs: Seq<Finding>, k: int) -> nat
    decreases k,
{
    if k <= 0 {
        0
    } else {
        count_external(fs, k - 1) + if is_external(fs[k - 1]) {
            1nat
        } else {
            0nat
        }
    }
}

/// What the packing of `fs` holds. Every `Info` finding is hidden; external paths are one slice
/// of them and the rest are forward-references, so planned + external is exactly the hidden count.
pub open spec fn packed_matches(fs: Seq<Finding>, p: Packed) -> bool {
    let n = fs.len() as int;
    &&& p.errors == count_sev(fs, Severity::Error, n)
    &&& p.warns == count_sev(fs, Severity::Warn, n)
    &&& p.external == count_external(fs, n)
    &&& p.planned + p.external == n - p.errors - p.warns
    &&& board_matches(fs, p.scoreboard@)
    &&& leverage_matches(fs, p.leverage@)
    &&& sections_matches(fs, p.domains@)
}

pub(crate) proof fn lemma_counts(fs: Seq<Finding>, k: int)
    requires
        0 <= k <= fs.len(),
    ensures
        count_sev(fs, Severity::Error, k) + count_sev(fs, Severity::Warn, k) + count_sev(
            fs,
            Severity::Info,
            k,
        ) == k,
        count_external(fs, k) <= count_sev(fs, Severity::Info, k),
    decreases k,
{
    if k > 0 {
        lemma_counts(fs, k - 1);
    }
}

/// The external-path findings.
fn external_count(fs: &Vec<Finding>) -> (c: usize)
    ensures
        c == count_external(fs@, fs@.len() as int),
{
    let mut c: usize = 0;
    let mut k: usize = 0;
    while k < fs.len()
        invariant
            k <= fs@.len(),
            c == count_external(fs@, k as int),
            c <= k,
        decreases fs.len() - k,
    {
        if fs[k].severity == Severity::Info && str_eq(fs[k].rule_id.as_str(), "link.broken.path") {
            c += 1;
        }
        k += 1;
    }
    c
}

/// Pack the report's findings.
pub fn pack(report: &Report) -> (p: Packed)
    requires
        blast_total(report.findings@, report.findings@.len() as int) <= usize::MAX,
    ensures
        packed_matches(report.findings@, p),
{
    let fs = &report.findings;
    let errors = report.count(Severity::Error);
    let warns = report.count(Severity::Warn);
    let info = report.count(Severity::Info);
    let external = external_count(fs);
    proof {
        lemma_counts(fs@, fs@.len() as int);
    }
    let ds = domains_of(fs);
    let scoreboard = scoreboard(fs, &ds);
    let leverage = leverage(fs, &ds);
    let domains = domain_sections(fs, &ds);
    Packed { errors, warns, scoreboard, leverage, domains, planned: info - external, external }
}

// ---------------------------------------------------------------------------------------------
// Text pieces
// ---------------------------------------------------------------------------------------------

/// The concatenation of `s`'s pieces.
pub open spec fn flatten(s: Seq<Seq<char>>) -> Seq<char>
    decreases s.len(),
{
    if s.len() == 0 {
        Seq::empty()
    } else {
        flatten(s.drop_last()) + s.last()
    }
}

/// `k` spaces.
pub open spec fn spaces(k: nat) -> Seq<char> {
    Seq::new(k, |i: int| ' ')
}

/// `s` left-aligned in a 20-character column (`{:<20}`).
pub open spec fn pad20(s: Seq<char>) -> Seq<char> {
    if s.len() < 20 {
        s + spaces((20 - s.len()) as nat)
    } else {
        s
    }
}

/// The pieces of `v` joined by `sep`.
pub open spec fn join_spec(v: Seq<Seq<char>>, sep: Seq<char>) -> Seq<char>
    decreases v.len(),
{
    if v.len() == 0 {
        Seq::empty()
    } else if v.len() == 1 {
        v[0]
    } else {
        join_spec(v.drop_last(), sep) + sep + v.last()
    }
}

/// `s` with every occurrence of the non-empty `pat`, scanning left to right without overlap,
/// replaced by `rep` (what `str::replace` does).
pub open spec fn replace_all(s: Seq<char>, pat: Seq<char>, rep: Seq<char>) -> Seq<char>
    decreases s.len(),
{
    if s.len() == 0 {
        Seq::empty()
    } else if pat.len() > 0 && has_prefix(s, pat) {
        rep + replace_all(s.skip(pat.len() as int), pat, rep)
    } else {
        seq![s[0]] + replace_all(s.drop_first(), pat, rep)
    }
}

/// Neutralize characters that would break a markdown table (`|`), HTML/`<details>` (`<`, `>`), or
/// turn the report's own text into live wikilinks that pollute the graph (`[[`, `]]`).
pub open spec fn escape_md_spec(s: Seq<char>) -> Seq<char> {
    replace_all(
        replace_all(
            replace_all(replace_all(replace_all(s, "|"@, "\\|"@), "<"@, "&lt;"@), ">"@, "&gt;"@),
            "[["@,
            "[\\["@,
        ),
        "]]"@,
        "]\\]"@,
    )
}

proof fn lemma_flatten_step(s: Seq<Seq<char>>, i: int)
    requires
        0 <= i < s.len(),
    ensures
        flatten(s.take(i + 1)) == flatten(s.take(i)) + s[i],
{
    assert(s.take(i + 1).drop_last() =~= s.take(i));
}

proof fn lemma_join_step(v: Seq<Seq<char>>, sep: Seq<char>, i: int)
    requires
        0 < i < v.len(),
    ensures
        join_spec(v.take(i + 1), sep) == join_spec(v.take(i), sep) + sep + v[i],
{
    assert(v.take(i + 1).drop_last() =~= v.take(i));
}

/// Append `t` to `out`.
fn put(out: &mut String, t: &str)
    ensures
        final(out)@ == old(out)@ + t@,
{
    out.append(t);
}

/// Append `n` in decimal to `out`.
fn put_num(out: &mut String, n: usize)
    ensures
        final(out)@ == old(out)@ + crate::text::decimal(n as nat),
{
    let d = crate::text::decimal_string(n);
    out.append(d.as_str());
}

/// `s` with every occurrence of `pat` replaced by `rep`, left to right.
fn replace_str(s: &str, pat: &str, rep: &str) -> (out: String)
    requires
        pat@.len() > 0,
    ensures
        out@ == replace_all(s@, pat@, rep@),
{
    let v = chars_of(s);
    let p = chars_of(pat);
    let mut out = String::new();
    let mut i: usize = 0;
    assert(v@.skip(0) =~= v@);
    while i < v.len()
        invariant
            i <= v@.len(),
            v@ == s@,
            p@ == pat@,
            p@.len() > 0,
            out@ + replace_all(v@.skip(i as int), p@, rep@) == replace_all(v@, p@, rep@),
        decreases v.len() - i,
    {
        let ghost rest = v@.skip(i as int);
        if crate::text::chars_match_at(v.as_slice(), p.as_slice(), i) {
            proof {
                assert(rest.take(p@.len() as int) =~= v@.subrange(i as int, i + p@.len()));
                assert(rest.skip(p@.len() as int) =~= v@.skip(i + p@.len()));
            }
            out.append(rep);
            i += p.len();
        } else {
            proof {
                if has_prefix(rest, p@) {
                    assert(v@.subrange(i as int, i + p@.len()) =~= rest.take(p@.len() as int));
                }
                assert(rest.drop_first() =~= v@.skip(i + 1));
                assert(rest[0] == v@[i as int]);
            }
            crate::text::push_char(&mut out, v[i]);
            i += 1;
        }
    }
    assert(v@.skip(i as int) =~= Seq::<char>::empty());
    out
}

/// Neutralize markdown-breaking characters (see [`escape_md_spec`]).
pub fn escape_md(s: &str) -> (out: String)
    ensures
        out@ == escape_md_spec(s@),
{
    proof {
        reveal_strlit("|");
        reveal_strlit("<");
        reveal_strlit(">");
        reveal_strlit("[[");
        reveal_strlit("]]");
    }
    let a = replace_str(s, "|", "\\|");
    let b = replace_str(a.as_str(), "<", "&lt;");
    let c = replace_str(b.as_str(), ">", "&gt;");
    let d = replace_str(c.as_str(), "[[", "[\\[");
    replace_str(d.as_str(), "]]", "]\\]")
}

/// Append `s` left-aligned in a 20-character column.
fn put_pad20(out: &mut String, s: &str)
    ensures
        final(out)@ == old(out)@ + pad20(s@),
{
    let ghost base = out@;
    out.append(s);
    let len = s.unicode_len();
    let mut j: usize = len;
    while j < 20
        invariant
            len == s@.len(),
            len <= j <= 20 || (len > 20 && j == len),
            out@ == base + s@ + spaces((j - len) as nat),
        decreases 20 - j,
    {
        let ghost before = out@;
        crate::text::push_char(out, ' ');
        assert(spaces((j + 1 - len) as nat) =~= spaces((j - len) as nat).push(' '));
        j += 1;
    }
    assert(s@.len() < 20 ==> j == 20);
    assert(s@.len() >= 20 ==> spaces((j - len) as nat) =~= Seq::<char>::empty());
}

/// Append the strings of `v` joined by `sep`.
fn put_join(out: &mut String, v: &Vec<String>, sep: &str)
    ensures
        final(out)@ == old(out)@ + join_spec(string_views(v@), sep@),
{
    let ghost base = out@;
    let ghost vs = string_views(v@);
    let mut i: usize = 0;
    assert(vs.take(0) =~= Seq::<Seq<char>>::empty());
    while i < v.len()
        invariant
            i <= v@.len(),
            vs == string_views(v@),
            out@ == base + join_spec(vs.take(i as int), sep@),
        decreases v.len() - i,
    {
        if i > 0 {
            out.append(sep);
            proof {
                lemma_join_step(vs, sep@, i as int);
            }
        } else {
            assert(vs.take(1) =~= seq![vs[0]]);
        }
        out.append(v[i].as_str());
        i += 1;
    }
    assert(vs.take(v@.len() as int) =~= vs);
}

/// `×{n} ` when `n > 1`, else nothing.
pub open spec fn blast_prefix(n: usize) -> Seq<char> {
    if n > 1 {
        "×"@ + crate::text::decimal(n as nat) + " "@
    } else {
        Seq::empty()
    }
}

/// Append [`blast_prefix`].
fn put_blast(out: &mut String, n: usize)
    ensures
        final(out)@ == old(out)@ + blast_prefix(n),
{
    if n > 1 {
        put(out, "×");
        put_num(out, n);
        put(out, " ");
    } else {
        assert(out@ =~= out@ + Seq::<char>::empty());
    }
}

/// The leverage callout's first five entries.
pub open spec fn top5(ls: Seq<Leverage>) -> Seq<Leverage> {
    if ls.len() <= 5 {
        ls
    } else {
        ls.take(5)
    }
}

/// `planned` when every reference is planned, else `broken`.
pub open spec fn lev_tag(l: Leverage) -> Seq<char> {
    if l.planned {
        "planned"@
    } else {
        "broken"@
    }
}

// ---------------------------------------------------------------------------------------------
// Terminal rendering
// ---------------------------------------------------------------------------------------------

/// The count line of the terminal report.
pub open spec fn human_head(n: nat, p: Packed) -> Seq<char> {
    decimal(n) + " findings: "@ + decimal(p.errors as nat) + " error, "@ + decimal(p.warns as nat)
        + " warn, "@ + decimal((p.planned + p.external) as nat) + " hidden ("@ + decimal(
        p.planned as nat,
    ) + " planned forward-refs, "@ + decimal(p.external as nat) + " external paths)\n"@
}

/// One scoreboard line of the terminal report.
pub open spec fn human_board_line(r: BoardRow) -> Seq<char> {
    "  "@ + pad20(r.domain@) + " "@ + decimal(r.errors as nat) + " error · "@ + decimal(
        r.warns as nat,
    ) + " warn\n"@
}

/// One leverage line of the terminal report.
pub open spec fn human_lev_line(l: Leverage) -> Seq<char> {
    "  ×"@ + decimal(l.count as nat) + " [["@ + l.target@ + "]] ("@ + lev_tag(l) + ") — "@
        + join_spec(string_views(l.domains@), ", "@) + "\n"@
}

/// One item line of the terminal report.
pub open spec fn human_item_line(i: Item) -> Seq<char> {
    "  ["@ + crate::model::severity_label(i.severity) + "] "@ + blast_prefix(i.blast) + i.message@
        + "  ("@ + i.sample_path@ + ")\n"@
}

/// One domain section of the terminal report.
pub open spec fn human_section(s: Section) -> Seq<char> {
    "\n▌ "@ + s.domain@ + "\n"@ + flatten(s.items@.map_values(|i: Item| human_item_line(i)))
}

/// The terminal report of `n` findings packed as `p`.
pub open spec fn human_spec(n: nat, p: Packed) -> Seq<char> {
    human_head(n, p) + (if p.scoreboard@.len() == 0 {
        Seq::empty()
    } else {
        "\ndebt by domain:\n"@ + flatten(p.scoreboard@.map_values(|r: BoardRow| human_board_line(r)))
    }) + (if p.leverage@.len() == 0 {
        Seq::empty()
    } else {
        "\nmost leveraged (create one, resolve many):\n"@ + flatten(
            top5(p.leverage@).map_values(|l: Leverage| human_lev_line(l)),
        )
    }) + flatten(p.domains@.map_values(|s: Section| human_section(s)))
}

/// Append the severity's name.
fn put_severity(out: &mut String, s: Severity)
    ensures
        final(out)@ == old(out)@ + crate::model::severity_label(s),
{
    out.append(s.as_str());
}

/// Append the terminal scoreboard lines.
fn human_board(out: &mut String, rows: &Vec<BoardRow>)
    ensures
        final(out)@ == old(out)@ + flatten(rows@.map_values(|r: BoardRow| human_board_line(r))),
{
    let ghost base = out@;
    let ghost lines = rows@.map_values(|r: BoardRow| human_board_line(r));
    let mut i: usize = 0;
    assert(lines.take(0) =~= Seq::<Seq<char>>::empty());
    while i < rows.len()
        invariant
            i <= rows@.len(),
            lines == rows@.map_values(|r: BoardRow| human_board_line(r)),
            out@ == base + flatten(lines.take(i as int)),
        decreases rows.len() - i,
    {
        let ghost before = out@;
        let r = &rows[i];
        put(out, "  ");
        put_pad20(out, r.domain.as_str());
        put(out, " ");
        put_num(out, r.errors);
        put(out, " error · ");
        put_num(out, r.warns);
        put(out, " warn\n");
        proof {
            assert(out@ =~= before + human_board_line(*r));
            lemma_flatten_step(lines, i as int);
        }
        i += 1;
    }
    assert(lines.take(rows@.len() as int) =~= lines);
}

/// Append the terminal leverage lines (the first five entries).
fn human_leverage(out: &mut String, ls: &Vec<Leverage>)
    ensures
        final(out)@ == old(out)@ + flatten(top5(ls@).map_values(|l: Leverage| human_lev_line(l))),
{
    let ghost base = out@;
    let ghost lines = top5(ls@).map_values(|l: Leverage| human_lev_line(l));
    let m = if ls.len() <= 5 {
        ls.len()
    } else {
        5
    };
    let mut i: usize = 0;
    assert(lines.take(0) =~= Seq::<Seq<char>>::empty());
    while i < m
        invariant
            i <= m,
            m == top5(ls@).len(),
            m <= ls@.len(),
            lines == top5(ls@).map_values(|l: Leverage| human_lev_line(l)),
            out@ == base + flatten(lines.take(i as int)),
        decreases m - i,
    {
        let ghost before = out@;
        let l = &ls[i];
        assert(top5(ls@)[i as int] == ls@[i as int]);
        put(out, "  ×");
        put_num(out, l.count);
        put(out, " [[");
        put(out, l.target.as_str());
        put(out, "]] (");
        if l.planned {
            put(out, "planned");
        } else {
            put(out, "broken");
        }
        put(out, ") — ");
        put_join(out, &l.domains, ", ");
        put(out, "\n");
        proof {
            assert(out@ =~= before + human_lev_line(*l));
            lemma_flatten_step(lines, i as int);
        }
        i += 1;
    }
    assert(lines.take(m as int) =~= lines);
}

/// Append one terminal domain section.
fn human_one_section(out: &mut String, sec: &Section)
    ensures
        final(out)@ == old(out)@ + human_section(*sec),
{
    let ghost base = out@;
    put(out, "\n▌ ");
    put(out, sec.domain.as_str());
    put(out, "\n");
    let ghost head = out@;
    let ghost lines = sec.items@.map_values(|i: Item| human_item_line(i));
    let mut i: usize = 0;
    assert(lines.take(0) =~= Seq::<Seq<char>>::empty());
    while i < sec.items.len()
        invariant
            i <= sec.items@.len(),
            lines == sec.items@.map_values(|i: Item| human_item_line(i)),
            out@ == head + flatten(lines.take(i as int)),
        decreases sec.items.len() - i,
    {
        let ghost before = out@;
        let it = &sec.items[i];
        put(out, "  [");
        put_severity(out, it.severity);
        put(out, "] ");
        put_blast(out, it.blast);
        put(out, it.message.as_str());
        put(out, "  (");
        put(out, it.sample_path.as_str());
        put(out, ")\n");
        proof {
            assert(out@ =~= before + human_item_line(*it));
            lemma_flatten_step(lines, i as int);
        }
        i += 1;
    }
    assert(lines.take(sec.items@.len() as int) =~= lines);
    assert(out@ =~= base + human_section(*sec));
}

/// Append every terminal domain section.
fn human_sections(out: &mut String, secs: &Vec<Section>)
    ensures
        final(out)@ == old(out)@ + flatten(secs@.map_values(|s: Section| human_section(s))),
{
    let ghost base = out@;
    let ghost parts = secs@.map_values(|s: Section| human_section(s));
    let mut i: usize = 0;
    assert(parts.take(0) =~= Seq::<Seq<char>>::empty());
    while i < secs.len()
        invariant
            i <= secs@.len(),
            parts == secs@.map_values(|s: Section| human_section(s)),
            out@ == base + flatten(parts.take(i as int)),
        decreases secs.len() - i,
    {
        human_one_section(out, &secs[i]);
        proof {
            lemma_flatten_step(parts, i as int);
        }
        i += 1;
    }
    assert(parts.take(secs@.len() as int) =~= parts);
}

/// Render a packing of `n` findings for a terminal reader.
fn render_human(n: usize, p: &Packed) -> (s: String)
    requires
        p.planned + p.external <= usize::MAX,
    ensures
        s@ == human_spec(n as nat, *p),
{
    let mut s = String::new();
    put_num(&mut s, n);
    put(&mut s, " findings: ");
    put_num(&mut s, p.errors);
    put(&mut s, " error, ");
    put_num(&mut s, p.warns);
    put(&mut s, " warn, ");
    put_num(&mut s, p.planned + p.external);
    put(&mut s, " hidden (");
    put_num(&mut s, p.planned);
    put(&mut s, " planned forward-refs, ");
    put_num(&mut s, p.external);
    put(&mut s, " external paths)\n");
    let ghost head = s@;
    assert(head =~= human_head(n as nat, *p));
    if p.scoreboard.len() > 0 {
        put(&mut s, "\ndebt by domain:\n");
        human_board(&mut s, &p.scoreboard);
    }
    let ghost with_board = s@;
    if p.leverage.len() > 0 {
        put(&mut s, "\nmost leveraged (create one, resolve many):\n");
        human_leverage(&mut s, &p.leverage);
    }
    let ghost with_lev = s@;
    human_sections(&mut s, &p.domains);
    assert(s@ =~= human_spec(n as nat, *p));
    s
}

/// Render the packed report for a terminal reader: a count line, the debt scoreboard, the most
/// leveraged targets, then the actionable findings by domain.
pub fn human(report: &Report) -> (s: String)
    requires
        blast_total(report.findings@, report.findings@.len() as int) <= usize::MAX,
    ensures
        exists|p: Packed| packed_matches(report.findings@, p) && s@ == human_spec(
            report.findings@.len() as nat,
            p,
        ),
{
    let p = pack(report);
    render_human(report.findings.len(), &p)
}

// ---------------------------------------------------------------------------------------------
// Markdown rendering
// ---------------------------------------------------------------------------------------------

/// The frontmatter, title and count line of the markdown report.
pub open spec fn md_head(n: nat, p: Packed) -> Seq<char> {
    "---\ntype: report\ntool: kura\n---\n\n# kura check\n\n"@ + decimal(n) + " findings — **"@
        + decimal(p.errors as nat) + " error**, **"@ + decimal(p.warns as nat) + " warn**, "@
        + decimal((p.planned + p.external) as nat) + " hidden.\n\n"@
}

/// One scoreboard row of the markdown report.
pub open spec fn md_board_line(r: BoardRow) -> Seq<char> {
    "| "@ + escape_md_spec(r.domain@) + " | "@ + decimal(r.errors as nat) + " | "@ + decimal(
        r.warns as nat,
    ) + " |\n"@
}

/// One leverage line of the markdown report (the target stays in a code span, a literal
/// `[[X]]` rather than a live wikilink).
pub open spec fn md_lev_line(l: Leverage) -> Seq<char> {
    "- **×"@ + decimal(l.count as nat) + "** `[["@ + l.target@ + "]]` ("@ + lev_tag(l) + ") — "@
        + escape_md_spec(join_spec(string_views(l.domains@), ", "@)) + "\n"@
}

/// One item line of the markdown report.
pub open spec fn md_item_line(i: Item) -> Seq<char> {
    "- `"@ + crate::model::severity_label(i.severity) + "` "@ + blast_prefix(i.blast)
        + escape_md_spec(i.message@) + " — "@ + escape_md_spec(i.sample_path@) + "\n"@
}

/// One domain section of the markdown report.
pub open spec fn md_section(s: Section) -> Seq<char> {
    "## "@ + escape_md_spec(s.domain@) + "\n\n"@ + flatten(
        s.items@.map_values(|i: Item| md_item_line(i)),
    ) + "\n"@
}

/// The hidden-finding line of the markdown report's details block.
pub open spec fn md_info_line(f: Finding) -> Seq<char> {
    "- `"@ + f.rule_id@ + "` "@ + escape_md_spec(f.message@) + " — "@ + escape_md_spec(f.path@)
        + "\n"@
}

/// The lines of the `Info` findings among the first `k`, in order.
pub open spec fn md_info_lines(fs: Seq<Finding>, k: int) -> Seq<char>
    decreases k,
{
    if k <= 0 {
        Seq::empty()
    } else {
        md_info_lines(fs, k - 1) + if fs[k - 1].severity == Severity::Info {
            md_info_line(fs[k - 1])
        } else {
            Seq::empty()
        }
    }
}

/// The body of the markdown report: scoreboard table, leverage callout, one section per domain.
pub open spec fn md_body(p: Packed) -> Seq<char> {
    md_middle(p) + flatten(p.domains@.map_values(|s: Section| md_section(s)))
}

/// The markdown report of `fs` packed as `p`: frontmatter with no timestamp, scoreboard table,
/// leverage callout, one section per domain, and the hidden findings in a details block.
pub open spec fn markdown_spec(fs: Seq<Finding>, p: Packed) -> Seq<char> {
    md_head(fs.len(), p) + md_body(p) + md_details(fs, p)
}

/// Append `escape_md(s)`.
fn put_escaped(out: &mut String, s: &str)
    ensures
        final(out)@ == old(out)@ + escape_md_spec(s@),
{
    let e = escape_md(s);
    out.append(e.as_str());
}

/// Append the markdown scoreboard rows.
fn md_board(out: &mut String, rows: &Vec<BoardRow>)
    ensures
        final(out)@ == old(out)@ + flatten(rows@.map_values(|r: BoardRow| md_board_line(r))),
{
    let ghost base = out@;
    let ghost lines = rows@.map_values(|r: BoardRow| md_board_line(r));
    let mut i: usize = 0;
    assert(lines.take(0) =~= Seq::<Seq<char>>::empty());
    while i < rows.len()
        invariant
            i <= rows@.len(),
            lines == rows@.map_values(|r: BoardRow| md_board_line(r)),
            out@ == base + flatten(lines.take(i as int)),
        decreases rows.len() - i,
    {
        let ghost before = out@;
        let r = &rows[i];
        put(out, "| ");
        put_escaped(out, r.domain.as_str());
        put(out, " | ");
        put_num(out, r.errors);
        put(out, " | ");
        put_num(out, r.warns);
        put(out, " |\n");
        proof {
            assert(out@ =~= before + md_board_line(*r));
            lemma_flatten_step(lines, i as int);
        }
        i += 1;
    }
    assert(lines.take(rows@.len() as int) =~= lines);
}

/// The strings of `v` joined by `sep`.
pub(crate) fn join_strings(v: &Vec<String>, sep: &str) -> (out: String)
    ensures
        out@ == join_spec(string_views(v@), sep@),
{
    let mut out = String::new();
    put_join(&mut out, v, sep);
    assert(out@ =~= join_spec(string_views(v@), sep@));
    out
}

/// Append the markdown leverage lines (the first five entries).
fn md_leverage(out: &mut String, ls: &Vec<Leverage>)
    ensures
        final(out)@ == old(out)@ + flatten(top5(ls@).map_values(|l: Leverage| md_lev_line(l))),
{
    let ghost base = out@;
    let ghost lines = top5(ls@).map_values(|l: Leverage| md_lev_line(l));
    let m = if ls.len() <= 5 {
        ls.len()
    } else {
        5
    };
    let mut i: usize = 0;
    assert(lines.take(0) =~= Seq::<Seq<char>>::empty());
    while i < m
        invariant
            i <= m,
            m == top5(ls@).len(),
            m <= ls@.len(),
            lines == top5(ls@).map_values(|l: Leverage| md_lev_line(l)),
            out@ == base + flatten(lines.take(i as int)),
        decreases m - i,
    {
        let ghost before = out@;
        let l = &ls[i];
        assert(top5(ls@)[i as int] == ls@[i as int]);
        put(out, "- **×");
        put_num(out, l.count);
        put(out, "** `[[");
        put(out, l.target.as_str());
        put(out, "]]` (");
        if l.planned {
            put(out, "planned");
        } else {
            put(out, "broken");
        }
        put(out, ") — ");
        let joined = join_strings(&l.domains, ", ");
        put_escaped(out, joined.as_str());
        put(out, "\n");
        proof {
            assert(out@ =~= before + md_lev_line(*l));
            lemma_flatten_step(lines, i as int);
        }
        i += 1;
    }
    assert(lines.take(m as int) =~= lines);
}

/// Append one markdown domain section.
fn md_one_section(out: &mut String, sec: &Section)
    ensures
        final(out)@ == old(out)@ + md_section(*sec),
{
    let ghost base = out@;
    put(out, "## ");
    put_escaped(out, sec.domain.as_str());
    put(out, "\n\n");
    let ghost head = out@;
    let ghost lines = sec.items@.map_values(|i: Item| md_item_line(i));
    let mut i: usize = 0;
    assert(lines.take(0) =~= Seq::<Seq<char>>::empty());
    while i < sec.items.len()
        invariant
            i <= sec.items@.len(),
            lines == sec.items@.map_values(|i: Item| md_item_line(i)),
            out@ == head + flatten(lines.take(i as int)),
        decreases sec.items.len() - i,
    {
        let ghost before = out@;
        let it = &sec.items[i];
        put(out, "- `");
        put_severity(out, it.severity);
        put(out, "` ");
        put_blast(out, it.blast);
        put_escaped(out, it.message.as_str());
        put(out, " — ");
        put_escaped(out, it.sample_path.as_str());
        put(out, "\n");
        proof {
            assert(out@ =~= before + md_item_line(*it));
            lemma_flatten_step(lines, i as int);
        }
        i += 1;
    }
    assert(lines.take(sec.items@.len() as int) =~= lines);
    put(out, "\n");
    assert(out@ =~= base + md_section(*sec));
}

/// Append every markdown domain section.
fn md_sections(out: &mut String, secs: &Vec<Section>)
    ensures
        final(out)@ == old(out)@ + flatten(secs@.map_values(|s: Section| md_section(s))),
{
    let ghost base = out@;
    let ghost parts = secs@.map_values(|s: Section| md_section(s));
    let mut i: usize = 0;
    assert(parts.take(0) =~= Seq::<Seq<char>>::empty());
    while i < secs.len()
        invariant
            i <= secs@.len(),
            parts == secs@.map_values(|s: Section| md_section(s)),
            out@ == base + flatten(parts.take(i as int)),
        decreases secs.len() - i,
    {
        md_one_section(out, &secs[i]);
        proof {
            lemma_flatten_step(parts, i as int);
        }
        i += 1;
    }
    assert(parts.take(secs@.len() as int) =~= parts);
}

/// Append the hidden (`Info`) findings, one line each.
fn md_info(out: &mut String, fs: &Vec<Finding>)
    ensures
        final(out)@ == old(out)@ + md_info_lines(fs@, fs@.len() as int),
{
    let ghost base = out@;
    let mut k: usize = 0;
    while k < fs.len()
        invariant
            k <= fs@.len(),
            out@ == base + md_info_lines(fs@, k as int),
        decreases fs.len() - k,
    {
        let ghost before = out@;
        let f = &fs[k];
        if f.severity == Severity::Info {
            put(out, "- `");
            put(out, f.rule_id.as_str());
            put(out, "` ");
            put_escaped(out, f.message.as_str());
            put(out, " — ");
            put_escaped(out, f.path.as_str());
            put(out, "\n");
            assert(out@ =~= before + md_info_line(*f));
        }
        k += 1;
        assert(out@ =~= base + md_info_lines(fs@, k as int));
    }
}

/// The markdown scoreboard table and leverage callout.
pub open spec fn md_middle(p: Packed) -> Seq<char> {
    (if p.scoreboard@.len() == 0 {
        Seq::empty()
    } else {
        "## Debt by domain\n\n| domain | error | warn |\n|---|--:|--:|\n"@ + flatten(
            p.scoreboard@.map_values(|r: BoardRow| md_board_line(r)),
        ) + "\n"@
    }) + (if p.leverage@.len() == 0 {
        Seq::empty()
    } else {
        "## Most leveraged (create one, resolve many)\n\n"@ + flatten(
            top5(p.leverage@).map_values(|l: Leverage| md_lev_line(l)),
        ) + "\n"@
    })
}

/// The markdown details block of hidden findings.
pub open spec fn md_details(fs: Seq<Finding>, p: Packed) -> Seq<char> {
    if p.planned + p.external > 0 {
        "<details><summary>"@ + decimal(p.planned as nat) + " tracked forward-references · "@
            + decimal(p.external as nat) + " external paths (info)</summary>\n\n"@ + md_info_lines(
            fs,
            fs.len() as int,
        ) + "\n</details>\n"@
    } else {
        Seq::empty()
    }
}

/// Append the scoreboard table and leverage callout.
fn md_put_middle(s: &mut String, p: &Packed)
    ensures
        final(s)@ == old(s)@ + md_middle(*p),
{
    let ghost base = s@;
    if p.scoreboard.len() > 0 {
        put(s, "## Debt by domain\n\n| domain | error | warn |\n|---|--:|--:|\n");
        md_board(s, &p.scoreboard);
        put(s, "\n");
    }
    let ghost with_board = s@;
    if p.leverage.len() > 0 {
        put(s, "## Most leveraged (create one, resolve many)\n\n");
        md_leverage(s, &p.leverage);
        put(s, "\n");
    }
    assert(s@ =~= base + md_middle(*p));
}

/// Append the details block of hidden findings.
fn md_put_details(s: &mut String, fs: &Vec<Finding>, p: &Packed)
    requires
        p.planned + p.external <= usize::MAX,
    ensures
        final(s)@ == old(s)@ + md_details(fs@, *p),
{
    let ghost base = s@;
    if p.planned + p.external > 0 {
        put(s, "<details><summary>");
        put_num(s, p.planned);
        put(s, " tracked forward-references · ");
        put_num(s, p.external);
        put(s, " external paths (info)</summary>\n\n");
        md_info(s, fs);
        put(s, "\n</details>\n");
    }
    assert(s@ =~= base + md_details(fs@, *p));
}

/// Render a packing of `fs` as markdown.
fn render_markdown(fs: &Vec<Finding>, p: &Packed) -> (s: String)
    requires
        p.planned + p.external <= usize::MAX,
    ensures
        s@ == markdown_spec(fs@, *p),
{
    let mut s = String::new();
    put(&mut s, "---\ntype: report\ntool: kura\n---\n\n# kura check\n\n");
    put_num(&mut s, fs.len());
    put(&mut s, " findings — **");
    put_num(&mut s, p.errors);
    put(&mut s, " error**, **");
    put_num(&mut s, p.warns);
    put(&mut s, " warn**, ");
    put_num(&mut s, p.planned + p.external);
    put(&mut s, " hidden.\n\n");
    assert(s@ =~= md_head(fs@.len(), *p));
    md_put_middle(&mut s, p);
    md_sections(&mut s, &p.domains);
    md_put_details(&mut s, fs, p);
    assert(s@ =~= markdown_spec(fs@, *p));
    s
}

/// Render the packed report as a fileable markdown note body (printed to stdout; kura never
/// writes files). Frontmatter is deterministic (no timestamp); the consumer stamps and routes it.
pub fn markdown(report: &Report) -> (s: String)
    requires
        blast_total(report.findings@, report.findings@.len() as int) <= usize::MAX,
    ensures
        exists|p: Packed| packed_matches(report.findings@, p) && s@ == markdown_spec(
            report.findings@,
            p,
        ),
{
    let p = pack(report);
    let n = report.findings.len();
    assert(p.planned + p.external <= n);
    render_markdown(&report.findings, &p)
}

} // verus!
