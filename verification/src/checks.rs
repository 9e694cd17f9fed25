//! The result of one check (findings in a deterministic total order) and the scan that produces
//! it from a loaded vault.

use vstd::prelude::*;
use vstd::multiset::Multiset;
use vstd::seq_lib::{to_multiset_build, to_multiset_insert};

use crate::graph::{exposing_paths, sorted_strict, Graph};
use crate::model::{findings_view, line_key, Finding, Note, Severity};
use crate::rules::{run, run_spec};
use crate::text::{
    decimal, decimal_string, has_prefix, lemma_seq_lt_asym, lemma_seq_lt_irreflexive,
    lemma_seq_lt_total, lemma_seq_lt_trans, seq_lt, str_eq, str_lt, str_starts_with,
};

verus! {

// ---------------------------------------------------------------------------------------------
// Deterministic order: path -> line -> rule_id
// ---------------------------------------------------------------------------------------------

/// `a` sorts strictly before `b`: by path, then line, then rule id.
pub open spec fn finding_lt(a: Finding, b: Finding) -> bool {
    ||| seq_lt(a.path@, b.path@)
    ||| (a.path@ == b.path@ && line_key(a) < line_key(b))
    ||| (a.path@ == b.path@ && line_key(a) == line_key(b) && seq_lt(a.rule_id@, b.rule_id@))
}

/// Two findings have the same sort key.
pub open spec fn same_key(a: Finding, b: Finding) -> bool {
    a.path@ == b.path@ && line_key(a) == line_key(b) && a.rule_id@ == b.rule_id@
}

/// The findings of `s` with the same sort key as `x`, in order.
pub open spec fn key_class(s: Seq<Finding>, x: Finding) -> Seq<Finding> {
    s.filter(|g: Finding| same_key(g, x))
}

/// Sorted by (path, line, rule_id).
pub open spec fn sorted_findings(s: Seq<Finding>) -> bool {
    forall|i: int, j: int| 0 <= i < j < s.len() ==> !finding_lt(#[trigger] s[j], #[trigger] s[i])
}

pub proof fn lemma_finding_order(a: Finding, b: Finding, c: Finding)
    ensures
        !finding_lt(a, a),
        finding_lt(a, b) ==> !finding_lt(b, a),
        finding_lt(a, b) || finding_lt(b, a) || same_key(a, b),
        finding_lt(a, b) && finding_lt(b, c) ==> finding_lt(a, c),
        !finding_lt(b, a) && !finding_lt(c, b) ==> !finding_lt(c, a),
{
    lemma_seq_lt_irreflexive(a.path@);
    lemma_seq_lt_irreflexive(a.rule_id@);
    lemma_seq_lt_asym(a.path@, b.path@);
    lemma_seq_lt_asym(a.rule_id@, b.rule_id@);
    lemma_seq_lt_total(a.path@, b.path@);
    lemma_seq_lt_total(a.rule_id@, b.rule_id@);
    lemma_seq_lt_total(b.path@, c.path@);
    lemma_seq_lt_total(b.rule_id@, c.rule_id@);
    lemma_seq_lt_total(a.path@, c.path@);
    lemma_seq_lt_total(a.rule_id@, c.rule_id@);
    lemma_seq_lt_asym(a.path@, c.path@);
    lemma_seq_lt_asym(a.rule_id@, c.rule_id@);
    lemma_seq_lt_asym(b.path@, c.path@);
    lemma_seq_lt_asym(b.rule_id@, c.rule_id@);
    if seq_lt(a.path@, b.path@) && seq_lt(b.path@, c.path@) {
        lemma_seq_lt_trans(a.path@, b.path@, c.path@);
    }
    if seq_lt(a.rule_id@, b.rule_id@) && seq_lt(b.rule_id@, c.rule_id@) {
        lemma_seq_lt_trans(a.rule_id@, b.rule_id@, c.rule_id@);
    }
    if seq_lt(c.path@, a.path@) && seq_lt(a.path@, b.path@) {
        lemma_seq_lt_trans(c.path@, a.path@, b.path@);
    }
    if seq_lt(b.path@, c.path@) && seq_lt(c.path@, a.path@) {
        lemma_seq_lt_trans(b.path@, c.path@, a.path@);
    }
    if seq_lt(c.rule_id@, a.rule_id@) && seq_lt(a.rule_id@, b.rule_id@) {
        lemma_seq_lt_trans(c.rule_id@, a.rule_id@, b.rule_id@);
    }
    if seq_lt(b.rule_id@, c.rule_id@) && seq_lt(c.rule_id@, a.rule_id@) {
        lemma_seq_lt_trans(b.rule_id@, c.rule_id@, a.rule_id@);
    }
}

/// The key class of a single finding.
pub proof fn lemma_key_class_single(f: Finding, x: Finding)
    ensures
        key_class(seq![f], x) == if same_key(f, x) {
            seq![f]
        } else {
            Seq::empty()
        },
{
    reveal_with_fuel(Seq::filter, 2);
    assert(seq![f].drop_last() =~= Seq::<Finding>::empty());
    assert(seq![f].last() == f);
    if same_key(f, x) {
        assert(Seq::<Finding>::empty().push(f) =~= seq![f]);
    }
}

/// No finding strictly before `f` shares a key class with it.
proof fn lemma_key_class_before(a: Seq<Finding>, f: Finding, x: Finding)
    requires
        forall|k: int| 0 <= k < a.len() ==> finding_lt(#[trigger] a[k], f),
        same_key(f, x),
    ensures
        key_class(a, x) == Seq::<Finding>::empty(),
{
    let pred = |g: Finding| same_key(g, x);
    if a.filter(pred).len() > 0 {
        let g = a.filter(pred)[0];
        a.lemma_filter_pred(pred, 0);
        assert(a.filter(pred).contains(g));
        a.lemma_filter_contains_rev(pred, g);
        let k = choose|k: int| 0 <= k < a.len() && a[k] == g;
        assert(finding_lt(a[k], f));
        lemma_seq_lt_irreflexive(f.path@);
        lemma_seq_lt_irreflexive(f.rule_id@);
        assert(false);
    }
    assert(a.filter(pred) =~= Seq::<Finding>::empty());
}

/// Inserting `f` after every finding strictly before it adds `f` to the front of its key class.
proof fn lemma_key_class_insert(s0: Seq<Finding>, p: int, f: Finding, tail: Seq<Finding>)
    requires
        0 <= p <= s0.len(),
        forall|k: int| 0 <= k < p ==> finding_lt(#[trigger] s0[k], f),
        forall|x: Finding| #[trigger] key_class(s0, x) == key_class(tail, x),
    ensures
        forall|x: Finding| #[trigger] key_class(s0.insert(p, f), x) == key_class(seq![f] + tail, x),
{
    assert forall|x: Finding| #[trigger] key_class(s0.insert(p, f), x) == key_class(
        seq![f] + tail,
        x,
    ) by {
        let pred = |g: Finding| same_key(g, x);
        let a = s0.take(p);
        let b = s0.skip(p);
        assert(s0.insert(p, f) =~= a + (seq![f] + b));
        assert(s0 =~= a + b);
        Seq::filter_distributes_over_add(a, seq![f] + b, pred);
        Seq::filter_distributes_over_add(seq![f], b, pred);
        Seq::filter_distributes_over_add(a, b, pred);
        Seq::filter_distributes_over_add(seq![f], tail, pred);
        lemma_key_class_single(f, x);
        assert(key_class(s0, x) == key_class(a, x) + key_class(b, x));
        assert(key_class(tail, x) == key_class(s0, x));
        if same_key(f, x) {
            assert forall|k: int| 0 <= k < a.len() implies finding_lt(#[trigger] a[k], f) by {
                assert(a[k] == s0[k]);
            }
            lemma_key_class_before(a, f, x);
            assert(key_class(a, x) + (key_class(seq![f], x) + key_class(b, x)) =~= key_class(
                seq![f],
                x,
            ) + (key_class(a, x) + key_class(b, x)));
        } else {
            assert(key_class(a, x) + (key_class(seq![f], x) + key_class(b, x)) =~= key_class(
                seq![f],
                x,
            ) + (key_class(a, x) + key_class(b, x)));
        }
    }
}

proof fn lemma_empty_multiset(s: Seq<Finding>)
    requires
        s.len() == 0,
    ensures
        s.to_multiset() =~= Multiset::<Finding>::empty(),
{
    broadcast use vstd::seq_lib::group_to_multiset_ensures;
    broadcast use vstd::multiset::lemma_multiset_empty_len;

    assert(s.to_multiset().len() == 0);
}

fn finding_lt_exec(a: &Finding, b: &Finding) -> (r: bool)
    ensures
        r == finding_lt(*a, *b),
{
    let (pa, la, ra) = a.sort_key();
    let (pb, lb, rb) = b.sort_key();
    if str_lt(pa, pb) {
        return true;
    }
    if !str_eq(pa, pb) {
        return false;
    }
    if la != lb {
        return la < lb;
    }
    str_lt(ra, rb)
}

// ---------------------------------------------------------------------------------------------
// Counting and summaries
// ---------------------------------------------------------------------------------------------

/// Number of findings of severity `sev` among `fs[..n]`.
pub open spec fn count_sev(fs: Seq<Finding>, sev: Severity, n: int) -> nat
    decreases n,
{
    if n <= 0 {
        0
    } else if fs[n - 1].severity == sev {
        count_sev(fs, sev, n - 1) + 1
    } else {
        count_sev(fs, sev, n - 1)
    }
}

proof fn lemma_count_sev_bound(fs: Seq<Finding>, sev: Severity, n: int)
    requires
        0 <= n,
    ensures
        count_sev(fs, sev, n) <= n,
    decreases n,
{
    if n > 0 {
        lemma_count_sev_bound(fs, sev, n - 1);
    }
}

/// `{:?}` of a severity.
pub open spec fn severity_debug(s: Severity) -> Seq<char> {
    match s {
        Severity::Info => "Info"@,
        Severity::Warn => "Warn"@,
        Severity::Error => "Error"@,
    }
}

fn severity_debug_exec(s: Severity) -> (r: &'static str)
    ensures
        r@ == severity_debug(s),
{
    match s {
        Severity::Info => "Info",
        Severity::Warn => "Warn",
        Severity::Error => "Error",
    }
}

/// One summary line: `  [Severity] path:line message`.
pub open spec fn summary_line(f: Finding) -> Seq<char> {
    "  ["@ + severity_debug(f.severity) + "] "@ + f.path@ + ":"@ + decimal(line_key(f) as nat)
        + " "@ + f.message@ + "\n"@
}

/// The summary lines of the non-info findings among `fs[..n]`.
pub open spec fn summary_lines(fs: Seq<Finding>, n: int) -> Seq<char>
    decreases n,
{
    if n <= 0 {
        Seq::empty()
    } else if fs[n - 1].severity != Severity::Info {
        summary_lines(fs, n - 1) + summary_line(fs[n - 1])
    } else {
        summary_lines(fs, n - 1)
    }
}

/// A human summary: a count line, then every non-info finding (info is hidden by default).
pub open spec fn summary_spec(fs: Seq<Finding>) -> Seq<char> {
    let n = fs.len() as int;
    decimal(n as nat) + " findings: "@ + decimal(count_sev(fs, Severity::Error, n)) + " error, "@
        + decimal(count_sev(fs, Severity::Warn, n)) + " warn, "@ + decimal(
        count_sev(fs, Severity::Info, n),
    ) + " info\n"@ + summary_lines(fs, n)
}

/// The result of one check: findings (deterministically sorted once [`Report::sort`] ran).
#[derive(Debug, Default)]
pub struct Report {
    pub findings: Vec<Finding>,
}

impl Report {
    /// Deterministic sort (path -> line -> rule_id), stable: findings with the same key keep
    /// their relative order. Always call before emit.
    pub fn sort(&mut self)
        ensures
            sorted_findings(final(self).findings@),
            final(self).findings@.to_multiset() == old(self).findings@.to_multiset(),
            forall|x: Finding| #[trigger] key_class(final(self).findings@, x) == key_class(
                old(self).findings@,
                x,
            ),
    {
        let mut rest: Vec<Finding> = Vec::new();
        std::mem::swap(&mut rest, &mut self.findings);
        let ghost orig = rest@;
        let mut sorted: Vec<Finding> = Vec::new();
        proof {
            broadcast use vstd::multiset::group_multiset_axioms;

            lemma_empty_multiset(sorted@);
            assert(rest@.to_multiset().add(sorted@.to_multiset()) =~= orig.to_multiset());
        }
        assert(orig.skip(orig.len() as int) =~= Seq::<Finding>::empty());
        proof {
            assert forall|x: Finding| #[trigger] key_class(sorted@, x) == key_class(
                orig.skip(rest@.len() as int),
                x,
            ) by {
                assert(sorted@ =~= Seq::<Finding>::empty());
                assert(key_class(sorted@, x) =~= Seq::<Finding>::empty());
                assert(key_class(orig.skip(rest@.len() as int), x) =~= Seq::<Finding>::empty());
            }
        }
        while rest.len() > 0
            invariant
                sorted_findings(sorted@),
                rest@.to_multiset().add(sorted@.to_multiset()) == orig.to_multiset(),
                rest@ == orig.take(rest@.len() as int),
                rest@.len() <= orig.len(),
                forall|x: Finding| #[trigger] key_class(sorted@, x) == key_class(
                    orig.skip(rest@.len() as int),
                    x,
                ),
            decreases rest.len(),
        {
            let ghost before = rest@;
            let ghost m = rest@.len() as int;
            let f = rest.pop().unwrap();
            proof {
                assert(before =~= rest@.push(f));
                to_multiset_build(rest@, f);
                assert(rest@ =~= orig.take(m - 1));
                assert(f == orig[m - 1]);
                assert(orig.skip(m - 1) =~= seq![f] + orig.skip(m));
            }
            let mut p: usize = 0;
            while p < sorted.len() && finding_lt_exec(&sorted[p], &f)
                invariant
                    p <= sorted.len(),
                    forall|k: int| 0 <= k < p ==> finding_lt(#[trigger] sorted@[k], f),
                decreases sorted.len() - p,
            {
                p += 1;
            }
            let ghost s0 = sorted@;
            sorted.insert(p, f);
            proof {
                lemma_key_class_insert(s0, p as int, f, orig.skip(m));
                to_multiset_insert(s0, p as int, f);
                broadcast use vstd::multiset::group_multiset_axioms;

                assert(rest@.to_multiset().add(sorted@.to_multiset()) =~= orig.to_multiset());
                let s = sorted@;
                assert(s =~= s0.insert(p as int, f));
                assert forall|i: int, j: int| 0 <= i < j < s.len() implies !finding_lt(
                    #[trigger] s[j],
                    #[trigger] s[i],
                ) by {
                    if j < p {
                        assert(s[i] == s0[i] && s[j] == s0[j]);
                    } else if j == p {
                        assert(s[i] == s0[i]);
                        lemma_finding_order(s0[i], f, f);
                    } else if i == p {
                        assert(s[j] == s0[j - 1]);
                        if j - 1 > p {
                            assert(!finding_lt(s0[j - 1], s0[p as int]));
                        }
                        lemma_finding_order(f, s0[p as int], s0[j - 1]);
                    } else if i < p {
                        assert(s[i] == s0[i] && s[j] == s0[j - 1]);
                    } else {
                        assert(s[i] == s0[i - 1] && s[j] == s0[j - 1]);
                    }
                }
            }
        }
        proof {
            broadcast use vstd::multiset::group_multiset_axioms;

            assert(rest@ =~= Seq::<Finding>::empty());
            lemma_empty_multiset(rest@);
            assert(sorted@.to_multiset() =~= orig.to_multiset());
            assert(orig.skip(0) =~= orig);
            assert(forall|x: Finding| #[trigger] key_class(sorted@, x) == key_class(orig, x));
        }
        self.findings = sorted;
    }

    /// Number of findings of severity `sev`.
    pub fn count(&self, sev: Severity) -> (r: usize)
        ensures
            r == count_sev(self.findings@, sev, self.findings@.len() as int),
    {
        let mut c: usize = 0;
        let mut i: usize = 0;
        while i < self.findings.len()
            invariant
                i <= self.findings.len(),
                c == count_sev(self.findings@, sev, i as int),
                c <= i,
            decreases self.findings.len() - i,
        {
            if self.findings[i].severity == sev {
                c += 1;
            }
            i += 1;
        }
        c
    }

    /// Whether any finding reaches the deny threshold (used for gating).
    pub fn has_at_least(&self, deny: Severity) -> (r: bool)
        ensures
            r == exists|i: int|
                0 <= i < self.findings@.len() && (#[trigger] self.findings@[i]).severity.rank()
                    >= deny.rank(),
    {
        let mut i: usize = 0;
        while i < self.findings.len()
            invariant
                i <= self.findings.len(),
                forall|j: int|
                    0 <= j < i ==> (#[trigger] self.findings@[j]).severity.rank() < deny.rank(),
            decreases self.findings.len() - i,
        {
            if self.findings[i].severity.at_least(&deny) {
                return true;
            }
            i += 1;
        }
        false
    }

    /// A human summary: a count line, then every non-info finding (info is hidden by default).
    pub fn summary(&self) -> (s: String)
        ensures
            s@ == summary_spec(self.findings@),
    {
        let fs = &self.findings;
        let n = fs.len();
        let mut s = decimal_string(n);
        s.append(" findings: ");
        s.append(decimal_string(self.count(Severity::Error)).as_str());
        s.append(" error, ");
        s.append(decimal_string(self.count(Severity::Warn)).as_str());
        s.append(" warn, ");
        s.append(decimal_string(self.count(Severity::Info)).as_str());
        s.append(" info\n");
        let ghost head = s@;
        let mut i: usize = 0;
        while i < n
            invariant
                i <= n == fs@.len(),
                s@ == head + summary_lines(fs@, i as int),
            decreases n - i,
        {
            let f = &fs[i];
            if f.severity != Severity::Info {
                let line = match f.line {
                    Some(l) => l,
                    None => 0,
                };
                let ghost before = s@;
                s.append("  [");
                s.append(severity_debug_exec(f.severity));
                s.append("] ");
                s.append(f.path.as_str());
                s.append(":");
                s.append(decimal_string(line).as_str());
                s.append(" ");
                s.append(f.message.as_str());
                s.append("\n");
                assert(s@ =~= before + summary_line(*f));
            }
            i += 1;
        }
        s
    }
}

// ---------------------------------------------------------------------------------------------
// The check
// ---------------------------------------------------------------------------------------------

/// `s` with every `\` replaced by `/`.
pub open spec fn forward_slashes(s: Seq<char>) -> Seq<char> {
    s.map_values(|c: char| if c == '\\' { '/' } else { c })
}

/// Whether a finding at `path` is reported: outside `System/` unless `all`, and, when path
/// filters are given, equal to one of them or under one of them as a directory.
pub open spec fn in_scope(path: Seq<char>, wanted: Seq<Seq<char>>, all: bool) -> bool {
    &&& (all || !has_prefix(path, "System/"@))
    &&& (wanted.len() == 0 || exists|i: int|
        0 <= i < wanted.len() && (path == #[trigger] wanted[i] || has_prefix(
            path,
            wanted[i].push('/'),
        )))
}

/// Whether finding `f` is reported: its path is in scope, or (for a collision) one of its
/// members is, so a collision between a `System/` note and a knowledge note is kept.
pub open spec fn finding_in_scope(f: Finding, wanted: Seq<Seq<char>>, all: bool) -> bool {
    in_scope(f.path@, wanted, all) || exists|j: int|
        0 <= j < f.collision_members@.len() && in_scope(
            (#[trigger] f.collision_members@[j])@,
            wanted,
            all,
        )
}

/// The findings of `fs[..n]` that are in scope, in order.
pub open spec fn scoped(fs: Seq<Finding>, wanted: Seq<Seq<char>>, all: bool, n: int) -> Seq<
    Finding,
>
    decreases n,
{
    if n <= 0 {
        Seq::empty()
    } else if finding_in_scope(fs[n - 1], wanted, all) {
        scoped(fs, wanted, all, n - 1).push(fs[n - 1])
    } else {
        scoped(fs, wanted, all, n - 1)
    }
}

fn forward_slash_string(s: &str) -> (out: String)
    ensures
        out@ == forward_slashes(s@),
{
    let v = crate::text::chars_of(s);
    let mut w: Vec<char> = Vec::new();
    let mut i: usize = 0;
    while i < v.len()
        invariant
            i <= v.len(),
            w@ == forward_slashes(v@.take(i as int)),
        decreases v.len() - i,
    {
        w.push(if v[i] == '\\' { '/' } else { v[i] });
        i += 1;
        assert(w@ =~= forward_slashes(v@.take(i as int)));
    }
    assert(v@.take(v.len() as int) =~= v@);
    crate::text::string_of(w.as_slice())
}

fn path_in_scope(path: &str, wanted: &Vec<String>, all: bool) -> (r: bool)
    ensures
        r == in_scope(path@, crate::graph::views(wanted@), all),
{
    if !all && str_starts_with(path, "System/") {
        return false;
    }
    if wanted.len() == 0 {
        return true;
    }
    let ghost wv = crate::graph::views(wanted@);
    let mut i: usize = 0;
    while i < wanted.len()
        invariant
            i <= wanted.len(),
            wv == crate::graph::views(wanted@),
            all || !has_prefix(path@, "System/"@),
            wanted@.len() > 0,
            forall|j: int|
                0 <= j < i ==> !(path@ == #[trigger] wv[j] || has_prefix(path@, wv[j].push('/'))),
        decreases wanted.len() - i,
    {
        let w = &wanted[i];
        let mut dir = w.clone();
        crate::text::push_char(&mut dir, '/');
        if str_eq(path, w.as_str()) || str_starts_with(path, dir.as_str()) {
            assert(wv[i as int] == w@);
            return true;
        }
        i += 1;
    }
    false
}

fn finding_kept(f: &Finding, wanted: &Vec<String>, all: bool) -> (r: bool)
    ensures
        r == finding_in_scope(*f, crate::graph::views(wanted@), all),
{
    if path_in_scope(f.path.as_str(), wanted, all) {
        return true;
    }
    let mut j: usize = 0;
    while j < f.collision_members.len()
        invariant
            j <= f.collision_members.len(),
            forall|c: int|
                0 <= c < j ==> !in_scope(
                    (#[trigger] f.collision_members@[c])@,
                    crate::graph::views(wanted@),
                    all,
                ),
        decreases f.collision_members.len() - j,
    {
        if path_in_scope(f.collision_members[j].as_str(), wanted, all) {
            return true;
        }
        j += 1;
    }
    false
}

/// Whether `g` is the link graph of `notes` and `resources` (as [`Graph::build`] makes it).
pub open spec fn graph_of(g: Graph, notes: Seq<Note>, resources: Seq<String>) -> bool {
    &&& g.notes@ == notes
    &&& forall|k: Seq<char>| #[trigger] g.symbols.members_of(k).to_set() == exposing_paths(
        notes,
        resources,
        k,
    )
    &&& forall|k: Seq<char>| sorted_strict(#[trigger] g.symbols.members_of(k))
}

/// Scan a loaded vault for corpus-level findings. The graph is always built from every note and
/// resource; `paths` and `all` only filter which findings are reported (the default scope skips
/// `System/`, whose files cite reports and specs rather than live links). The result is sorted.
pub fn check(notes: Vec<Note>, resources: &[String], paths: &[String], all: bool) -> (report:
    Report)
    ensures
        exists|g: Graph, fs: Seq<Finding>|
            {
                &&& graph_of(g, notes@, resources@)
                &&& findings_view(fs) == run_spec(g)
                &&& report.findings@.to_multiset() == scoped(
                    fs,
                    paths@.map_values(|p: String| forward_slashes(p@)),
                    all,
                    fs.len() as int,
                ).to_multiset()
                &&& forall|x: Finding| #[trigger] key_class(report.findings@, x) == key_class(
                    scoped(
                        fs,
                        paths@.map_values(|p: String| forward_slashes(p@)),
                        all,
                        fs.len() as int,
                    ),
                    x,
                )
            },
        sorted_findings(report.findings@),
{
    let graph = Graph::build(notes, resources);
    let mut findings = run(&graph);
    let ghost fs = findings@;
    let mut wanted: Vec<String> = Vec::new();
    let mut i: usize = 0;
    while i < paths.len()
        invariant
            i <= paths.len(),
            crate::graph::views(wanted@) == paths@.map_values(|p: String| forward_slashes(p@)).take(
                i as int,
            ),
        decreases paths.len() - i,
    {
        let ghost prev = wanted@;
        let w = forward_slash_string(paths[i].as_str());
        wanted.push(w);
        i += 1;
        assert(crate::graph::views(wanted@) =~= crate::graph::views(prev).push(w@));
        assert(crate::graph::views(wanted@) =~= paths@.map_values(
            |p: String| forward_slashes(p@),
        ).take(i as int));
    }
    let ghost wv = paths@.map_values(|p: String| forward_slashes(p@));
    assert(wv.take(paths.len() as int) =~= wv);
    let mut kept: Vec<Finding> = Vec::new();
    assert(findings@ =~= fs.take(fs.len() as int));
    assert(scoped(fs, wv, all, fs.len() as int) + kept@ =~= scoped(fs, wv, all, fs.len() as int));
    while findings.len() > 0
        invariant
            findings@ == fs.take(findings@.len() as int),
            findings@.len() <= fs.len(),
            crate::graph::views(wanted@) == wv,
            scoped(fs, wv, all, findings@.len() as int) + kept@ == scoped(
                fs,
                wv,
                all,
                fs.len() as int,
            ),
        decreases findings.len(),
    {
        let ghost n = findings@.len() as int;
        let f = findings.pop().unwrap();
        proof {
            assert(findings@ =~= fs.take(n - 1));
            assert(f == fs[n - 1]);
        }
        let keep = finding_kept(&f, &wanted, all);
        let ghost k0 = kept@;
        if keep {
            kept.insert(0, f);
            assert(kept@ =~= seq![f] + k0);
            assert(scoped(fs, wv, all, n - 1) + kept@ =~= scoped(fs, wv, all, n) + k0);
        }
    }
    assert(scoped(fs, wv, all, 0) =~= Seq::<Finding>::empty());
    assert(kept@ =~= scoped(fs, wv, all, fs.len() as int));
    let mut report = Report { findings: kept };
    report.sort();
    report
}

/// Whether `report` holds a finding at or above what `deny` names. `error` and `warn` name a
/// severity (`warn` counts `Error` too); any other value is a rule id, matched by every finding
/// with that id.
pub fn report_has_deny(report: &Report, deny: Option<&str>) -> (r: bool)
    ensures
        r == match deny {
            Some(d) => if d@ == "error"@ {
                exists|i: int|
                    0 <= i < report.findings@.len() && (#[trigger] report.findings@[i]).severity
                        == Severity::Error
            } else if d@ == "warn"@ {
                exists|i: int|
                    0 <= i < report.findings@.len() && (#[trigger] report.findings@[i]).severity
                        != Severity::Info
            } else {
                exists|i: int|
                    0 <= i < report.findings@.len() && (#[trigger] report.findings@[i]).rule_id@
                        == d@
            },
            None => false,
        },
{
    match deny {
        Some(d) => {
            if str_eq(d, "error") {
                report.has_at_least(Severity::Error)
            } else if str_eq(d, "warn") {
                report.has_at_least(Severity::Warn)
            } else {
                let mut i: usize = 0;
                while i < report.findings.len()
                    invariant
                        i <= report.findings.len(),
                        deny == Some(d),
                        d@ != "error"@,
                        d@ != "warn"@,
                        forall|j: int|
                            0 <= j < i ==> (#[trigger] report.findings@[j]).rule_id@ != d@,
                    decreases report.findings.len() - i,
                {
                    if str_eq(report.findings[i].rule_id.as_str(), d) {
                        assert(report.findings@[i as int].rule_id@ == d@);
                        return true;
                    }
                    i += 1;
                }
                false
            }
        },
        None => false,
    }
}

} // verus!
