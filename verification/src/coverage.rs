//! Coverage report: per-domain concept counts and each concept's mount state.
//!
//! A concept is classified by the source type of its inbound edges, not by its own frontmatter. An
//! edge from a map (MOC / topic-map / source-map) means the concept is mounted; an edge only from a
//! lesson or another note means it is in the corpus but not yet on a map (pending_mount, advisory);
//! no inbound edge at all is a true orphan. Only the last is a real problem.

use vstd::prelude::*;

use crate::graph::{normalize_spec, Graph, Resolution};
use crate::model::Note;
use crate::text::{
    has_prefix, has_suffix, owned, seq_lt, sort_strings, sorted_le, str_eq, str_lt,
    str_starts_with, string_views, trim,
};
use crate::wikilink::{strip_target, strip_target_spec};

verus! {

/// Per-domain concept counts.
#[derive(Debug, Clone)]
pub struct DomainCoverage {
    pub domain: String,
    pub concepts: usize,
    pub mounted: usize,
    pub pending_mount: usize,
    pub orphan: usize,
}

/// The coverage report.
#[derive(Debug, Clone)]
pub struct Coverage {
    pub total_concepts: usize,
    pub domains: Vec<DomainCoverage>,
    /// Concepts reached only by a non-map edge, not yet mounted on a map (advisory).
    pub pending_mount: Vec<String>,
    /// Concepts with no inbound edge at all.
    pub orphans: Vec<String>,
}

/// Whether the optional string `o` is `s`.
pub open spec fn opt_is(o: Option<String>, s: Seq<char>) -> bool {
    o is Some && o->0@ == s
}

/// Whether a path is under `System/` (templates and specs, not knowledge content).
pub open spec fn in_system(p: Seq<char>) -> bool {
    has_prefix(p, "System/"@)
}

/// Whether a note is a map: an edge from it mounts its target.
pub open spec fn is_map_note(n: Note) -> bool {
    opt_is(n.note_type, "moc"@) || opt_is(n.note_type, "topic-map"@) || opt_is(
        n.note_type,
        "source-map"@,
    )
}

/// Whether a note is a concept in scope.
pub open spec fn is_concept(n: Note) -> bool {
    opt_is(n.note_type, "concept"@) && !in_system(n.path@)
}

/// A concept's domain (`(none)` without one).
pub open spec fn domain_key(n: Note) -> Seq<char> {
    match n.domain {
        Some(d) => d@,
        None => "(none)"@,
    }
}

/// The values whose targets are a note's outbound edges: body wikilink targets, then the
/// `based_on` and `related` values.
pub open spec fn edge_values(n: Note) -> Seq<Seq<char>> {
    n.wikilinks@.map_values(|w: crate::model::WikiLink| w.target@) + string_views(n.based_on@)
        + string_views(n.related@)
}

/// A value with one surrounding `[[...]]` removed (when both brackets are there).
pub open spec fn unwrap_brackets(t: Seq<char>) -> Seq<char> {
    if t.len() >= 4 && has_prefix(t, "[["@) && has_suffix(t, "]]"@) {
        t.subrange(2, t.len() - 2)
    } else {
        t
    }
}

/// The note paths a body-link or provenance value reaches. An ambiguous name contributes an edge
/// to every candidate, so an ambiguously-referenced concept is never miscounted as an orphan.
pub open spec fn value_targets(g: Graph, v: Seq<char>) -> Seq<Seq<char>> {
    match strip_target_spec(unwrap_brackets(trim(v))) {
        Some(t) => g.symbols.members_of(normalize_spec(t)),
        None => Seq::empty(),
    }
}

/// The targets of the first `m` edge values of `n`, concatenated.
pub open spec fn note_edges(g: Graph, n: Note, m: int) -> Seq<Seq<char>>
    decreases m,
{
    if m <= 0 {
        Seq::empty()
    } else {
        note_edges(g, n, m - 1) + value_targets(g, edge_values(n)[m - 1])
    }
}

/// The edge targets of the first `i` notes outside `System/` (only from maps when `maps_only`).
pub open spec fn edges_upto(g: Graph, i: int, maps_only: bool) -> Seq<Seq<char>>
    decreases i,
{
    if i <= 0 {
        Seq::empty()
    } else {
        let n = g.notes@[i - 1];
        let prev = edges_upto(g, i - 1, maps_only);
        if in_system(n.path@) || (maps_only && !is_map_note(n)) {
            prev
        } else {
            prev + note_edges(g, n, edge_values(n).len() as int)
        }
    }
}

/// Whether a map note links to `p`.
pub open spec fn mounted(g: Graph, p: Seq<char>) -> bool {
    edges_upto(g, g.notes@.len() as int, true).contains(p)
}

/// Whether any note outside `System/` links to `p`.
pub open spec fn referenced(g: Graph, p: Seq<char>) -> bool {
    edges_upto(g, g.notes@.len() as int, false).contains(p)
}

/// A concept's class: 0 mounted, 1 pending mount, 2 orphan.
pub open spec fn class_of(g: Graph, n: Note) -> int {
    if mounted(g, n.path@) {
        0
    } else if referenced(g, n.path@) {
        1
    } else {
        2
    }
}

/// Number of concepts among the first `k` notes of domain `d` (any domain when `d` is `None`)
/// and class `cls` (any class when `cls` is `None`).
pub open spec fn concept_count(g: Graph, d: Option<Seq<char>>, cls: Option<int>, k: int) -> nat
    decreases k,
{
    if k <= 0 {
        0
    } else {
        let n = g.notes@[k - 1];
        let prev = concept_count(g, d, cls, k - 1);
        if is_concept(n) && (d is None || d == Some(domain_key(n))) && (cls is None || cls == Some(
            class_of(g, n),
        )) {
            prev + 1
        } else {
            prev
        }
    }
}

/// Paths of the concepts of class `cls` among the first `k` notes, in note order.
pub open spec fn class_paths(g: Graph, cls: int, k: int) -> Seq<Seq<char>>
    decreases k,
{
    if k <= 0 {
        Seq::empty()
    } else {
        let n = g.notes@[k - 1];
        let prev = class_paths(g, cls, k - 1);
        if is_concept(n) && class_of(g, n) == cls {
            prev.push(n.path@)
        } else {
            prev
        }
    }
}

proof fn lemma_concept_count_bound(g: Graph, d: Option<Seq<char>>, cls: Option<int>, k: int)
    requires
        0 <= k,
    ensures
        concept_count(g, d, cls, k) <= k,
    decreases k,
{
    if k > 0 {
        lemma_concept_count_bound(g, d, cls, k - 1);
    }
}

/// What a coverage report over `g` holds.
pub open spec fn coverage_matches(c: Coverage, g: Graph) -> bool {
    let n = g.notes@.len() as int;
    let ds = c.domains@;
    &&& c.total_concepts == concept_count(g, None, None, n)
    &&& forall|i: int, j: int| 0 <= i < j < ds.len() ==> seq_lt(#[trigger] ds[i].domain@, #[trigger] ds[j].domain@)
    &&& forall|i: int|
        0 <= i < ds.len() ==> {
            let d = Some((#[trigger] ds[i]).domain@);
            &&& ds[i].concepts == concept_count(g, d, None, n)
            &&& ds[i].mounted == concept_count(g, d, Some(0), n)
            &&& ds[i].pending_mount == concept_count(g, d, Some(1), n)
            &&& ds[i].orphan == concept_count(g, d, Some(2), n)
            &&& ds[i].concepts > 0
        }
    &&& forall|j: int|
        0 <= j < n && is_concept(#[trigger] g.notes@[j]) ==> exists|i: int|
            0 <= i < ds.len() && ds[i].domain@ == domain_key(g.notes@[j])
    &&& sorted_le(string_views(c.pending_mount@))
    &&& string_views(c.pending_mount@).to_multiset() == class_paths(g, 1, n).to_multiset()
    &&& sorted_le(string_views(c.orphans@))
    &&& string_views(c.orphans@).to_multiset() == class_paths(g, 2, n).to_multiset()
}

/// Resolve a body-link or provenance value to the note paths it reaches. An ambiguous name
/// contributes an edge to every candidate, so an ambiguously-referenced concept is never
/// miscounted as a true orphan.
fn resolve_targets(graph: &Graph, value: &str) -> (out: Vec<String>)
    ensures
        string_views(out@) == value_targets(*graph, value@),
{
    let mut out: Vec<String> = Vec::new();
    let ghost before = string_views(out@);
    assert(before =~= Seq::<Seq<char>>::empty());
    let trimmed = crate::text::trim_str(value);
    let v = crate::text::chars_of(trimmed.as_str());
    let n = v.len();
    let open = ['[', '['];
    let close = [']', ']'];
    assert(open@ =~= "[["@) by {
        reveal_strlit("[[");
    }
    assert(close@ =~= "]]"@) by {
        reveal_strlit("]]");
    }
    let inner: String = if n >= 4 && crate::text::chars_starts_with(v.as_slice(), &open)
        && crate::text::chars_ends_with(v.as_slice(), &close) {
        crate::text::string_of_range(v.as_slice(), 2, n - 2)
    } else {
        crate::text::string_of(v.as_slice())
    };
    assert(inner@ == unwrap_brackets(trim(value@)));
    match strip_target(inner.as_str()) {
        None => {
            assert(string_views(out@) =~= before + Seq::<Seq<char>>::empty());
        },
        Some(target) => match graph.symbols.resolve(target.as_str()) {
            Resolution::One(p) => {
                out.push(owned(p));
                assert(string_views(out@) =~= before + value_targets(*graph, value@));
            },
            Resolution::Ambiguous(ms) => {
                let mut k: usize = 0;
                while k < ms.len()
                    invariant
                        k <= ms.len(),
                        string_views(out@) == before + string_views(ms@).take(k as int),
                    decreases ms.len() - k,
                {
                    let ghost prev = out@;
                    out.push(ms[k].clone());
                    k += 1;
                    assert(string_views(out@) =~= string_views(prev).push(ms@[k - 1]@));
                    assert(string_views(out@) =~= before + string_views(ms@).take(k as int));
                }
                assert(string_views(ms@).take(ms.len() as int) =~= string_views(ms@));
                assert(crate::graph::views(ms@) == string_views(ms@));
            },
            Resolution::Unresolved => {
                assert(string_views(out@) =~= before + value_targets(*graph, value@));
            },
        },
    }
    assert(string_views(out@) =~= value_targets(*graph, value@));
    out
}

/// Append the paths `value` reaches to `out`.
fn add_edges(graph: &Graph, value: &str, out: &mut Vec<String>)
    ensures
        string_views(final(out)@) == string_views(old(out)@) + value_targets(*graph, value@),
{
    let mut t = resolve_targets(graph, value);
    let ghost (o0, t0) = (out@, t@);
    out.append(&mut t);
    assert(out@ == o0 + t0);
    assert(string_views(out@) =~= string_views(o0) + string_views(t0));
}

/// Whether the list holds `p`.
fn holds(list: &Vec<String>, p: &str) -> (r: bool)
    ensures
        r == string_views(list@).contains(p@),
{
    let mut i: usize = 0;
    while i < list.len()
        invariant
            i <= list.len(),
            forall|j: int| 0 <= j < i ==> (#[trigger] list@[j])@ != p@,
        decreases list.len() - i,
    {
        if str_eq(list[i].as_str(), p) {
            assert(string_views(list@)[i as int] == p@);
            return true;
        }
        i += 1;
    }
    proof {
        if string_views(list@).contains(p@) {
            let j = choose|j: int| 0 <= j < list@.len() && string_views(list@)[j] == p@;
            assert(list@[j]@ == p@);
        }
    }
    false
}

fn opt_eq(o: &Option<String>, s: &str) -> (r: bool)
    ensures
        r == opt_is(*o, s@),
{
    match o {
        Some(v) => str_eq(v.as_str(), s),
        None => false,
    }
}

/// Every inbound edge target: from all notes outside `System/`, or only from maps.
fn collect_edges(graph: &Graph, maps_only: bool) -> (out: Vec<String>)
    ensures
        string_views(out@) == edges_upto(*graph, graph.notes@.len() as int, maps_only),
{
    let mut out: Vec<String> = Vec::new();
    let mut i: usize = 0;
    while i < graph.notes.len()
        invariant
            i <= graph.notes.len(),
            string_views(out@) == edges_upto(*graph, i as int, maps_only),
        decreases graph.notes.len() - i,
    {
        let note = &graph.notes[i];
        let is_map = opt_eq(&note.note_type, "moc") || opt_eq(&note.note_type, "topic-map")
            || opt_eq(&note.note_type, "source-map");
        if !str_starts_with(note.path.as_str(), "System/") && (!maps_only || is_map) {
            let ghost before = string_views(out@);
            let ghost vals = edge_values(*note);
            let ghost nw = note.wikilinks@.len() as int;
            let ghost nb = note.based_on@.len() as int;
            let mut j: usize = 0;
            while j < note.wikilinks.len()
                invariant
                    j <= note.wikilinks@.len(),
                    vals == edge_values(*note),
                    nw == note.wikilinks@.len(),
                    string_views(out@) == before + note_edges(*graph, *note, j as int),
                decreases note.wikilinks.len() - j,
            {
                assert(vals[j as int] == note.wikilinks@[j as int].target@);
                add_edges(graph, note.wikilinks[j].target.as_str(), &mut out);
                j += 1;
                assert(string_views(out@) =~= before + note_edges(*graph, *note, j as int));
            }
            let mut j: usize = 0;
            while j < note.based_on.len()
                invariant
                    j <= note.based_on@.len(),
                    vals == edge_values(*note),
                    nw == note.wikilinks@.len(),
                    nb == note.based_on@.len(),
                    string_views(out@) == before + note_edges(*graph, *note, nw + j),
                decreases note.based_on.len() - j,
            {
                assert(vals[nw + j] == note.based_on@[j as int]@);
                add_edges(graph, note.based_on[j].as_str(), &mut out);
                j += 1;
                assert(string_views(out@) =~= before + note_edges(*graph, *note, nw + j));
            }
            let mut j: usize = 0;
            while j < note.related.len()
                invariant
                    j <= note.related@.len(),
                    vals == edge_values(*note),
                    nw == note.wikilinks@.len(),
                    nb == note.based_on@.len(),
                    string_views(out@) == before + note_edges(*graph, *note, nw + nb + j),
                decreases note.related.len() - j,
            {
                assert(vals[nw + nb + j] == note.related@[j as int]@);
                add_edges(graph, note.related[j].as_str(), &mut out);
                j += 1;
                assert(string_views(out@) =~= before + note_edges(*graph, *note, nw + nb + j));
            }
        }
        i += 1;
    }
    out
}

/// The four counts of domain `d` among the first `k` notes: concepts, mounted, pending, orphan.
pub open spec fn quad(g: Graph, d: Seq<char>, k: int) -> (nat, nat, nat, nat) {
    (
        concept_count(g, Some(d), None, k),
        concept_count(g, Some(d), Some(0), k),
        concept_count(g, Some(d), Some(1), k),
        concept_count(g, Some(d), Some(2), k),
    )
}

/// Key-value tables here are vectors searched by key, not `HashMap`/`BTreeMap`: vstd specifies
/// those maps only for keys it gives a key model (`obeys_key_model`, `obeys_cmp`), which covers
/// integers and `bool` but not `String`, so a map keyed by names or paths could not be reasoned
/// about.
///
/// The counts table: rows keyed by strictly increasing domain names, each row the counts of its
/// domain over the first `k` notes, and every concept's domain among the rows.
pub open spec fn table_core(
    g: Graph,
    names: Seq<String>,
    counts: Seq<(usize, usize, usize, usize)>,
    k: int,
) -> bool {
    &&& names.len() == counts.len()
    &&& forall|a: int, b: int|
        0 <= a < b < names.len() ==> seq_lt(#[trigger] names[a]@, #[trigger] names[b]@)
    &&& forall|a: int|
        0 <= a < names.len() ==> {
            let q = quad(g, (#[trigger] names[a])@, k);
            &&& counts[a].0 == q.0
            &&& counts[a].1 == q.1
            &&& counts[a].2 == q.2
            &&& counts[a].3 == q.3
        }
    &&& forall|j: int|
        0 <= j < k && is_concept(#[trigger] g.notes@[j]) ==> exists|a: int|
            0 <= a < names.len() && names[a]@ == domain_key(g.notes@[j])
}

/// Every row other than `skip` counts at least one concept.
pub open spec fn rows_nonempty(counts: Seq<(usize, usize, usize, usize)>, skip: int) -> bool {
    forall|a: int| 0 <= a < counts.len() && a != skip ==> (#[trigger] counts[a]).0 > 0
}

/// The counts table over the first `k` notes, with no empty row.
pub open spec fn table_ok(
    g: Graph,
    names: Seq<String>,
    counts: Seq<(usize, usize, usize, usize)>,
    k: int,
) -> bool {
    table_core(g, names, counts, k) && rows_nonempty(counts, -1)
}

/// Find the row of `domain` in the table, inserting an all-zero row in sorted position when the
/// domain has none yet. The table stays correct over the first `i` notes.
fn find_or_insert_row(
    graph: &Graph,
    i: usize,
    names: &mut Vec<String>,
    counts: &mut Vec<(usize, usize, usize, usize)>,
    domain: &String,
) -> (p: usize)
    requires
        i <= graph.notes@.len(),
        table_ok(*graph, old(names)@, old(counts)@, i as int),
    ensures
        p < final(names)@.len(),
        final(names)@[p as int]@ == domain@,
        table_core(*graph, final(names)@, final(counts)@, i as int),
        rows_nonempty(final(counts)@, p as int),
{
    let mut p: usize = 0;
    while p < names.len() && str_lt(names[p].as_str(), domain.as_str())
        invariant
            p <= names@.len(),
            forall|k: int| 0 <= k < p ==> seq_lt(#[trigger] names@[k]@, domain@),
        decreases names.len() - p,
    {
        p += 1;
    }
    if p < names.len() && str_eq(names[p].as_str(), domain.as_str()) {
        return p;
    }
    let ghost old_names = names@;
    proof {
        if p < names@.len() {
            crate::text::lemma_seq_lt_total(names@[p as int]@, domain@);
        }
        assert forall|a: int| 0 <= a < old_names.len() implies (#[trigger] old_names[a])@ != domain@ by {
            crate::text::lemma_seq_lt_irreflexive(domain@);
            if a > p {
                crate::text::lemma_seq_lt_trans(domain@, old_names[p as int]@, old_names[a]@);
            }
        }
        assert forall|j: int|
            0 <= j < i && is_concept(#[trigger] graph.notes@[j]) implies domain_key(graph.notes@[j])
                != domain@ by {
            let a = choose|a: int|
                0 <= a < old_names.len() && old_names[a]@ == domain_key(graph.notes@[j]);
        }
        lemma_count_zero(*graph, domain@, i as int);
    }
    let ghost old_counts = counts@;
    names.insert(p, domain.clone());
    counts.insert(p, (0, 0, 0, 0));
    proof {
        let nn = names@;
        assert(nn =~= old_names.insert(p as int, *domain));
        assert forall|a: int| 0 <= a < counts@.len() && a != p implies (#[trigger] counts@[a]).0
            > 0 by {
            if a < p {
                assert(counts@[a] == old_counts[a]);
            } else {
                assert(counts@[a] == old_counts[a - 1]);
            }
        }
        assert forall|a: int| 0 <= a < nn.len() implies {
            let q = quad(*graph, (#[trigger] nn[a])@, i as int);
            &&& counts@[a].0 == q.0
            &&& counts@[a].1 == q.1
            &&& counts@[a].2 == q.2
            &&& counts@[a].3 == q.3
        } by {
            if a < p {
                assert(nn[a] == old_names[a] && counts@[a] == old_counts[a]);
            } else if a > p {
                assert(nn[a] == old_names[a - 1] && counts@[a] == old_counts[a - 1]);
            }
        }
        assert forall|a: int, b: int| 0 <= a < b < nn.len() implies seq_lt(
            #[trigger] nn[a]@,
            #[trigger] nn[b]@,
        ) by {
            if b < p {
                assert(nn[a] == old_names[a] && nn[b] == old_names[b]);
            } else if b == p {
                assert(nn[a] == old_names[a]);
            } else if a == p {
                assert(nn[b] == old_names[b - 1]);
                if b - 1 > p {
                    crate::text::lemma_seq_lt_trans(domain@, old_names[p as int]@, old_names[b - 1]@);
                }
            } else if a < p {
                assert(nn[a] == old_names[a] && nn[b] == old_names[b - 1]);
            } else {
                assert(nn[a] == old_names[a - 1] && nn[b] == old_names[b - 1]);
            }
        }
        assert forall|j: int|
            0 <= j < i && is_concept(#[trigger] graph.notes@[j]) implies exists|a: int|
                0 <= a < nn.len() && nn[a]@ == domain_key(graph.notes@[j]) by {
            let a = choose|a: int|
                0 <= a < old_names.len() && old_names[a]@ == domain_key(graph.notes@[j]);
            if a < p {
                assert(nn[a] == old_names[a]);
            } else {
                assert(nn[a + 1] == old_names[a]);
            }
        }
    }
    p
}

/// Count concept `i` (of domain `domain` and class `cls`) in the table.
fn count_concept(
    graph: &Graph,
    i: usize,
    names: &mut Vec<String>,
    counts: &mut Vec<(usize, usize, usize, usize)>,
    domain: &String,
    cls: u8,
)
    requires
        i < graph.notes@.len(),
        is_concept(graph.notes@[i as int]),
        domain@ == domain_key(graph.notes@[i as int]),
        cls as int == class_of(*graph, graph.notes@[i as int]),
        table_ok(*graph, old(names)@, old(counts)@, i as int),
    ensures
        table_ok(*graph, final(names)@, final(counts)@, i + 1),
{
    let p = find_or_insert_row(graph, i, names, counts, domain);
    let row = counts[p];
    let note_count = graph.notes.len();
    proof {
        let q = quad(*graph, names@[p as int]@, i as int);
        assert(row.0 == q.0 && row.1 == q.1 && row.2 == q.2 && row.3 == q.3);
        assert(i < note_count);
        lemma_concept_count_bound(*graph, Some(domain@), None, i as int);
        lemma_concept_count_bound(*graph, Some(domain@), Some(0), i as int);
        lemma_concept_count_bound(*graph, Some(domain@), Some(1), i as int);
        lemma_concept_count_bound(*graph, Some(domain@), Some(2), i as int);
    }
    let ghost mid = counts@;
    counts.set(
        p,
        (
            row.0 + 1,
            if cls == 0 { row.1 + 1 } else { row.1 },
            if cls == 1 { row.2 + 1 } else { row.2 },
            if cls == 2 { row.3 + 1 } else { row.3 },
        ),
    );
    proof {
        let nn = names@;
        let cc = counts@;
        assert forall|a: int|
            0 <= a < nn.len() implies {
                let q = quad(*graph, (#[trigger] nn[a])@, i + 1);
                &&& cc[a].0 == q.0
                &&& cc[a].1 == q.1
                &&& cc[a].2 == q.2
                &&& cc[a].3 == q.3
            } by {
            if a != p {
                if a < p {
                    assert(seq_lt(nn[a]@, nn[p as int]@));
                } else {
                    assert(seq_lt(nn[p as int]@, nn[a]@));
                }
                crate::text::lemma_seq_lt_irreflexive(domain@);
            }
        }
        assert forall|a: int| 0 <= a < cc.len() implies (#[trigger] cc[a]).0 > 0 by {
            if a != p {
                assert(cc[a] == mid[a]);
            }
        }
        assert forall|j: int|
            0 <= j < i + 1 && is_concept(#[trigger] graph.notes@[j]) implies exists|a: int|
                0 <= a < nn.len() && nn[a]@ == domain_key(graph.notes@[j]) by {
            if j == i {
                assert(nn[p as int]@ == domain_key(graph.notes@[j]));
            }
        }
    }
}

/// A note that is not a concept leaves the table unchanged.
proof fn lemma_skip_note(
    g: Graph,
    names: Seq<String>,
    counts: Seq<(usize, usize, usize, usize)>,
    i: int,
)
    requires
        0 <= i < g.notes@.len(),
        !is_concept(g.notes@[i]),
        table_ok(g, names, counts, i),
    ensures
        table_ok(g, names, counts, i + 1),
{
    assert forall|a: int| 0 <= a < names.len() implies quad(g, (#[trigger] names[a])@, i + 1)
        == quad(g, names[a]@, i) by {}
    assert forall|j: int|
        0 <= j < i + 1 && is_concept(#[trigger] g.notes@[j]) implies exists|a: int|
            0 <= a < names.len() && names[a]@ == domain_key(g.notes@[j]) by {
        assert(j < i);
    }
}

/// Compute coverage over the graph.
pub fn compute(graph: &Graph) -> (c: Coverage)
    ensures
        coverage_matches(c, *graph),
{
    let mapped = collect_edges(graph, true);
    let referenced_by = collect_edges(graph, false);
    let n = graph.notes.len();
    let mut names: Vec<String> = Vec::new();
    let mut counts: Vec<(usize, usize, usize, usize)> = Vec::new();
    let mut pending: Vec<String> = Vec::new();
    let mut orphans: Vec<String> = Vec::new();
    let mut total: usize = 0;
    let mut i: usize = 0;
    while i < n
        invariant
            i <= n == graph.notes@.len(),
            string_views(mapped@) == edges_upto(*graph, n as int, true),
            string_views(referenced_by@) == edges_upto(*graph, n as int, false),
            total == concept_count(*graph, None, None, i as int),
            table_ok(*graph, names@, counts@, i as int),
            string_views(pending@) == class_paths(*graph, 1, i as int),
            string_views(orphans@) == class_paths(*graph, 2, i as int),
        decreases n - i,
    {
        let note = &graph.notes[i];
        proof {
            lemma_concept_count_bound(*graph, None, None, i as int);
        }
        if opt_eq(&note.note_type, "concept") && !str_starts_with(note.path.as_str(), "System/") {
            total += 1;
            let domain: String = match &note.domain {
                Some(d) => d.clone(),
                None => owned("(none)"),
            };
            let cls: u8 = if holds(&mapped, note.path.as_str()) {
                0
            } else if holds(&referenced_by, note.path.as_str()) {
                1
            } else {
                2
            };
            count_concept(graph, i, &mut names, &mut counts, &domain, cls);
            if cls == 1 {
                pending.push(note.path.clone());
            } else if cls == 2 {
                orphans.push(note.path.clone());
            }
            assert(string_views(pending@) =~= class_paths(*graph, 1, i + 1));
            assert(string_views(orphans@) =~= class_paths(*graph, 2, i + 1));
        } else {
            proof {
                lemma_skip_note(*graph, names@, counts@, i as int);
            }
            assert(string_views(pending@) =~= class_paths(*graph, 1, i + 1));
            assert(string_views(orphans@) =~= class_paths(*graph, 2, i + 1));
        }
        i += 1;
    }
    let mut domains: Vec<DomainCoverage> = Vec::new();
    let mut k: usize = 0;
    while k < names.len()
        invariant
            k <= names.len(),
            names@.len() == counts@.len(),
            table_ok(*graph, names@, counts@, n as int),
            n == graph.notes@.len(),
            domains@.len() == k,
            forall|a: int|
                0 <= a < k ==> (#[trigger] domains@[a]).domain@ == names@[a]@
                    && domains@[a].concepts == counts@[a].0 && domains@[a].mounted == counts@[a].1
                    && domains@[a].pending_mount == counts@[a].2 && domains@[a].orphan
                    == counts@[a].3,
        decreases names.len() - k,
    {
        let row = counts[k];
        domains.push(
            DomainCoverage {
                domain: names[k].clone(),
                concepts: row.0,
                mounted: row.1,
                pending_mount: row.2,
                orphan: row.3,
            },
        );
        k += 1;
    }
    let c = Coverage {
        total_concepts: total,
        domains,
        pending_mount: sort_strings(pending),
        orphans: sort_strings(orphans),
    };
    proof {
        let ds = c.domains@;
        assert forall|j: int|
            0 <= j < n && is_concept(#[trigger] graph.notes@[j]) implies exists|a: int|
                0 <= a < ds.len() && ds[a].domain@ == domain_key(graph.notes@[j]) by {
            let a = choose|a: int|
                0 <= a < names@.len() && names@[a]@ == domain_key(graph.notes@[j]);
            assert(ds[a].domain@ == names@[a]@);
        }
    }
    c
}

/// A domain no concept among the first `k` notes has counts zero in every class.
proof fn lemma_count_zero(g: Graph, d: Seq<char>, k: int)
    requires
        forall|j: int| 0 <= j < k && is_concept(#[trigger] g.notes@[j]) ==> domain_key(g.notes@[j]) != d,
    ensures
        concept_count(g, Some(d), None, k) == 0,
        concept_count(g, Some(d), Some(0), k) == 0,
        concept_count(g, Some(d), Some(1), k) == 0,
        concept_count(g, Some(d), Some(2), k) == 0,
    decreases k,
{
    if k > 0 {
        lemma_count_zero(g, d, k - 1);
    }
}

} // verus!
