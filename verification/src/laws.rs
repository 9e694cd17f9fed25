//! Properties of the library as a whole: what resolution depends on, what never produces a
//! finding, how the counts of a report and of a coverage table add up.

use vstd::prelude::*;
use vstd::utf8::encode_utf8;

use crate::checks::{
    count_sev, finding_in_scope, finding_lt, graph_of, in_scope, key_class, lemma_finding_order,
    lemma_key_class_single, same_key, scoped, sorted_findings,
};
use crate::coverage::{
    class_paths, concept_count, coverage_matches, domain_key, edge_values, edges_upto, in_system,
    is_concept, is_map_note, mounted, note_edges, referenced, value_targets, Coverage,
};
use crate::diskref::{classify_spec, dir_of, external_spec, on_disk, resolve_spec};
use crate::existence::{alias_hits, hit_if, hits_upto, note_hits};
use crate::graph::{
    all_note_names, exposing_paths, filename_stem_spec, names_expose, normalize_spec,
    sorted_strict, views, Graph, SymbolTable,
};
use crate::model::{Finding, FindingV, Note, PathRef, Severity, WikiLink};
use crate::note::{fm_entries, fm_lookup, note_built, FmValueV, YamlValueV};
use crate::ranked::{has_key, lemma_sorted_unique, Ranked};
use crate::report::{
    board_matches, cite_count, cited_from, cites, count_in, debt, domain_of_spec, escape_md_spec,
    first_cite, folded_into, group_first, group_key, human_board_line, human_item_line,
    human_lev_line, human_section, human_spec, in_group, item_ok, leverage_matches, leverage_ok,
    markdown_spec, md_body, md_board_line, md_details, md_head, md_info_lines, md_item_line,
    md_lev_line, md_section, occurs, packed_matches, replace_all, section_ok, sections_matches,
    strictly_sorted, top5, BoardRow, Item, Leverage, Packed, Section,
};
use crate::rules::{
    alias_holders, alias_names, broken_spec, collision_findings_spec, collision_spec,
    collisions_from, key_order, lemma_sorted_strict_unique, link_finding, link_health_spec,
    note_findings, run_spec, sorted_list, title_owner,
};
use crate::schema::{
    check_spec, domain_folder_part, enum_check, enum_fields_part, head_part, knowledge_part,
    lesson_part, lint_spec, provenance_part, required_part, slug_part, structure_part,
    tag_findings, tags_part, unknown_keys, Schema,
};
use crate::text::{
    contains_seq, decimal, has_prefix, has_suffix, matches_at, seq_le, seq_lt, string_views,
};
use crate::wikilink::{
    backtick_path_spec, before_first, file_link_spec, path_refs_in, path_refs_upto,
    strip_target_spec, trim_end_backslashes, MdEventV,
};

verus! {

// ---------------------------------------------------------------------------------------------
// Resolution
// ---------------------------------------------------------------------------------------------

/// Titles are not resolution keys: two vaults whose notes agree on paths and aliases (and differ
/// in titles or any other frontmatter) resolve every name to the same files.
pub proof fn law_title_is_not_a_resolution_key(
    a: Seq<Note>,
    b: Seq<Note>,
    resources: Seq<String>,
    k: Seq<char>,
)
    requires
        a.len() == b.len(),
        forall|i: int|
            0 <= i < a.len() ==> (#[trigger] a[i]).path@ == b[i].path@ && views(a[i].aliases@)
                == views(b[i].aliases@),
    ensures
        exposing_paths(a, resources, k) == exposing_paths(b, resources, k),
{
    assert forall|i: int| 0 <= i < a.len() implies all_note_names(#[trigger] a[i])
        == all_note_names(b[i]) by {}
    assert forall|p: Seq<char>| exposing_paths(a, resources, k).contains(p) implies exposing_paths(
        b,
        resources,
        k,
    ).contains(p) by {
        if exists|i: int|
            0 <= i < a.len() && #[trigger] a[i].path@ == p && names_expose(all_note_names(a[i]), k) {
            let i = choose|i: int|
                0 <= i < a.len() && #[trigger] a[i].path@ == p && names_expose(
                    all_note_names(a[i]),
                    k,
                );
            assert(all_note_names(a[i]) == all_note_names(b[i]));
            assert(b[i].path@ == p);
        }
    }
    assert forall|p: Seq<char>| exposing_paths(b, resources, k).contains(p) implies exposing_paths(
        a,
        resources,
        k,
    ).contains(p) by {
        if exists|i: int|
            0 <= i < b.len() && #[trigger] b[i].path@ == p && names_expose(all_note_names(b[i]), k) {
            let i = choose|i: int|
                0 <= i < b.len() && #[trigger] b[i].path@ == p && names_expose(
                    all_note_names(b[i]),
                    k,
                );
            assert(all_note_names(a[i]) == all_note_names(b[i]));
            assert(a[i].path@ == p);
        }
    }
    assert(exposing_paths(a, resources, k) =~= exposing_paths(b, resources, k));
}

/// A link naming a note's filename (in any case or Unicode normal form) reaches that note.
pub proof fn law_note_resolves_by_filename(notes: Seq<Note>, resources: Seq<String>, i: int)
    requires
        0 <= i < notes.len(),
        normalize_spec(filename_stem_spec(notes[i].path@)).len() > 0,
    ensures
        exposing_paths(notes, resources, normalize_spec(filename_stem_spec(notes[i].path@))).contains(
            notes[i].path@,
        ),
{
    let names = all_note_names(notes[i]);
    assert(names[0] == filename_stem_spec(notes[i].path@));
    assert(names_expose(names, normalize_spec(filename_stem_spec(notes[i].path@))));
}

/// A link naming one of a note's aliases reaches that note.
pub proof fn law_note_resolves_by_alias(notes: Seq<Note>, resources: Seq<String>, i: int, j: int)
    requires
        0 <= i < notes.len(),
        0 <= j < notes[i].aliases@.len(),
        normalize_spec(notes[i].aliases@[j]@).len() > 0,
    ensures
        exposing_paths(notes, resources, normalize_spec(notes[i].aliases@[j]@)).contains(
            notes[i].path@,
        ),
{
    let names = all_note_names(notes[i]);
    assert(names[4 + j] == notes[i].aliases@[j]@);
    assert(names_expose(names, normalize_spec(notes[i].aliases@[j]@)));
}

/// Adding notes or files to a vault, in any order, never takes a file away from a name: a vault
/// holding every note and file of another exposes each name through at least the same files.
pub proof fn law_more_files_never_remove_a_member(
    notes: Seq<Note>,
    resources: Seq<String>,
    bigger_notes: Seq<Note>,
    bigger_resources: Seq<String>,
    k: Seq<char>,
)
    requires
        forall|i: int| 0 <= i < notes.len() ==> bigger_notes.contains(#[trigger] notes[i]),
        forall|j: int| 0 <= j < resources.len() ==> bigger_resources.contains(#[trigger] resources[j]),
    ensures
        exposing_paths(notes, resources, k).subset_of(
            exposing_paths(bigger_notes, bigger_resources, k),
        ),
{
    let big = exposing_paths(bigger_notes, bigger_resources, k);
    assert forall|p: Seq<char>| exposing_paths(notes, resources, k).contains(p) implies big.contains(
        p,
    ) by {
        if exists|i: int|
            0 <= i < notes.len() && #[trigger] notes[i].path@ == p && names_expose(
                all_note_names(notes[i]),
                k,
            ) {
            let i = choose|i: int|
                0 <= i < notes.len() && #[trigger] notes[i].path@ == p && names_expose(
                    all_note_names(notes[i]),
                    k,
                );
            assert(bigger_notes.contains(notes[i]));
            let w = choose|w: int| 0 <= w < bigger_notes.len() && bigger_notes[w] == notes[i];
            assert(bigger_notes[w].path@ == p);
        } else {
            let j = choose|j: int|
                0 <= j < resources.len() && #[trigger] resources[j]@ == p && names_expose(
                    crate::graph::resource_key_names(resources[j]@),
                    k,
                );
            assert(bigger_resources.contains(resources[j]));
            let w = choose|w: int|
                0 <= w < bigger_resources.len() && bigger_resources[w] == resources[j];
            assert(bigger_resources[w]@ == p);
        }
    }
}

/// The order of the notes and files does not matter: two link graphs over the same notes and
/// files, listed in any order, resolve every name to the same sorted list of files.
pub proof fn law_file_order_does_not_matter(
    g1: Graph,
    notes1: Seq<Note>,
    resources1: Seq<String>,
    g2: Graph,
    notes2: Seq<Note>,
    resources2: Seq<String>,
    k: Seq<char>,
)
    requires
        graph_of(g1, notes1, resources1),
        graph_of(g2, notes2, resources2),
        notes1.to_set() == notes2.to_set(),
        resources1.to_set() == resources2.to_set(),
    ensures
        g1.symbols.members_of(k) == g2.symbols.members_of(k),
{
    assert forall|i: int| 0 <= i < notes1.len() implies notes2.contains(#[trigger] notes1[i]) by {
        assert(notes1.to_set().contains(notes1[i]));
    }
    assert forall|i: int| 0 <= i < notes2.len() implies notes1.contains(#[trigger] notes2[i]) by {
        assert(notes2.to_set().contains(notes2[i]));
    }
    assert forall|j: int| 0 <= j < resources1.len() implies resources2.contains(
        #[trigger] resources1[j],
    ) by {
        assert(resources1.to_set().contains(resources1[j]));
    }
    assert forall|j: int| 0 <= j < resources2.len() implies resources1.contains(
        #[trigger] resources2[j],
    ) by {
        assert(resources2.to_set().contains(resources2[j]));
    }
    law_more_files_never_remove_a_member(notes1, resources1, notes2, resources2, k);
    law_more_files_never_remove_a_member(notes2, resources2, notes1, resources1, k);
    assert(exposing_paths(notes1, resources1, k) =~= exposing_paths(notes2, resources2, k));
    assert(g1.symbols.members_of(k).to_set() == g2.symbols.members_of(k).to_set());
    lemma_sorted_strict_unique(g1.symbols.members_of(k), g2.symbols.members_of(k));
}

/// Resolution goes by the normalized name: targets with the same normal form (trimmed, NFC,
/// lowercased) resolve to the same files.
pub proof fn law_resolution_by_normal_form(t: SymbolTable, a: Seq<char>, b: Seq<char>)
    requires
        normalize_spec(a) == normalize_spec(b),
    ensures
        t.members_of(normalize_spec(a)) == t.members_of(normalize_spec(b)),
{
}

// ---------------------------------------------------------------------------------------------
// Link findings
// ---------------------------------------------------------------------------------------------

/// A link that resolves (to one file or to several) never produces a finding; one that resolves
/// to nothing always produces one.
pub proof fn law_link_reported_iff_unresolved(g: Graph, src: Note, w: WikiLink)
    ensures
        (link_finding(g, src, w) is None) == (g.symbols.members_of(normalize_spec(w.target@)).len()
            > 0),
{
}

/// An unresolved link under a gap heading that names no title is a planned forward-reference:
/// `Info`, never `Warn`.
pub proof fn law_planned_link_is_info(g: Graph, src: Note, w: WikiLink)
    requires
        w.under_gap_heading,
        g.symbols.members_of(normalize_spec(w.target@)).len() == 0,
        title_owner(g.notes@, normalize_spec(w.target@), g.notes@.len() as int) is None,
    ensures
        link_finding(g, src, w) == Some(broken_spec(src.path@, w)),
        broken_spec(src.path@, w).severity == Severity::Info,
{
}

/// A finding's fingerprint does not depend on the line: the same broken link moved to another
/// line keeps its fingerprint.
pub proof fn law_fingerprint_ignores_line(src: Seq<char>, a: WikiLink, b: WikiLink)
    requires
        a.target@ == b.target@,
    ensures
        broken_spec(src, a).fingerprint == broken_spec(src, b).fingerprint,
{
}

// ---------------------------------------------------------------------------------------------
// Path references
// ---------------------------------------------------------------------------------------------

/// Never a false positive: a markdown link whose path escapes the vault root is reported as
/// external (`Info`), never as a dead link.
pub proof fn law_escaping_link_is_external(note: Note, pref: PathRef, disk: Seq<String>)
    requires
        !pref.code,
        resolve_spec(dir_of(note.path@), pref.target@) is None,
    ensures
        classify_spec(note, pref, disk) == Some(external_spec(note, pref)),
        external_spec(note, pref).severity == Severity::Info,
{
}

/// A reference whose note-relative path is a file on disk is never reported.
pub proof fn law_existing_file_is_silent(note: Note, pref: PathRef, disk: Seq<String>)
    requires
        on_disk(disk, resolve_spec(dir_of(note.path@), pref.target@)),
    ensures
        classify_spec(note, pref, disk) is None,
{
}

// ---------------------------------------------------------------------------------------------
// Reports and gating
// ---------------------------------------------------------------------------------------------

proof fn lemma_severity_counts(fs: Seq<Finding>, k: int)
    requires
        0 <= k <= fs.len(),
    ensures
        count_sev(fs, Severity::Error, k) + count_sev(fs, Severity::Warn, k) + count_sev(
            fs,
            Severity::Info,
            k,
        ) == k,
    decreases k,
{
    if k > 0 {
        lemma_severity_counts(fs, k - 1);
    }
}

/// Nothing is lost from a packed report: every `Info` finding is hidden and counted, so planned
/// plus external is exactly the number of `Info` findings.
pub proof fn law_hidden_counts_every_info(fs: Seq<Finding>, p: Packed)
    requires
        packed_matches(fs, p),
    ensures
        p.planned + p.external == count_sev(fs, Severity::Info, fs.len() as int),
        p.external <= p.planned + p.external,
{
    lemma_severity_counts(fs, fs.len() as int);
}

/// Gating is monotone: findings that reach a deny threshold reach every lower one.
pub proof fn law_gate_is_monotone(fs: Seq<Finding>, lo: Severity, hi: Severity)
    requires
        lo.rank() <= hi.rank(),
        exists|i: int| 0 <= i < fs.len() && (#[trigger] fs[i]).severity.rank() >= hi.rank(),
    ensures
        exists|i: int| 0 <= i < fs.len() && (#[trigger] fs[i]).severity.rank() >= lo.rank(),
{
    let i = choose|i: int| 0 <= i < fs.len() && (#[trigger] fs[i]).severity.rank() >= hi.rank();
    assert(fs[i].severity.rank() >= lo.rank());
}

// ---------------------------------------------------------------------------------------------
// Coverage
// ---------------------------------------------------------------------------------------------

proof fn lemma_classes_partition(g: Graph, d: Seq<char>, k: int)
    ensures
        concept_count(g, Some(d), Some(0), k) + concept_count(g, Some(d), Some(1), k)
            + concept_count(g, Some(d), Some(2), k) == concept_count(g, Some(d), None, k),
    decreases k,
{
    if k > 0 {
        lemma_classes_partition(g, d, k - 1);
    }
}

/// Each domain's concepts split exactly into mounted, pending mount and orphan.
pub proof fn law_coverage_classes_partition(c: Coverage, g: Graph, i: int)
    requires
        coverage_matches(c, g),
        0 <= i < c.domains@.len(),
    ensures
        c.domains@[i].mounted + c.domains@[i].pending_mount + c.domains@[i].orphan
            == c.domains@[i].concepts,
{
    lemma_classes_partition(g, c.domains@[i].domain@, g.notes@.len() as int);
}

proof fn lemma_note_edges_contain(g: Graph, m: Note, e: int, k: int, p: Seq<char>)
    requires
        0 <= e < k <= edge_values(m).len(),
        value_targets(g, edge_values(m)[e]).contains(p),
    ensures
        note_edges(g, m, k).contains(p),
    decreases k,
{
    let prev = note_edges(g, m, k - 1);
    let here = value_targets(g, edge_values(m)[k - 1]);
    if e == k - 1 {
        let w = choose|w: int| 0 <= w < here.len() && here[w] == p;
        assert((prev + here)[prev.len() + w] == p);
    } else {
        lemma_note_edges_contain(g, m, e, k - 1, p);
        let w = choose|w: int| 0 <= w < prev.len() && prev[w] == p;
        assert((prev + here)[w] == p);
    }
}

proof fn lemma_map_edges_contain(g: Graph, mi: int, k: int, p: Seq<char>)
    requires
        0 <= mi < k <= g.notes@.len(),
        !in_system(g.notes@[mi].path@),
        is_map_note(g.notes@[mi]),
        note_edges(g, g.notes@[mi], edge_values(g.notes@[mi]).len() as int).contains(p),
    ensures
        edges_upto(g, k, true).contains(p),
    decreases k,
{
    let prev = edges_upto(g, k - 1, true);
    if mi == k - 1 {
        let here = note_edges(g, g.notes@[mi], edge_values(g.notes@[mi]).len() as int);
        let w = choose|w: int| 0 <= w < here.len() && here[w] == p;
        assert((prev + here)[prev.len() + w] == p);
    } else {
        lemma_map_edges_contain(g, mi, k - 1, p);
        let w = choose|w: int| 0 <= w < prev.len() && prev[w] == p;
        let n = g.notes@[k - 1];
        if !(in_system(n.path@) || !is_map_note(n)) {
            let here = note_edges(g, n, edge_values(n).len() as int);
            assert((prev + here)[w] == p);
        }
    }
}

/// A concept linked from a map is mounted: when a note outside `System/` whose type is `moc`,
/// `topic-map` or `source-map` has a body link or provenance value reaching a concept, the concept
/// counts as mounted in its domain and is on neither the pending-mount nor the orphan list.
pub proof fn law_map_link_mounts_a_concept(c: Coverage, g: Graph, ci: int, mi: int, v: Seq<char>)
    requires
        coverage_matches(c, g),
        0 <= ci < g.notes@.len(),
        0 <= mi < g.notes@.len(),
        is_concept(g.notes@[ci]),
        !has_prefix(g.notes@[mi].path@, "System/"@),
        g.notes@[mi].note_type is Some,
        g.notes@[mi].note_type->0@ == "moc"@ || g.notes@[mi].note_type->0@ == "topic-map"@
            || g.notes@[mi].note_type->0@ == "source-map"@,
        (exists|w: int|
            0 <= w < g.notes@[mi].wikilinks@.len() && (#[trigger] g.notes@[mi].wikilinks@[w]).target@
                == v) || string_views(g.notes@[mi].based_on@).contains(v) || string_views(
            g.notes@[mi].related@,
        ).contains(v),
        value_targets(g, v).contains(g.notes@[ci].path@),
    ensures
        crate::coverage::class_of(g, g.notes@[ci]) == 0,
        !string_views(c.pending_mount@).contains(g.notes@[ci].path@),
        !string_views(c.orphans@).contains(g.notes@[ci].path@),
{
    broadcast use vstd::seq_lib::group_to_multiset_ensures;

    let n = g.notes@.len() as int;
    let p = g.notes@[ci].path@;
    let m = g.notes@[mi];
    assert(is_map_note(m));
    let lt = m.wikilinks@.map_values(|w: crate::model::WikiLink| w.target@);
    let bo = string_views(m.based_on@);
    let rl = string_views(m.related@);
    assert(edge_values(m) == lt + bo + rl);
    let e = if exists|w: int| 0 <= w < m.wikilinks@.len() && (#[trigger] m.wikilinks@[w]).target@ == v {
        let w = choose|w: int| 0 <= w < m.wikilinks@.len() && (#[trigger] m.wikilinks@[w]).target@ == v;
        assert(lt[w] == v);
        w
    } else if bo.contains(v) {
        let w = choose|w: int| 0 <= w < bo.len() && bo[w] == v;
        lt.len() + w
    } else {
        let w = choose|w: int| 0 <= w < rl.len() && rl[w] == v;
        lt.len() + bo.len() + w
    };
    assert(edge_values(m)[e] == v);
    lemma_note_edges_contain(g, m, e, edge_values(m).len() as int, p);
    lemma_map_edges_contain(g, mi, n, p);
    assert(mounted(g, p));
    lemma_class_paths(g, 1, n);
    lemma_class_paths(g, 2, n);
    if string_views(c.pending_mount@).contains(p) {
        assert(class_paths(g, 1, n).to_multiset().count(p) > 0);
        assert(class_paths(g, 1, n).contains(p));
    }
    if string_views(c.orphans@).contains(p) {
        assert(class_paths(g, 2, n).to_multiset().count(p) > 0);
        assert(class_paths(g, 2, n).contains(p));
    }
}

proof fn lemma_note_edges_source(g: Graph, m: Note, k: int, p: Seq<char>)
    requires
        0 <= k <= edge_values(m).len(),
        note_edges(g, m, k).contains(p),
    ensures
        exists|e: int| 0 <= e < k && #[trigger] value_targets(g, edge_values(m)[e]).contains(p),
    decreases k,
{
    let prev = note_edges(g, m, k - 1);
    let here = value_targets(g, edge_values(m)[k - 1]);
    let w = choose|w: int| 0 <= w < (prev + here).len() && (prev + here)[w] == p;
    if w < prev.len() {
        assert(prev[w] == p);
        lemma_note_edges_source(g, m, k - 1, p);
    } else {
        assert(here[w - prev.len()] == p);
        assert(value_targets(g, edge_values(m)[k - 1]).contains(p));
    }
}

proof fn lemma_map_edges_source(g: Graph, k: int, p: Seq<char>)
    requires
        0 <= k <= g.notes@.len(),
        edges_upto(g, k, true).contains(p),
    ensures
        exists|mi: int|
            0 <= mi < k && !in_system(g.notes@[mi].path@) && is_map_note(#[trigger] g.notes@[mi])
                && note_edges(g, g.notes@[mi], edge_values(g.notes@[mi]).len() as int).contains(p),
    decreases k,
{
    let n = g.notes@[k - 1];
    let prev = edges_upto(g, k - 1, true);
    if in_system(n.path@) || !is_map_note(n) {
        lemma_map_edges_source(g, k - 1, p);
    } else {
        let here = note_edges(g, n, edge_values(n).len() as int);
        let w = choose|w: int| 0 <= w < (prev + here).len() && (prev + here)[w] == p;
        if w < prev.len() {
            assert(prev[w] == p);
            lemma_map_edges_source(g, k - 1, p);
        } else {
            assert(here[w - prev.len()] == p);
            assert(here.contains(p));
        }
    }
}

/// Only a map mounts: a concept counts as mounted only when a note outside `System/` whose type is
/// `moc`, `topic-map` or `source-map` has a body link or provenance value reaching it.
pub proof fn law_only_maps_mount(g: Graph, ci: int)
    requires
        0 <= ci < g.notes@.len(),
        crate::coverage::class_of(g, g.notes@[ci]) == 0,
    ensures
        exists|mi: int, e: int|
            0 <= mi < g.notes@.len() && !has_prefix(g.notes@[mi].path@, "System/"@)
                && g.notes@[mi].note_type is Some && (g.notes@[mi].note_type->0@ == "moc"@
                || g.notes@[mi].note_type->0@ == "topic-map"@ || g.notes@[mi].note_type->0@
                == "source-map"@) && 0 <= e < edge_values(g.notes@[mi]).len() && #[trigger] value_targets(
                g,
                edge_values(g.notes@[mi])[e],
            ).contains(g.notes@[ci].path@),
{
    let p = g.notes@[ci].path@;
    let n = g.notes@.len() as int;
    assert(mounted(g, p));
    lemma_map_edges_source(g, n, p);
    let mi = choose|mi: int|
        0 <= mi < n && !in_system(g.notes@[mi].path@) && is_map_note(#[trigger] g.notes@[mi])
            && note_edges(g, g.notes@[mi], edge_values(g.notes@[mi]).len() as int).contains(p);
    let m = g.notes@[mi];
    lemma_note_edges_source(g, m, edge_values(m).len() as int, p);
    let e = choose|e: int|
        0 <= e < edge_values(m).len() && #[trigger] value_targets(g, edge_values(m)[e]).contains(p);
    assert(value_targets(g, edge_values(g.notes@[mi])[e]).contains(g.notes@[ci].path@));
}

/// The sum of the per-domain concept counts.
pub open spec fn concepts_sum(ds: Seq<crate::coverage::DomainCoverage>) -> int
    decreases ds.len(),
{
    if ds.len() == 0 {
        0
    } else {
        concepts_sum(ds.drop_last()) + ds.last().concepts
    }
}

/// A row's count of class `cls` (0 mounted, 1 pending mount, 2 orphan), or its concept count
/// when `cls` is `None`.
pub open spec fn row_count(r: crate::coverage::DomainCoverage, cls: Option<int>) -> int {
    match cls {
        None => r.concepts as int,
        Some(x) => if x == 0 {
            r.mounted as int
        } else if x == 1 {
            r.pending_mount as int
        } else {
            r.orphan as int
        },
    }
}

/// The per-domain counts of class `cls` (concepts when `None`), summed over the rows.
pub open spec fn count_sum(ds: Seq<crate::coverage::DomainCoverage>, cls: Option<int>) -> int
    decreases ds.len(),
{
    if ds.len() == 0 {
        0
    } else {
        count_sum(ds.drop_last(), cls) + row_count(ds.last(), cls)
    }
}

/// The concepts of class `cls` among the first `k` notes of each domain of `ds`, summed.
spec fn count_over(
    g: Graph,
    ds: Seq<crate::coverage::DomainCoverage>,
    cls: Option<int>,
    k: int,
) -> int
    decreases ds.len(),
{
    if ds.len() == 0 {
        0
    } else {
        count_over(g, ds.drop_last(), cls, k) + concept_count(g, Some(ds.last().domain@), cls, k)
    }
}

/// How many rows of `ds` are for domain `x`.
spec fn occurrences(ds: Seq<crate::coverage::DomainCoverage>, x: Seq<char>) -> int
    decreases ds.len(),
{
    if ds.len() == 0 {
        0
    } else {
        occurrences(ds.drop_last(), x) + if ds.last().domain@ == x {
            1int
        } else {
            0int
        }
    }
}

proof fn lemma_count_over_step(
    g: Graph,
    ds: Seq<crate::coverage::DomainCoverage>,
    cls: Option<int>,
    k: int,
)
    requires
        0 <= k < g.notes@.len(),
    ensures
        count_over(g, ds, cls, k + 1) == count_over(g, ds, cls, k) + if is_concept(g.notes@[k]) && (
        cls is None || cls == Some(crate::coverage::class_of(g, g.notes@[k]))) {
            occurrences(ds, domain_key(g.notes@[k]))
        } else {
            0
        },
    decreases ds.len(),
{
    if ds.len() > 0 {
        lemma_count_over_step(g, ds.drop_last(), cls, k);
    }
}

proof fn lemma_occurrences(ds: Seq<crate::coverage::DomainCoverage>, x: Seq<char>)
    requires
        forall|i: int, j: int|
            0 <= i < j < ds.len() ==> #[trigger] ds[i].domain@ != #[trigger] ds[j].domain@,
    ensures
        (exists|i: int| 0 <= i < ds.len() && ds[i].domain@ == x) ==> occurrences(ds, x) == 1,
        (forall|i: int| 0 <= i < ds.len() ==> ds[i].domain@ != x) ==> occurrences(ds, x) == 0,
    decreases ds.len(),
{
    if ds.len() > 0 {
        let init = ds.drop_last();
        assert forall|i: int, j: int|
            0 <= i < j < init.len() implies #[trigger] init[i].domain@ != #[trigger] init[j].domain@ by {
            assert(init[i] == ds[i] && init[j] == ds[j]);
        }
        lemma_occurrences(init, x);
        if ds.last().domain@ == x {
            assert forall|i: int| 0 <= i < init.len() implies init[i].domain@ != x by {
                assert(init[i] == ds[i]);
                assert(ds[i].domain@ != ds[ds.len() - 1].domain@);
            }
        } else {
            if exists|i: int| 0 <= i < ds.len() && ds[i].domain@ == x {
                let i = choose|i: int| 0 <= i < ds.len() && ds[i].domain@ == x;
                assert(init[i] == ds[i]);
            }
            assert forall|i: int| 0 <= i < init.len() && (forall|i: int| 0 <= i < ds.len() ==> ds[i].domain@ != x) implies init[i].domain@ != x by {
                assert(init[i] == ds[i]);
            }
        }
    }
}

proof fn lemma_count_over_total(c: Coverage, g: Graph, cls: Option<int>, k: int)
    requires
        coverage_matches(c, g),
        0 <= k <= g.notes@.len(),
    ensures
        count_over(g, c.domains@, cls, k) == concept_count(g, None, cls, k),
    decreases k,
{
    let ds = c.domains@;
    if k == 0 {
        lemma_count_over_zero(g, ds, cls);
    } else {
        lemma_count_over_total(c, g, cls, k - 1);
        lemma_count_over_step(g, ds, cls, k - 1);
        assert forall|i: int, j: int|
            0 <= i < j < ds.len() implies #[trigger] ds[i].domain@ != #[trigger] ds[j].domain@ by {
            crate::text::lemma_seq_lt_irreflexive(ds[i].domain@);
        }
        lemma_occurrences(ds, domain_key(g.notes@[k - 1]));
    }
}

proof fn lemma_count_over_zero(g: Graph, ds: Seq<crate::coverage::DomainCoverage>, cls: Option<int>)
    ensures
        count_over(g, ds, cls, 0) == 0,
    decreases ds.len(),
{
    if ds.len() > 0 {
        lemma_count_over_zero(g, ds.drop_last(), cls);
    }
}

proof fn lemma_sum_is_count_over(
    c: Coverage,
    g: Graph,
    ds: Seq<crate::coverage::DomainCoverage>,
    cls: Option<int>,
)
    requires
        coverage_matches(c, g),
        cls is None || (0 <= cls->0 <= 2),
        ds.len() <= c.domains@.len(),
        ds == c.domains@.take(ds.len() as int),
    ensures
        count_sum(ds, cls) == count_over(g, ds, cls, g.notes@.len() as int),
    decreases ds.len(),
{
    if ds.len() > 0 {
        let m = ds.len() - 1;
        assert(ds.drop_last() =~= c.domains@.take(m));
        lemma_sum_is_count_over(c, g, ds.drop_last(), cls);
        assert(ds.last() == c.domains@[m]);
    }
}

proof fn lemma_concepts_sum(ds: Seq<crate::coverage::DomainCoverage>)
    ensures
        concepts_sum(ds) == count_sum(ds, None),
    decreases ds.len(),
{
    if ds.len() > 0 {
        lemma_concepts_sum(ds.drop_last());
    }
}

/// The per-domain concept counts add up to the total number of concepts.
pub proof fn law_domain_counts_sum_to_total(c: Coverage, g: Graph)
    requires
        coverage_matches(c, g),
    ensures
        concepts_sum(c.domains@) == c.total_concepts,
{
    assert(c.domains@ =~= c.domains@.take(c.domains@.len() as int));
    lemma_concepts_sum(c.domains@);
    lemma_sum_is_count_over(c, g, c.domains@, None);
    lemma_count_over_total(c, g, None, g.notes@.len() as int);
}

proof fn lemma_class_paths(g: Graph, cls: int, k: int)
    requires
        0 <= k <= g.notes@.len(),
    ensures
        class_paths(g, cls, k).len() == concept_count(g, None, Some(cls), k),
        forall|p: Seq<char>|
            #[trigger] class_paths(g, cls, k).contains(p) ==> (if mounted(g, p) {
                0
            } else if referenced(g, p) {
                1int
            } else {
                2int
            }) == cls,
    decreases k,
{
    if k > 0 {
        lemma_class_paths(g, cls, k - 1);
        let prev = class_paths(g, cls, k - 1);
        let n = g.notes@[k - 1];
        if is_concept(n) && crate::coverage::class_of(g, n) == cls {
            assert forall|p: Seq<char>| #[trigger] prev.push(n.path@).contains(p) implies (if mounted(
                g,
                p,
            ) {
                0
            } else if referenced(g, p) {
                1int
            } else {
                2int
            }) == cls by {
                if p != n.path@ {
                    let w = choose|w: int| 0 <= w < prev.push(n.path@).len() && prev.push(n.path@)[w] == p;
                    assert(prev[w] == p);
                    assert(prev.contains(p));
                }
            }
        }
    }
}

/// The coverage lists agree with the table: the per-domain pending-mount counts add up to the
/// length of the pending-mount list, the orphan counts to the length of the orphan list, the
/// mounted counts to the number of mounted concepts, and no concept is both pending and orphan.
pub proof fn law_coverage_lists_match_counts(c: Coverage, g: Graph)
    requires
        coverage_matches(c, g),
    ensures
        count_sum(c.domains@, Some(1)) == c.pending_mount@.len(),
        count_sum(c.domains@, Some(2)) == c.orphans@.len(),
        count_sum(c.domains@, Some(0)) == concept_count(g, None, Some(0), g.notes@.len() as int),
        forall|i: int, j: int|
            0 <= i < c.pending_mount@.len() && 0 <= j < c.orphans@.len() ==> #[trigger] c.pending_mount@[i]@
                != #[trigger] c.orphans@[j]@,
{
    broadcast use vstd::seq_lib::group_to_multiset_ensures;

    let n = g.notes@.len() as int;
    assert(c.domains@ =~= c.domains@.take(c.domains@.len() as int));
    lemma_sum_is_count_over(c, g, c.domains@, Some(0));
    lemma_sum_is_count_over(c, g, c.domains@, Some(1));
    lemma_sum_is_count_over(c, g, c.domains@, Some(2));
    lemma_count_over_total(c, g, Some(0), n);
    lemma_count_over_total(c, g, Some(1), n);
    lemma_count_over_total(c, g, Some(2), n);
    lemma_class_paths(g, 1, n);
    lemma_class_paths(g, 2, n);
    let pv = string_views(c.pending_mount@);
    let ov = string_views(c.orphans@);
    assert(pv.len() == c.pending_mount@.len());
    assert(ov.len() == c.orphans@.len());
    assert(pv.to_multiset().len() == class_paths(g, 1, n).to_multiset().len());
    assert(ov.to_multiset().len() == class_paths(g, 2, n).to_multiset().len());
    assert forall|i: int, j: int|
        0 <= i < c.pending_mount@.len() && 0 <= j < c.orphans@.len() implies #[trigger] c.pending_mount@[i]@
            != #[trigger] c.orphans@[j]@ by {
        let p = c.pending_mount@[i]@;
        if p == c.orphans@[j]@ {
            assert(pv[i] == p);
            assert(ov[j] == p);
            assert(pv.contains(p));
            assert(ov.contains(p));
            assert(class_paths(g, 1, n).to_multiset().count(p) > 0);
            assert(class_paths(g, 2, n).to_multiset().count(p) > 0);
            assert(class_paths(g, 1, n).contains(p));
            assert(class_paths(g, 2, n).contains(p));
        }
    }
}

// ---------------------------------------------------------------------------------------------
// Schema
// ---------------------------------------------------------------------------------------------

/// Every finding of `s` is an `Error`.
pub open spec fn all_errors(s: Seq<FindingV>) -> bool {
    forall|i: int| 0 <= i < s.len() ==> (#[trigger] s[i]).severity == Severity::Error
}

/// Every finding of `s` is an `Error` filed on `path`: no line, no collision members, and the
/// fingerprint of its rule, `path` and its target (empty when it has none).
pub open spec fn filed_on(s: Seq<FindingV>, path: Seq<char>) -> bool {
    forall|i: int|
        0 <= i < s.len() ==> {
            let f = #[trigger] s[i];
            &&& f.severity == Severity::Error
            &&& f.path == path
            &&& f.line is None
            &&& f.collision_members.len() == 0
            &&& f.fingerprint == crate::model::fingerprint_spec(
                f.rule_id,
                path,
                match f.target {
                    Some(t) => t,
                    None => Seq::empty(),
                },
            )
        }
}

proof fn lemma_filed_concat(a: Seq<FindingV>, b: Seq<FindingV>, path: Seq<char>)
    requires
        filed_on(a, path),
        filed_on(b, path),
    ensures
        filed_on(a + b, path),
{
    assert forall|i: int| 0 <= i < (a + b).len() implies #[trigger] (a + b)[i] == if i < a.len() {
        a[i]
    } else {
        b[i - a.len()]
    } by {}
}

proof fn lemma_errors_concat(a: Seq<FindingV>, b: Seq<FindingV>)
    requires
        all_errors(a),
        all_errors(b),
    ensures
        all_errors(a + b),
{
    assert forall|i: int| 0 <= i < (a + b).len() implies (#[trigger] (a + b)[i]).severity
        == Severity::Error by {
        if i < a.len() {
            assert((a + b)[i] == a[i]);
        } else {
            assert((a + b)[i] == b[i - a.len()]);
        }
    }
}

proof fn lemma_unknown_keys_errors(n: Note, sc: Schema, k: int)
    ensures
        filed_on(unknown_keys(n, sc, k), n.path@),
    decreases k,
{
    if k > 0 {
        lemma_unknown_keys_errors(n, sc, k - 1);
    }
}

proof fn lemma_required_errors(n: Note, sc: Schema, k: int)
    ensures
        filed_on(required_part(n, sc, k), n.path@),
    decreases k,
{
    if k > 0 {
        lemma_required_errors(n, sc, k - 1);
    }
}

proof fn lemma_tags_errors(n: Note, tags: Seq<Seq<char>>, k: int)
    ensures
        filed_on(tag_findings(n, tags, k), n.path@),
    decreases k,
{
    if k > 0 {
        lemma_tags_errors(n, tags, k - 1);
    }
}

#[verifier::spinoff_prover]
#[verifier::rlimit(40)]
proof fn lemma_lint_filed(n: Note, sc: Schema)
    ensures
        filed_on(lint_spec(n, sc), n.path@),
{
    let why = "is not an allowed value"@;
    lemma_unknown_keys_errors(n, sc, n.frontmatter@.len() as int);
    lemma_required_errors(n, sc, sc.fields.required@.len() as int);
    let t = enum_check(n, "type"@, sc.enums.types@, "is not an allowed type"@);
    let u = unknown_keys(n, sc, n.frontmatter@.len() as int);
    let l = lesson_part(n, sc);
    if is_lesson_note(n) {
        lemma_filed_concat(
            slug_part(n),
            enum_check(n, "status"@, sc.enums.status.lesson@, "is not a valid lesson status"@),
            n.path@,
        );
    }
    lemma_filed_concat(t, u, n.path@);
    lemma_filed_concat(t + u, l, n.path@);
    assert(head_part(n, sc) == t + u + l);
    let e1 = enum_check(n, "domain"@, sc.enums.domain@, why);
    let e2 = enum_check(n, "source_kind"@, sc.enums.source_kind@, why);
    let e3 = enum_check(n, "source_provider"@, sc.enums.source_provider@, why);
    let e4 = enum_check(n, "level"@, sc.enums.level@, why);
    let e5 = enum_check(n, "map_kind"@, sc.enums.map_kind@, why);
    lemma_filed_concat(e1, e2, n.path@);
    lemma_filed_concat(e1 + e2, e3, n.path@);
    lemma_filed_concat(e1 + e2 + e3, e4, n.path@);
    lemma_filed_concat(e1 + e2 + e3 + e4, e5, n.path@);
    assert(enum_fields_part(n, sc) == e1 + e2 + e3 + e4 + e5);
    match crate::note::fm_lookup(crate::schema::fm_of(n), "tags"@) {
        Some(crate::note::FmValueV::List(tags)) => lemma_tags_errors(n, tags, tags.len() as int),
        _ => {},
    }
    let d = domain_folder_part(n, sc);
    let tg = tags_part(n, sc);
    let pv = provenance_part(n, sc);
    lemma_filed_concat(d, tg, n.path@);
    lemma_filed_concat(d + tg, pv, n.path@);
    assert(structure_part(n, sc) == d + tg + pv);
    let r = required_part(n, sc, sc.fields.required@.len() as int);
    let st = enum_check(n, "status"@, sc.enums.status.note@, "is not a valid status"@);
    lemma_filed_concat(r, st, n.path@);
    lemma_filed_concat(r + st, enum_fields_part(n, sc), n.path@);
    lemma_filed_concat(r + st + enum_fields_part(n, sc), structure_part(n, sc), n.path@);
    assert(knowledge_part(n, sc) == r + st + enum_fields_part(n, sc) + structure_part(n, sc));
    lemma_filed_concat(head_part(n, sc), knowledge_part(n, sc), n.path@);
    lemma_filed_concat(
        head_part(n, sc),
        enum_check(n, "status"@, sc.enums.status.system@, "is not a valid system status"@),
        n.path@,
    );
}

/// No finding of `s` asks for a `domain` field.
spec fn asks_no_domain(s: Seq<FindingV>) -> bool {
    forall|i: int|
        0 <= i < s.len() ==> !((#[trigger] s[i]).rule_id == "schema.required"@ && s[i].field == Some(
            "domain"@,
        ))
}

proof fn lemma_asks_concat(a: Seq<FindingV>, b: Seq<FindingV>)
    requires
        asks_no_domain(a),
        asks_no_domain(b),
    ensures
        asks_no_domain(a + b),
{
    assert forall|i: int| 0 <= i < (a + b).len() implies #[trigger] (a + b)[i] == if i < a.len() {
        a[i]
    } else {
        b[i - a.len()]
    } by {}
}

/// The literals the schema rules file under are pairwise different.
proof fn lemma_rule_literals()
    ensures
        "schema.required"@ != "schema.enum"@,
        "schema.required"@ != "schema.unknown_key"@,
        "schema.required"@ != "schema.domain_folder"@,
        "schema.required"@ != "schema.legacy_tag"@,
        "schema.required"@ != "schema.provenance"@,
        "slug"@ != "domain"@,
{
    reveal_strlit("schema.required");
    reveal_strlit("schema.enum");
    reveal_strlit("schema.unknown_key");
    reveal_strlit("schema.domain_folder");
    reveal_strlit("schema.legacy_tag");
    reveal_strlit("schema.provenance");
    reveal_strlit("slug");
    reveal_strlit("domain");
    assert("schema.required"@[7] != "schema.enum"@[7]);
    assert("schema.required"@[7] != "schema.unknown_key"@[7]);
    assert("schema.required"@[7] != "schema.domain_folder"@[7]);
    assert("schema.required"@[7] != "schema.legacy_tag"@[7]);
    assert("schema.required"@[7] != "schema.provenance"@[7]);
    assert("slug"@[0] != "domain"@[0]);
}

proof fn lemma_unknown_keys_ask(n: Note, sc: Schema, k: int)
    requires
        "schema.required"@ != "schema.unknown_key"@,
    ensures
        asks_no_domain(unknown_keys(n, sc, k)),
    decreases k,
{
    if k > 0 {
        lemma_unknown_keys_ask(n, sc, k - 1);
    }
}

proof fn lemma_required_ask(n: Note, sc: Schema, k: int)
    requires
        crate::schema::type_of(n) == Some("inbox"@),
    ensures
        asks_no_domain(required_part(n, sc, k)),
    decreases k,
{
    if k > 0 {
        lemma_required_ask(n, sc, k - 1);
    }
}

proof fn lemma_tags_ask(n: Note, tags: Seq<Seq<char>>, k: int)
    requires
        "schema.required"@ != "schema.legacy_tag"@,
    ensures
        asks_no_domain(tag_findings(n, tags, k)),
    decreases k,
{
    if k > 0 {
        lemma_tags_ask(n, tags, k - 1);
    }
}

#[verifier::spinoff_prover]
#[verifier::rlimit(40)]
proof fn lemma_lint_asks_no_domain(n: Note, sc: Schema)
    requires
        crate::schema::type_of(n) == Some("inbox"@),
    ensures
        asks_no_domain(lint_spec(n, sc)),
{
    lemma_rule_literals();
    let why = "is not an allowed value"@;
    lemma_unknown_keys_ask(n, sc, n.frontmatter@.len() as int);
    lemma_required_ask(n, sc, sc.fields.required@.len() as int);
    let t = enum_check(n, "type"@, sc.enums.types@, "is not an allowed type"@);
    let u = unknown_keys(n, sc, n.frontmatter@.len() as int);
    let l = lesson_part(n, sc);
    if is_lesson_note(n) {
        lemma_asks_concat(
            slug_part(n),
            enum_check(n, "status"@, sc.enums.status.lesson@, "is not a valid lesson status"@),
        );
    }
    lemma_asks_concat(t, u);
    lemma_asks_concat(t + u, l);
    assert(head_part(n, sc) == t + u + l);
    let e1 = enum_check(n, "domain"@, sc.enums.domain@, why);
    let e2 = enum_check(n, "source_kind"@, sc.enums.source_kind@, why);
    let e3 = enum_check(n, "source_provider"@, sc.enums.source_provider@, why);
    let e4 = enum_check(n, "level"@, sc.enums.level@, why);
    let e5 = enum_check(n, "map_kind"@, sc.enums.map_kind@, why);
    lemma_asks_concat(e1, e2);
    lemma_asks_concat(e1 + e2, e3);
    lemma_asks_concat(e1 + e2 + e3, e4);
    lemma_asks_concat(e1 + e2 + e3 + e4, e5);
    assert(enum_fields_part(n, sc) == e1 + e2 + e3 + e4 + e5);
    match crate::note::fm_lookup(crate::schema::fm_of(n), "tags"@) {
        Some(crate::note::FmValueV::List(tags)) => lemma_tags_ask(n, tags, tags.len() as int),
        _ => {},
    }
    let d = domain_folder_part(n, sc);
    let tg = tags_part(n, sc);
    let pv = provenance_part(n, sc);
    lemma_asks_concat(d, tg);
    lemma_asks_concat(d + tg, pv);
    assert(structure_part(n, sc) == d + tg + pv);
    let r = required_part(n, sc, sc.fields.required@.len() as int);
    let st = enum_check(n, "status"@, sc.enums.status.note@, "is not a valid status"@);
    lemma_asks_concat(r, st);
    lemma_asks_concat(r + st, enum_fields_part(n, sc));
    lemma_asks_concat(r + st + enum_fields_part(n, sc), structure_part(n, sc));
    assert(knowledge_part(n, sc) == r + st + enum_fields_part(n, sc) + structure_part(n, sc));
    lemma_asks_concat(head_part(n, sc), knowledge_part(n, sc));
    lemma_asks_concat(
        head_part(n, sc),
        enum_check(n, "status"@, sc.enums.status.system@, "is not a valid system status"@),
    );
}

/// An inbox note is never asked for a `domain`: the lint files no `schema.required` finding on
/// that field for a note whose `type` is `inbox`.
pub proof fn law_inbox_needs_no_domain(n: Note, sc: Schema, i: int)
    requires
        crate::schema::type_of(n) == Some("inbox"@),
        0 <= i < lint_spec(n, sc).len(),
    ensures
        !(lint_spec(n, sc)[i].rule_id == "schema.required"@ && lint_spec(n, sc)[i].field == Some(
            "domain"@,
        )),
{
    lemma_lint_asks_no_domain(n, sc);
}

/// `s` matches `^[a-z0-9]+(-[a-z0-9]+)*$`: it is non-empty, made only of lowercase ASCII letters,
/// ASCII digits and hyphens, with no hyphen at either end and no two hyphens in a row.
pub open spec fn kebab_pattern(s: Seq<char>) -> bool {
    &&& s.len() > 0
    &&& forall|i: int|
        0 <= i < s.len() ==> ('a' <= #[trigger] s[i] && s[i] <= 'z') || ('0' <= s[i] && s[i]
            <= '9') || s[i] == '-'
    &&& s[0] != '-'
    &&& s[s.len() - 1] != '-'
    &&& forall|i: int, j: int|
        #![trigger s[i], s[j]]
        0 <= i && j == i + 1 && j < s.len() ==> !(s[i] == '-' && s[j] == '-')
}

proof fn lemma_kebab_pattern(s: Seq<char>)
    ensures
        crate::schema::is_kebab_spec(s) == kebab_pattern(s),
{
    if kebab_pattern(s) {
        assert forall|i: int| 0 <= i < s.len() implies crate::schema::kebab_char(#[trigger] s[i])
            || (s[i] == '-' && 0 < i < s.len() - 1 && crate::schema::kebab_char(s[i - 1])
            && crate::schema::kebab_char(s[i + 1])) by {
            if s[i] == '-' {
                assert(i != 0);
                assert(i != s.len() - 1);
                assert(s[i - 1] != '-');
                assert(s[i] == '-');
                assert(s[i + 1] != '-');
            }
        }
    }
    if crate::schema::is_kebab_spec(s) {
        assert(s[0] != '-');
        assert(s[s.len() - 1] != '-');
        assert forall|i: int, j: int|
            #![trigger s[i], s[j]]
            0 <= i && j == i + 1 && j < s.len() implies !(s[i] == '-' && s[j] == '-') by {
            if s[i] == '-' {
                assert(crate::schema::kebab_char(s[i + 1]));
            }
        }
    }
}

/// No finding of `s` is filed under rule `r`.
spec fn no_rule(s: Seq<FindingV>, r: Seq<char>) -> bool {
    forall|i: int| 0 <= i < s.len() ==> (#[trigger] s[i]).rule_id != r
}

proof fn lemma_no_rule_concat(a: Seq<FindingV>, b: Seq<FindingV>, r: Seq<char>)
    requires
        no_rule(a, r),
        no_rule(b, r),
    ensures
        no_rule(a + b, r),
{
    assert forall|i: int| 0 <= i < (a + b).len() implies #[trigger] (a + b)[i] == if i < a.len() {
        a[i]
    } else {
        b[i - a.len()]
    } by {}
}

proof fn lemma_slug_literals()
    ensures
        "schema.slug"@ != "schema.enum"@,
        "schema.slug"@ != "schema.unknown_key"@,
        "schema.slug"@ != "schema.required"@,
        "schema.slug"@ != "schema.domain_folder"@,
        "schema.slug"@ != "schema.legacy_tag"@,
        "schema.slug"@ != "schema.provenance"@,
{
    reveal_strlit("schema.slug");
    reveal_strlit("schema.required");
    reveal_strlit("schema.enum");
    reveal_strlit("schema.unknown_key");
    reveal_strlit("schema.domain_folder");
    reveal_strlit("schema.legacy_tag");
    reveal_strlit("schema.provenance");
    assert("schema.slug"@[7] != "schema.enum"@[7]);
    assert("schema.slug"@[7] != "schema.unknown_key"@[7]);
    assert("schema.slug"@[7] != "schema.required"@[7]);
    assert("schema.slug"@[7] != "schema.domain_folder"@[7]);
    assert("schema.slug"@[7] != "schema.legacy_tag"@[7]);
    assert("schema.slug"@[7] != "schema.provenance"@[7]);
}

proof fn lemma_unknown_keys_no_slug(n: Note, sc: Schema, k: int)
    requires
        "schema.slug"@ != "schema.unknown_key"@,
    ensures
        no_rule(unknown_keys(n, sc, k), "schema.slug"@),
    decreases k,
{
    if k > 0 {
        lemma_unknown_keys_no_slug(n, sc, k - 1);
    }
}

proof fn lemma_required_no_slug(n: Note, sc: Schema, k: int)
    requires
        "schema.slug"@ != "schema.required"@,
    ensures
        no_rule(required_part(n, sc, k), "schema.slug"@),
    decreases k,
{
    if k > 0 {
        lemma_required_no_slug(n, sc, k - 1);
    }
}

proof fn lemma_tags_no_slug(n: Note, tags: Seq<Seq<char>>, k: int)
    requires
        "schema.slug"@ != "schema.legacy_tag"@,
    ensures
        no_rule(tag_findings(n, tags, k), "schema.slug"@),
    decreases k,
{
    if k > 0 {
        lemma_tags_no_slug(n, tags, k - 1);
    }
}

/// Only the slug rule files `schema.slug`: the lint of a note is the type check and unknown keys,
/// then the slug rule, then findings of no other rule than the slug rule's.
#[verifier::spinoff_prover]
#[verifier::rlimit(40)]
proof fn lemma_lint_slug_split(n: Note, sc: Schema)
    requires
        crate::schema::is_lesson(n),
        !n.no_frontmatter,
    ensures
        exists|a: Seq<FindingV>, b: Seq<FindingV>|
            {
                &&& lint_spec(n, sc) == a + slug_part(n) + b
                &&& no_rule(a, "schema.slug"@)
                &&& no_rule(b, "schema.slug"@)
            },
{
    lemma_slug_literals();
    let why = "is not an allowed value"@;
    let t = enum_check(n, "type"@, sc.enums.types@, "is not an allowed type"@);
    let u = unknown_keys(n, sc, n.frontmatter@.len() as int);
    lemma_unknown_keys_no_slug(n, sc, n.frontmatter@.len() as int);
    lemma_required_no_slug(n, sc, sc.fields.required@.len() as int);
    lemma_no_rule_concat(t, u, "schema.slug"@);
    let ls = enum_check(n, "status"@, sc.enums.status.lesson@, "is not a valid lesson status"@);
    assert(lesson_part(n, sc) == slug_part(n) + ls);
    let e1 = enum_check(n, "domain"@, sc.enums.domain@, why);
    let e2 = enum_check(n, "source_kind"@, sc.enums.source_kind@, why);
    let e3 = enum_check(n, "source_provider"@, sc.enums.source_provider@, why);
    let e4 = enum_check(n, "level"@, sc.enums.level@, why);
    let e5 = enum_check(n, "map_kind"@, sc.enums.map_kind@, why);
    lemma_no_rule_concat(e1, e2, "schema.slug"@);
    lemma_no_rule_concat(e1 + e2, e3, "schema.slug"@);
    lemma_no_rule_concat(e1 + e2 + e3, e4, "schema.slug"@);
    lemma_no_rule_concat(e1 + e2 + e3 + e4, e5, "schema.slug"@);
    assert(enum_fields_part(n, sc) == e1 + e2 + e3 + e4 + e5);
    match crate::note::fm_lookup(crate::schema::fm_of(n), "tags"@) {
        Some(crate::note::FmValueV::List(tags)) => lemma_tags_no_slug(n, tags, tags.len() as int),
        _ => {},
    }
    let d = domain_folder_part(n, sc);
    let tg = tags_part(n, sc);
    let pv = provenance_part(n, sc);
    lemma_no_rule_concat(d, tg, "schema.slug"@);
    lemma_no_rule_concat(d + tg, pv, "schema.slug"@);
    assert(structure_part(n, sc) == d + tg + pv);
    let r = required_part(n, sc, sc.fields.required@.len() as int);
    let st = enum_check(n, "status"@, sc.enums.status.note@, "is not a valid status"@);
    lemma_no_rule_concat(r, st, "schema.slug"@);
    lemma_no_rule_concat(r + st, enum_fields_part(n, sc), "schema.slug"@);
    lemma_no_rule_concat(r + st + enum_fields_part(n, sc), structure_part(n, sc), "schema.slug"@);
    assert(knowledge_part(n, sc) == r + st + enum_fields_part(n, sc) + structure_part(n, sc));
    let sys = enum_check(n, "status"@, sc.enums.status.system@, "is not a valid system status"@);
    let rest = if crate::schema::is_system_doc(n, sc) {
        sys
    } else {
        knowledge_part(n, sc)
    };
    lemma_no_rule_concat(ls, rest, "schema.slug"@);
    assert(lint_spec(n, sc) =~= (t + u) + slug_part(n) + (ls + rest));
}

/// A lesson's slug is accepted exactly when it matches `^[a-z0-9]+(-[a-z0-9]+)*$`: the lint of a
/// lesson with a (non-empty) slug `s` holds a `schema.slug` finding if and only if `s` breaks the
/// pattern (an uppercase letter, any character outside `a`-`z`, `0`-`9` and `-`, a hyphen at
/// either end, or two in a row), and that finding names the slug.
pub proof fn law_lesson_slug_must_be_kebab_case(n: Note, sc: Schema, s: Seq<char>)
    requires
        crate::schema::is_lesson(n),
        !n.no_frontmatter,
        crate::schema::scalar_spec(crate::schema::fm_of(n), "slug"@) == Some(s),
    ensures
        (exists|i: int|
            0 <= i < lint_spec(n, sc).len() && (#[trigger] lint_spec(n, sc)[i]).rule_id
                == "schema.slug"@) == !kebab_pattern(s),
        !kebab_pattern(s) ==> lint_spec(n, sc).contains(
            crate::schema::finding_spec(
                n.path@,
                "schema.slug"@,
                Some("slug"@),
                s,
                "is not a valid slug"@,
            ),
        ),
{
    lemma_kebab_pattern(s);
    lemma_lint_slug_split(n, sc);
    let (a, b) = choose|a: Seq<FindingV>, b: Seq<FindingV>|
        {
            &&& lint_spec(n, sc) == a + slug_part(n) + b
            &&& no_rule(a, "schema.slug"@)
            &&& no_rule(b, "schema.slug"@)
        };
    let l = lint_spec(n, sc);
    let sp = slug_part(n);
    if !kebab_pattern(s) {
        let f = crate::schema::finding_spec(
            n.path@,
            "schema.slug"@,
            Some("slug"@),
            s,
            "is not a valid slug"@,
        );
        assert(sp == seq![f]);
        assert(l[a.len() as int] == f);
        assert(l.contains(f));
    } else {
        assert(sp.len() == 0);
        assert forall|i: int| 0 <= i < l.len() implies (#[trigger] l[i]).rule_id != "schema.slug"@ by {
            if i < a.len() {
                assert(l[i] == a[i]);
            } else {
                assert(l[i] == b[i - a.len()]);
            }
        }
    }
}

/// Whether the note is a lesson (its `type` is `lesson`).
spec fn is_lesson_note(n: Note) -> bool {
    crate::schema::is_lesson(n)
}

proof fn lemma_check_errors(notes: Seq<Note>, sc: Schema, k: int)
    ensures
        all_errors(check_spec(notes, sc, k)),
    decreases k,
{
    if k > 0 {
        lemma_check_errors(notes, sc, k - 1);
        lemma_lint_filed(notes[k - 1], sc);
        let l = lint_spec(notes[k - 1], sc);
        assert forall|i: int| 0 <= i < l.len() implies (#[trigger] l[i]).severity
            == Severity::Error by {}
        if crate::schema::in_schema_scope(notes[k - 1], sc) {
            lemma_errors_concat(check_spec(notes, sc, k - 1), lint_spec(notes[k - 1], sc));
        } else {
            lemma_errors_concat(check_spec(notes, sc, k - 1), Seq::empty());
        }
    }
}

/// The schema lint files every finding on the note it checks: an `Error` at the note's path, with
/// no line and no collision members, fingerprinted by its rule, the path and its target (empty
/// when it has none). A note without frontmatter gets no schema finding.
pub proof fn law_lint_findings_are_filed_on_the_note(n: Note, sc: Schema)
    ensures
        filed_on(lint_spec(n, sc), n.path@),
        n.no_frontmatter ==> lint_spec(n, sc).len() == 0,
{
    lemma_lint_filed(n, sc);
}

/// Every schema finding is an `Error`: a schema violation gates.
pub proof fn law_schema_findings_gate(notes: Seq<Note>, sc: Schema, i: int)
    requires
        0 <= i < check_spec(notes, sc, notes.len() as int).len(),
    ensures
        check_spec(notes, sc, notes.len() as int)[i].severity == Severity::Error,
{
    lemma_check_errors(notes, sc, notes.len() as int);
}

// ---------------------------------------------------------------------------------------------
// Existence lookup
// ---------------------------------------------------------------------------------------------

proof fn lemma_hits_grow(notes: Seq<Note>, key: Seq<char>, i: int, k: int)
    requires
        0 <= i < k <= notes.len(),
    ensures
        forall|h| note_hits(notes[i], key).contains(h) ==> hits_upto(notes, key, k).contains(h),
    decreases k,
{
    if k - 1 > i {
        lemma_hits_grow(notes, key, i, k - 1);
        assert forall|h| note_hits(notes[i], key).contains(h) implies hits_upto(notes, key, k).contains(h) by {
            let a = hits_upto(notes, key, k - 1);
            assert(a.contains(h));
            let j = choose|j: int| 0 <= j < a.len() && a[j] == h;
            assert((a + note_hits(notes[k - 1], key))[j] == h);
        }
    } else {
        assert forall|h| note_hits(notes[i], key).contains(h) implies hits_upto(notes, key, k).contains(h) by {
            let a = hits_upto(notes, key, k - 1);
            let b = note_hits(notes[i], key);
            let j = choose|j: int| 0 <= j < b.len() && b[j] == h;
            assert((a + b)[a.len() + j] == h);
        }
    }
}

/// The lookup over-recalls the resolver: a note whose filename matches the query (in any case or
/// normal form) is always among the matches, as a `filename` hit.
pub proof fn law_lookup_finds_by_filename(notes: Seq<Note>, query: Seq<char>, i: int)
    requires
        0 <= i < notes.len(),
        normalize_spec(filename_stem_spec(notes[i].path@)) == normalize_spec(query),
    ensures
        hits_upto(notes, normalize_spec(query), notes.len() as int).contains(
            (notes[i].path@, "filename"@, filename_stem_spec(notes[i].path@)),
        ),
{
    let key = normalize_spec(query);
    let h = (notes[i].path@, "filename"@, filename_stem_spec(notes[i].path@));
    assert(hit_if(notes[i].path@, "filename"@, filename_stem_spec(notes[i].path@), key) == seq![h]);
    assert(note_hits(notes[i], key)[0] == h);
    lemma_hits_grow(notes, key, i, notes.len() as int);
}

proof fn lemma_alias_hit(n: Note, key: Seq<char>, j: int, m: int)
    requires
        0 <= j < m <= n.aliases@.len(),
        normalize_spec(n.aliases@[j]@) == key,
    ensures
        alias_hits(n, key, m).contains((n.path@, "alias"@, n.aliases@[j]@)),
    decreases m,
{
    let h = (n.path@, "alias"@, n.aliases@[j]@);
    if m - 1 > j {
        lemma_alias_hit(n, key, j, m - 1);
        let a = alias_hits(n, key, m - 1);
        let q = choose|q: int| 0 <= q < a.len() && a[q] == h;
        assert((a + hit_if(n.path@, "alias"@, n.aliases@[m - 1]@, key))[q] == h);
    } else {
        let a = alias_hits(n, key, m - 1);
        assert((a + hit_if(n.path@, "alias"@, n.aliases@[j]@, key))[a.len() as int] == h);
    }
}

/// A note with an alias matching the query is always among the matches, as an `alias` hit.
pub proof fn law_lookup_finds_by_alias(notes: Seq<Note>, query: Seq<char>, i: int, j: int)
    requires
        0 <= i < notes.len(),
        0 <= j < notes[i].aliases@.len(),
        normalize_spec(notes[i].aliases@[j]@) == normalize_spec(query),
    ensures
        hits_upto(notes, normalize_spec(query), notes.len() as int).contains(
            (notes[i].path@, "alias"@, notes[i].aliases@[j]@),
        ),
{
    let key = normalize_spec(query);
    let n = notes[i];
    let h = (n.path@, "alias"@, n.aliases@[j]@);
    lemma_alias_hit(n, key, j, n.aliases@.len() as int);
    let f = hit_if(n.path@, "filename"@, filename_stem_spec(n.path@), key);
    let t = match n.title {
        Some(x) => hit_if(n.path@, "title"@, x@, key),
        None => Seq::empty(),
    };
    let a = alias_hits(n, key, n.aliases@.len() as int);
    let e = match n.title_en {
        Some(x) => hit_if(n.path@, "title_en"@, x@, key),
        None => Seq::empty(),
    };
    assert(note_hits(n, key) == f + t + a + e);
    let q = choose|q: int| 0 <= q < a.len() && a[q] == h;
    assert((f + t + a + e)[f.len() + t.len() + q] == h);
    lemma_hits_grow(notes, key, i, notes.len() as int);
}

/// A note whose title matches the query is always among the matches, as a `title` hit (the
/// lookup, unlike the resolver, searches titles).
pub proof fn law_lookup_finds_by_title(notes: Seq<Note>, query: Seq<char>, i: int)
    requires
        0 <= i < notes.len(),
        notes[i].title is Some,
        normalize_spec(notes[i].title->0@) == normalize_spec(query),
    ensures
        hits_upto(notes, normalize_spec(query), notes.len() as int).contains(
            (notes[i].path@, "title"@, notes[i].title->0@),
        ),
{
    let key = normalize_spec(query);
    let n = notes[i];
    let h = (n.path@, "title"@, n.title->0@);
    let f = hit_if(n.path@, "filename"@, filename_stem_spec(n.path@), key);
    let t = hit_if(n.path@, "title"@, n.title->0@, key);
    let a = alias_hits(n, key, n.aliases@.len() as int);
    let e = match n.title_en {
        Some(x) => hit_if(n.path@, "title_en"@, x@, key),
        None => Seq::empty(),
    };
    assert(t == seq![h]);
    assert(note_hits(n, key) == f + t + a + e);
    assert((f + t + a + e)[f.len() as int] == h);
    lemma_hits_grow(notes, key, i, notes.len() as int);
}

/// A note whose English title matches the query is always among the matches, as a `title_en`
/// hit: a concept written under another language's title is still found by its English name.
pub proof fn law_lookup_finds_by_title_en(notes: Seq<Note>, query: Seq<char>, i: int)
    requires
        0 <= i < notes.len(),
        notes[i].title_en is Some,
        normalize_spec(notes[i].title_en->0@) == normalize_spec(query),
    ensures
        hits_upto(notes, normalize_spec(query), notes.len() as int).contains(
            (notes[i].path@, "title_en"@, notes[i].title_en->0@),
        ),
{
    let key = normalize_spec(query);
    let n = notes[i];
    let h = (n.path@, "title_en"@, n.title_en->0@);
    let f = hit_if(n.path@, "filename"@, filename_stem_spec(n.path@), key);
    let t = match n.title {
        Some(x) => hit_if(n.path@, "title"@, x@, key),
        None => Seq::empty(),
    };
    let a = alias_hits(n, key, n.aliases@.len() as int);
    let e = hit_if(n.path@, "title_en"@, n.title_en->0@, key);
    assert(e == seq![h]);
    assert(note_hits(n, key) == f + t + a + e);
    assert((f + t + a + e)[(f.len() + t.len() + a.len()) as int] == h);
    lemma_hits_grow(notes, key, i, notes.len() as int);
}

/// Whether `h` is a genuine lookup hit for the normalized `key` over `notes`: the path of a note,
/// the field it matched on (its filename, title, an alias, or its English title), and that
/// field's value, which normalizes to `key`.
pub open spec fn genuine_hit(
    notes: Seq<Note>,
    key: Seq<char>,
    h: (Seq<char>, Seq<char>, Seq<char>),
) -> bool {
    &&& normalize_spec(h.2) == key
    &&& exists|j: int|
        0 <= j < notes.len() && #[trigger] notes[j].path@ == h.0 && {
            ||| (h.1 == "filename"@ && h.2 == filename_stem_spec(notes[j].path@))
            ||| (h.1 == "title"@ && notes[j].title is Some && notes[j].title->0@ == h.2)
            ||| (h.1 == "alias"@ && exists|a: int|
                0 <= a < notes[j].aliases@.len() && (#[trigger] notes[j].aliases@[a])@ == h.2)
            ||| (h.1 == "title_en"@ && notes[j].title_en is Some && notes[j].title_en->0@ == h.2)
        }
}

proof fn lemma_alias_hits_genuine(notes: Seq<Note>, j: int, key: Seq<char>, m: int)
    requires
        0 <= j < notes.len(),
        0 <= m <= notes[j].aliases@.len(),
    ensures
        forall|q: int|
            0 <= q < alias_hits(notes[j], key, m).len() ==> genuine_hit(
                notes,
                key,
                #[trigger] alias_hits(notes[j], key, m)[q],
            ),
    decreases m,
{
    if m > 0 {
        lemma_alias_hits_genuine(notes, j, key, m - 1);
        let prev = alias_hits(notes[j], key, m - 1);
        let here = hit_if(notes[j].path@, "alias"@, notes[j].aliases@[m - 1]@, key);
        assert forall|q: int| 0 <= q < (prev + here).len() implies genuine_hit(
            notes,
            key,
            #[trigger] (prev + here)[q],
        ) by {
            if q < prev.len() {
                assert((prev + here)[q] == prev[q]);
            } else {
                assert((prev + here)[q] == here[q - prev.len()]);
                assert(notes[j].aliases@[m - 1]@ == here[q - prev.len()].2);
            }
        }
    }
}

proof fn lemma_note_hits_genuine(notes: Seq<Note>, j: int, key: Seq<char>)
    requires
        0 <= j < notes.len(),
    ensures
        forall|q: int|
            0 <= q < note_hits(notes[j], key).len() ==> genuine_hit(
                notes,
                key,
                #[trigger] note_hits(notes[j], key)[q],
            ),
{
    let n = notes[j];
    let f = hit_if(n.path@, "filename"@, filename_stem_spec(n.path@), key);
    let t = match n.title {
        Some(x) => hit_if(n.path@, "title"@, x@, key),
        None => Seq::empty(),
    };
    let a = alias_hits(n, key, n.aliases@.len() as int);
    let e = match n.title_en {
        Some(x) => hit_if(n.path@, "title_en"@, x@, key),
        None => Seq::empty(),
    };
    lemma_alias_hits_genuine(notes, j, key, n.aliases@.len() as int);
    let all = f + t + a + e;
    assert(note_hits(n, key) == all);
    assert forall|q: int| 0 <= q < all.len() implies genuine_hit(notes, key, #[trigger] all[q]) by {
        if q < f.len() {
            assert(all[q] == f[q]);
        } else if q < f.len() + t.len() {
            assert(all[q] == t[q - f.len()]);
        } else if q < f.len() + t.len() + a.len() {
            assert(all[q] == a[q - f.len() - t.len()]);
        } else {
            assert(all[q] == e[q - f.len() - t.len() - a.len()]);
        }
    }
}

proof fn lemma_hits_genuine(notes: Seq<Note>, key: Seq<char>, k: int)
    requires
        0 <= k <= notes.len(),
    ensures
        forall|q: int|
            0 <= q < hits_upto(notes, key, k).len() ==> genuine_hit(
                notes,
                key,
                #[trigger] hits_upto(notes, key, k)[q],
            ),
    decreases k,
{
    if k > 0 {
        lemma_hits_genuine(notes, key, k - 1);
        lemma_note_hits_genuine(notes, k - 1, key);
        let prev = hits_upto(notes, key, k - 1);
        let here = note_hits(notes[k - 1], key);
        assert forall|q: int| 0 <= q < (prev + here).len() implies genuine_hit(
            notes,
            key,
            #[trigger] (prev + here)[q],
        ) by {
            if q < prev.len() {
                assert((prev + here)[q] == prev[q]);
            } else {
                assert((prev + here)[q] == here[q - prev.len()]);
            }
        }
    }
}

/// Every lookup match is genuine: it names a note, a field of that note (filename, title, alias or
/// English title) and that field's value, and the value has the query's normal form.
pub proof fn law_every_lookup_match_is_genuine(notes: Seq<Note>, query: Seq<char>, q: int)
    requires
        0 <= q < hits_upto(notes, normalize_spec(query), notes.len() as int).len(),
    ensures
        genuine_hit(
            notes,
            normalize_spec(query),
            hits_upto(notes, normalize_spec(query), notes.len() as int)[q],
        ),
{
    lemma_hits_genuine(notes, normalize_spec(query), notes.len() as int);
}

// ---------------------------------------------------------------------------------------------
// Deterministic order
// ---------------------------------------------------------------------------------------------

proof fn lemma_key_class_cons(h: Finding, t: Seq<Finding>, x: Finding)
    ensures
        key_class(seq![h] + t, x) == (if same_key(h, x) {
            seq![h]
        } else {
            Seq::empty()
        }) + key_class(t, x),
{
    Seq::filter_distributes_over_add(seq![h], t, |g: Finding| same_key(g, x));
    lemma_key_class_single(h, x);
}

/// The output order is fully determined: two sorted finding lists that agree on the order of
/// every group of same-key findings are identical. (So a sorted, stable report is a function of
/// the findings and their discovery order, and two scans diff cleanly.)
pub proof fn law_sorted_report_is_unique(a: Seq<Finding>, b: Seq<Finding>)
    requires
        sorted_findings(a),
        sorted_findings(b),
        forall|x: Finding| #[trigger] key_class(a, x) == key_class(b, x),
    ensures
        a == b,
    decreases a.len() + b.len(),
{
    if a.len() == 0 && b.len() == 0 {
        assert(a =~= b);
    } else if a.len() == 0 || b.len() == 0 {
        let (s, o) = if a.len() == 0 {
            (b, a)
        } else {
            (a, b)
        };
        let h = s[0];
        assert(s =~= seq![h] + s.drop_first());
        lemma_key_class_cons(h, s.drop_first(), h);
        lemma_finding_order(h, h, h);
        assert(key_class(s, h).len() > 0);
        assert(o =~= Seq::<Finding>::empty());
        assert(key_class(o, h) =~= Seq::<Finding>::empty()) by {
            reveal(Seq::filter);
        }
        assert(key_class(a, h) == key_class(b, h));
    } else {
        let a0 = a[0];
        let b0 = b[0];
        let at = a.drop_first();
        let bt = b.drop_first();
        assert(a =~= seq![a0] + at);
        assert(b =~= seq![b0] + bt);
        lemma_finding_order(a0, a0, a0);
        lemma_finding_order(b0, b0, b0);
        lemma_key_class_cons(a0, at, a0);
        lemma_key_class_cons(b0, bt, b0);
        lemma_key_class_cons(a0, at, b0);
        lemma_key_class_cons(b0, bt, a0);
        // a0 lies in b, so it is not before b0; and symmetrically.
        let ka = key_class(a, a0);
        assert(ka[0] == a0);
        let kb = key_class(b, a0);
        assert(kb == ka);
        let pa = |g: Finding| same_key(g, a0);
        b.lemma_filter_pred(pa, 0);
        assert(kb.contains(a0));
        b.lemma_filter_contains_rev(pa, a0);
        let j = choose|j: int| 0 <= j < b.len() && b[j] == a0;
        if j > 0 {
            assert(!finding_lt(b[j], b[0]));
        }
        let kb2 = key_class(b, b0);
        assert(kb2[0] == b0);
        let pb = |g: Finding| same_key(g, b0);
        assert(key_class(a, b0) == kb2);
        assert(key_class(a, b0).contains(b0));
        a.lemma_filter_contains_rev(pb, b0);
        let i = choose|i: int| 0 <= i < a.len() && a[i] == b0;
        if i > 0 {
            assert(!finding_lt(a[i], a[0]));
        }
        lemma_finding_order(a0, b0, b0);
        lemma_finding_order(b0, a0, a0);
        assert(same_key(a0, b0));
        assert(same_key(b0, a0));
        assert(kb[0] == b0);
        assert(a0 == b0);
        assert forall|x: Finding| #[trigger] key_class(at, x) == key_class(bt, x) by {
            lemma_key_class_cons(a0, at, x);
            lemma_key_class_cons(b0, bt, x);
            assert(key_class(a, x) == key_class(b, x));
            let pre: Seq<Finding> = if same_key(a0, x) {
                seq![a0]
            } else {
                Seq::empty()
            };
            assert(key_class(at, x) =~= (pre + key_class(at, x)).skip(pre.len() as int));
            assert(key_class(bt, x) =~= (pre + key_class(bt, x)).skip(pre.len() as int));
        }
        assert forall|p: int, q: int| 0 <= p < q < at.len() implies !finding_lt(
            #[trigger] at[q],
            #[trigger] at[p],
        ) by {
            assert(at[q] == a[q + 1] && at[p] == a[p + 1]);
        }
        assert forall|p: int, q: int| 0 <= p < q < bt.len() implies !finding_lt(
            #[trigger] bt[q],
            #[trigger] bt[p],
        ) by {
            assert(bt[q] == b[q + 1] && bt[p] == b[p + 1]);
        }
        law_sorted_report_is_unique(at, bt);
        assert(a =~= b);
    }
}

// ---------------------------------------------------------------------------------------------
// The packed report is determined by the findings
// ---------------------------------------------------------------------------------------------

proof fn lemma_seq_le_antisym(a: Seq<char>, b: Seq<char>)
    requires
        seq_le(a, b),
        seq_le(b, a),
    ensures
        a == b,
{
    crate::text::lemma_seq_lt_asym(a, b);
}

proof fn lemma_count_in_witness(fs: Seq<Finding>, d: Seq<char>, s: Severity, k: int)
    requires
        0 <= k <= fs.len(),
        count_in(fs, d, s, k) > 0,
    ensures
        exists|q: int| 0 <= q < k && domain_of_spec((#[trigger] fs[q]).path@) == d,
    decreases k,
{
    if count_in(fs, d, s, k - 1) > 0 {
        lemma_count_in_witness(fs, d, s, k - 1);
        let q = choose|q: int| 0 <= q < k - 1 && domain_of_spec((#[trigger] fs[q]).path@) == d;
    } else {
        assert(domain_of_spec(fs[k - 1].path@) == d);
    }
}

/// View-equality of two scoreboard rows.
pub open spec fn same_row(x: BoardRow, y: BoardRow) -> bool {
    x.domain@ == y.domain@ && x.errors == y.errors && x.warns == y.warns
}

proof fn lemma_board_unique(fs: Seq<Finding>, r1: Seq<BoardRow>, r2: Seq<BoardRow>)
    requires
        board_matches(fs, r1),
        board_matches(fs, r2),
    ensures
        r1.len() == r2.len(),
        forall|i: int| 0 <= i < r1.len() ==> same_row(#[trigger] r1[i], r2[i]),
{
    let key = |r: BoardRow| r.domain@;
    let eqv = |x: BoardRow, y: BoardRow| same_row(x, y);
    let n = fs.len() as int;
    assert forall|i: int| 0 <= i < r1.len() implies has_key(r2, key, key(#[trigger] r1[i])) by {
        let d = r1[i].domain@;
        if count_in(fs, d, Severity::Error, n) > 0 {
            lemma_count_in_witness(fs, d, Severity::Error, n);
        } else {
            lemma_count_in_witness(fs, d, Severity::Warn, n);
        }
        let q = choose|q: int| 0 <= q < n && domain_of_spec((#[trigger] fs[q]).path@) == d;
        let j = choose|j: int| 0 <= j < r2.len() && r2[j].domain@ == domain_of_spec(fs[q].path@);
        assert(key(r2[j]) == key(r1[i]));
    }
    assert forall|i: int| 0 <= i < r2.len() implies has_key(r1, key, key(#[trigger] r2[i])) by {
        let d = r2[i].domain@;
        if count_in(fs, d, Severity::Error, n) > 0 {
            lemma_count_in_witness(fs, d, Severity::Error, n);
        } else {
            lemma_count_in_witness(fs, d, Severity::Warn, n);
        }
        let q = choose|q: int| 0 <= q < n && domain_of_spec((#[trigger] fs[q]).path@) == d;
        let j = choose|j: int| 0 <= j < r1.len() && r1[j].domain@ == domain_of_spec(fs[q].path@);
        assert(key(r1[j]) == key(r2[i]));
    }
    assert forall|x: BoardRow, y: BoardRow| key(x) == key(y) && #[trigger] r1.contains(x)
        && #[trigger] r2.contains(y) implies eqv(x, y) by {
        let i = choose|i: int| 0 <= i < r1.len() && r1[i] == x;
        let j = choose|j: int| 0 <= j < r2.len() && r2[j] == y;
    }
    assert forall|x: BoardRow, y: BoardRow| #[trigger] x.ranks_le(&y) && #[trigger] y.ranks_le(&x)
        implies key(x) == key(y) by {
        if x.errors + x.warns == y.errors + y.warns && x.errors == y.errors {
            lemma_seq_le_antisym(x.domain@, y.domain@);
        }
    }
    lemma_sorted_unique(r1, r2, key, eqv);
}

proof fn lemma_first_cite_key(fs: Seq<Finding>, k: Seq<char>, m: int)
    requires
        0 <= m <= fs.len(),
    ensures
        match first_cite(fs, k, m) {
            Some(t) => normalize_spec(t) == k,
            None => true,
        },
    decreases m,
{
    if m > 0 {
        lemma_first_cite_key(fs, k, m - 1);
    }
}

proof fn lemma_cite_witness(fs: Seq<Finding>, k: Seq<char>, m: int)
    requires
        0 <= m <= fs.len(),
        cite_count(fs, k, m) > 0,
    ensures
        exists|q: int| 0 <= q < m && cites(#[trigger] fs[q], k),
    decreases m,
{
    if cite_count(fs, k, m - 1) > 0 {
        lemma_cite_witness(fs, k, m - 1);
        let q = choose|q: int| 0 <= q < m - 1 && cites(#[trigger] fs[q], k);
    } else {
        assert(cites(fs[m - 1], k));
    }
}

/// Two strictly sorted string lists with the same members are equal.
proof fn lemma_strict_unique(a: Seq<String>, b: Seq<String>)
    requires
        strictly_sorted(a),
        strictly_sorted(b),
        forall|s: Seq<char>| occurs(a, s, a.len() as int) <==> occurs(b, s, b.len() as int),
    ensures
        string_views(a) == string_views(b),
    decreases a.len() + b.len(),
{
    if a.len() == 0 || b.len() == 0 {
        if a.len() > 0 {
            assert(occurs(a, a[0]@, a.len() as int));
        }
        if b.len() > 0 {
            assert(occurs(b, b[0]@, b.len() as int));
        }
        assert(string_views(a) =~= string_views(b));
    } else {
        assert(occurs(a, a[0]@, a.len() as int));
        assert(occurs(b, b[0]@, b.len() as int));
        let j = choose|j: int| 0 <= j < b.len() && (#[trigger] b[j])@ == a[0]@;
        let i = choose|i: int| 0 <= i < a.len() && (#[trigger] a[i])@ == b[0]@;
        if j > 0 && i > 0 {
            assert(seq_lt(b[0]@, b[j]@));
            assert(seq_lt(a[0]@, a[i]@));
            crate::text::lemma_seq_lt_asym(a[0]@, b[0]@);
        }
        if j > 0 && i == 0 {
            assert(seq_lt(b[0]@, b[j]@));
            crate::text::lemma_seq_lt_irreflexive(a[0]@);
        }
        if i > 0 && j == 0 {
            assert(seq_lt(a[0]@, a[i]@));
            crate::text::lemma_seq_lt_irreflexive(b[0]@);
        }
        assert(a[0]@ == b[0]@);
        let at = a.drop_first();
        let bt = b.drop_first();
        assert forall|p: int, q: int| #![trigger at[p], at[q]] 0 <= p < q < at.len() implies seq_lt(
            at[p]@,
            at[q]@,
        ) by {
            assert(at[p] == a[p + 1] && at[q] == a[q + 1]);
        }
        assert forall|p: int, q: int| #![trigger bt[p], bt[q]] 0 <= p < q < bt.len() implies seq_lt(
            bt[p]@,
            bt[q]@,
        ) by {
            assert(bt[p] == b[p + 1] && bt[q] == b[q + 1]);
        }
        assert forall|s: Seq<char>| occurs(at, s, at.len() as int) <==> occurs(bt, s, bt.len() as int) by {
            if occurs(at, s, at.len() as int) {
                let p = choose|p: int| 0 <= p < at.len() && (#[trigger] at[p])@ == s;
                assert(a[p + 1] == at[p]);
                assert(seq_lt(a[0]@, a[p + 1]@));
                crate::text::lemma_seq_lt_irreflexive(s);
                assert(occurs(a, s, a.len() as int));
                let q = choose|q: int| 0 <= q < b.len() && (#[trigger] b[q])@ == s;
                assert(q != 0);
                assert(bt[q - 1] == b[q]);
            }
            if occurs(bt, s, bt.len() as int) {
                let p = choose|p: int| 0 <= p < bt.len() && (#[trigger] bt[p])@ == s;
                assert(b[p + 1] == bt[p]);
                assert(seq_lt(b[0]@, b[p + 1]@));
                crate::text::lemma_seq_lt_irreflexive(s);
                assert(occurs(b, s, b.len() as int));
                let q = choose|q: int| 0 <= q < a.len() && (#[trigger] a[q])@ == s;
                assert(q != 0);
                assert(at[q - 1] == a[q]);
            }
        }
        lemma_strict_unique(at, bt);
        assert(string_views(a) =~= seq![a[0]@] + string_views(at));
        assert(string_views(b) =~= seq![b[0]@] + string_views(bt));
    }
}

/// View-equality of two leverage entries.
pub open spec fn same_lev(x: Leverage, y: Leverage) -> bool {
    &&& x.target@ == y.target@
    &&& x.count == y.count
    &&& x.planned == y.planned
    &&& x.key@ == y.key@
    &&& string_views(x.domains@) == string_views(y.domains@)
}

proof fn lemma_leverage_unique(fs: Seq<Finding>, l1: Seq<Leverage>, l2: Seq<Leverage>)
    requires
        leverage_matches(fs, l1),
        leverage_matches(fs, l2),
    ensures
        l1.len() == l2.len(),
        forall|i: int| 0 <= i < l1.len() ==> same_lev(#[trigger] l1[i], l2[i]),
{
    let key = |l: Leverage| l.target@;
    let eqv = |x: Leverage, y: Leverage| same_lev(x, y);
    let n = fs.len() as int;
    assert forall|i: int| 0 <= i < l1.len() implies normalize_spec(#[trigger] l1[i].target@)
        == l1[i].key@ by {
        assert(leverage_ok(fs, l1[i]));
        lemma_first_cite_key(fs, l1[i].key@, n);
    }
    assert forall|i: int| 0 <= i < l2.len() implies normalize_spec(#[trigger] l2[i].target@)
        == l2[i].key@ by {
        assert(leverage_ok(fs, l2[i]));
        lemma_first_cite_key(fs, l2[i].key@, n);
    }
    assert forall|i: int, j: int| #![trigger l1[i], l1[j]] 0 <= i < j < l1.len() implies key(l1[i])
        != key(l1[j]) by {
        assert(normalize_spec(l1[i].target@) == l1[i].key@);
        assert(normalize_spec(l1[j].target@) == l1[j].key@);
    }
    assert forall|i: int, j: int| #![trigger l2[i], l2[j]] 0 <= i < j < l2.len() implies key(l2[i])
        != key(l2[j]) by {
        assert(normalize_spec(l2[i].target@) == l2[i].key@);
        assert(normalize_spec(l2[j].target@) == l2[j].key@);
    }
    assert forall|i: int| 0 <= i < l1.len() implies has_key(l2, key, key(#[trigger] l1[i])) by {
        let k = l1[i].key@;
        assert(leverage_ok(fs, l1[i]));
        lemma_cite_witness(fs, k, n);
        let q = choose|q: int| 0 <= q < n && cites(#[trigger] fs[q], k);
        let j = choose|j: int| 0 <= j < l2.len() && l2[j].key@ == normalize_spec(fs[q].target->0@);
        assert(leverage_ok(fs, l2[j]));
        assert(key(l2[j]) == key(l1[i]));
    }
    assert forall|i: int| 0 <= i < l2.len() implies has_key(l1, key, key(#[trigger] l2[i])) by {
        let k = l2[i].key@;
        assert(leverage_ok(fs, l2[i]));
        lemma_cite_witness(fs, k, n);
        let q = choose|q: int| 0 <= q < n && cites(#[trigger] fs[q], k);
        let j = choose|j: int| 0 <= j < l1.len() && l1[j].key@ == normalize_spec(fs[q].target->0@);
        assert(leverage_ok(fs, l1[j]));
        assert(key(l1[j]) == key(l2[i]));
    }
    assert forall|x: Leverage, y: Leverage| key(x) == key(y) && #[trigger] l1.contains(x)
        && #[trigger] l2.contains(y) implies eqv(x, y) by {
        let i = choose|i: int| 0 <= i < l1.len() && l1[i] == x;
        let j = choose|j: int| 0 <= j < l2.len() && l2[j] == y;
        assert(leverage_ok(fs, x) && leverage_ok(fs, y));
        assert(normalize_spec(x.target@) == x.key@);
        assert(normalize_spec(y.target@) == y.key@);
        assert forall|s: Seq<char>| occurs(x.domains@, s, x.domains@.len() as int) <==> occurs(
            y.domains@,
            s,
            y.domains@.len() as int,
        ) by {
            if occurs(x.domains@, s, x.domains@.len() as int) {
                let p = choose|p: int| 0 <= p < x.domains@.len() && (#[trigger] x.domains@[p])@ == s;
                assert(cited_from(fs, x.key@, x.domains@[p]@));
            }
            if occurs(y.domains@, s, y.domains@.len() as int) {
                let p = choose|p: int| 0 <= p < y.domains@.len() && (#[trigger] y.domains@[p])@ == s;
                assert(cited_from(fs, y.key@, y.domains@[p]@));
            }
        }
        lemma_strict_unique(x.domains@, y.domains@);
    }
    assert forall|x: Leverage, y: Leverage| #[trigger] x.ranks_le(&y) && #[trigger] y.ranks_le(&x)
        implies key(x) == key(y) by {
        if x.count == y.count {
            lemma_seq_le_antisym(x.target@, y.target@);
        }
    }
    lemma_sorted_unique(l1, l2, key, eqv);
}

proof fn lemma_group_first_witness(fs: Seq<Finding>, g: Seq<char>, m: int)
    requires
        0 <= m <= fs.len(),
    ensures
        match group_first(fs, g, m) {
            Some(f) => exists|k: int| 0 <= k < m && #[trigger] fs[k] == f && in_group(fs[k], g),
            None => true,
        },
    decreases m,
{
    if m > 0 {
        lemma_group_first_witness(fs, g, m - 1);
    }
}

/// An item of a section names a finding folded into that section's domain.
proof fn lemma_item_folded(fs: Seq<Finding>, it: Item, d: Seq<char>)
    requires
        item_ok(fs, it),
        it.domain@ == d,
    ensures
        exists|k: int|
            0 <= k < fs.len() && folded_into(fs, k, d) && group_key(#[trigger] fs[k]) == it.key@,
{
    lemma_group_first_witness(fs, it.key@, fs.len() as int);
    let f0 = group_first(fs, it.key@, fs.len() as int)->0;
    let k = choose|k: int| 0 <= k < fs.len() && #[trigger] fs[k] == f0 && in_group(fs[k], it.key@);
    assert(folded_into(fs, k, d));
}

/// View-equality of two folded items.
pub open spec fn same_item(x: Item, y: Item) -> bool {
    &&& x.severity == y.severity
    &&& x.message@ == y.message@
    &&& x.blast == y.blast
    &&& x.sample_path@ == y.sample_path@
    &&& x.key@ == y.key@
    &&& x.domain@ == y.domain@
}

proof fn lemma_items_unique(fs: Seq<Finding>, s1: Section, s2: Section)
    requires
        section_ok(fs, s1),
        section_ok(fs, s2),
        s1.domain@ == s2.domain@,
    ensures
        s1.items@.len() == s2.items@.len(),
        forall|i: int| 0 <= i < s1.items@.len() ==> same_item(#[trigger] s1.items@[i], s2.items@[i]),
{
    let a = s1.items@;
    let b = s2.items@;
    let d = s1.domain@;
    let key = |it: Item| it.key@;
    let eqv = |x: Item, y: Item| same_item(x, y);
    assert forall|i: int| 0 <= i < a.len() implies has_key(b, key, key(#[trigger] a[i])) by {
        lemma_item_folded(fs, a[i], d);
        let k = choose|k: int|
            0 <= k < fs.len() && folded_into(fs, k, d) && group_key(#[trigger] fs[k]) == a[i].key@;
        let j = choose|j: int| 0 <= j < b.len() && b[j].key@ == group_key(#[trigger] fs[k]);
        assert(key(b[j]) == key(a[i]));
    }
    assert forall|i: int| 0 <= i < b.len() implies has_key(a, key, key(#[trigger] b[i])) by {
        lemma_item_folded(fs, b[i], d);
        let k = choose|k: int|
            0 <= k < fs.len() && folded_into(fs, k, d) && group_key(#[trigger] fs[k]) == b[i].key@;
        let j = choose|j: int| 0 <= j < a.len() && a[j].key@ == group_key(#[trigger] fs[k]);
        assert(key(a[j]) == key(b[i]));
    }
    assert forall|x: Item, y: Item| key(x) == key(y) && #[trigger] a.contains(x) && #[trigger] b.contains(
        y,
    ) implies eqv(x, y) by {
        let i = choose|i: int| 0 <= i < a.len() && a[i] == x;
        let j = choose|j: int| 0 <= j < b.len() && b[j] == y;
        assert(item_ok(fs, x) && item_ok(fs, y));
    }
    assert forall|x: Item, y: Item| #[trigger] x.ranks_le(&y) && #[trigger] y.ranks_le(&x) implies key(x)
        == key(y) by {
        crate::text::lemma_seq_lt_asym(x.message@, y.message@);
        if x.message@ == y.message@ {
            crate::text::lemma_seq_lt_asym(x.key@, y.key@);
        }
    }
    lemma_sorted_unique(a, b, key, eqv);
}

/// View-equality of two domain sections.
pub open spec fn same_section(x: Section, y: Section) -> bool {
    &&& x.domain@ == y.domain@
    &&& x.blast == y.blast
    &&& x.items@.len() == y.items@.len()
    &&& forall|i: int| 0 <= i < x.items@.len() ==> same_item(#[trigger] x.items@[i], y.items@[i])
}

proof fn lemma_sections_unique(fs: Seq<Finding>, a: Seq<Section>, b: Seq<Section>)
    requires
        sections_matches(fs, a),
        sections_matches(fs, b),
    ensures
        a.len() == b.len(),
        forall|i: int| 0 <= i < a.len() ==> same_section(#[trigger] a[i], b[i]),
{
    let key = |s: Section| s.domain@;
    let eqv = |x: Section, y: Section| same_section(x, y);
    assert forall|i: int| 0 <= i < a.len() implies has_key(b, key, key(#[trigger] a[i])) by {
        let s = a[i];
        assert(section_ok(fs, s));
        assert(item_ok(fs, s.items@[0]));
        lemma_item_folded(fs, s.items@[0], s.domain@);
        let k = choose|k: int|
            0 <= k < fs.len() && folded_into(fs, k, s.domain@) && group_key(#[trigger] fs[k])
                == s.items@[0].key@;
        let j = choose|j: int| 0 <= j < b.len() && folded_into(fs, k, b[j].domain@);
        assert(key(b[j]) == key(a[i]));
    }
    assert forall|i: int| 0 <= i < b.len() implies has_key(a, key, key(#[trigger] b[i])) by {
        let s = b[i];
        assert(section_ok(fs, s));
        assert(item_ok(fs, s.items@[0]));
        lemma_item_folded(fs, s.items@[0], s.domain@);
        let k = choose|k: int|
            0 <= k < fs.len() && folded_into(fs, k, s.domain@) && group_key(#[trigger] fs[k])
                == s.items@[0].key@;
        let j = choose|j: int| 0 <= j < a.len() && folded_into(fs, k, a[j].domain@);
        assert(key(a[j]) == key(b[i]));
    }
    assert forall|x: Section, y: Section| key(x) == key(y) && #[trigger] a.contains(x)
        && #[trigger] b.contains(y) implies eqv(x, y) by {
        let i = choose|i: int| 0 <= i < a.len() && a[i] == x;
        let j = choose|j: int| 0 <= j < b.len() && b[j] == y;
        assert(section_ok(fs, x) && section_ok(fs, y));
        lemma_items_unique(fs, x, y);
    }
    assert forall|x: Section, y: Section| #[trigger] x.ranks_le(&y) && #[trigger] y.ranks_le(&x)
        implies key(x) == key(y) by {
        if x.blast == y.blast {
            lemma_seq_le_antisym(x.domain@, y.domain@);
        }
    }
    lemma_sorted_unique(a, b, key, eqv);
}

proof fn lemma_section_renders_alike(x: Section, y: Section)
    requires
        same_section(x, y),
    ensures
        human_section(x) == human_section(y),
        md_section(x) == md_section(y),
{
    let hx = x.items@.map_values(|i: Item| human_item_line(i));
    let hy = y.items@.map_values(|i: Item| human_item_line(i));
    assert forall|i: int| 0 <= i < hx.len() implies #[trigger] hx[i] == hy[i] by {
        assert(same_item(x.items@[i], y.items@[i]));
    }
    assert(hx =~= hy);
    let mx = x.items@.map_values(|i: Item| md_item_line(i));
    let my = y.items@.map_values(|i: Item| md_item_line(i));
    assert forall|i: int| 0 <= i < mx.len() implies #[trigger] mx[i] == my[i] by {
        assert(same_item(x.items@[i], y.items@[i]));
    }
    assert(mx =~= my);
}

/// A scoreboard row's count at severity `s`: its errors for `Error`, its warns otherwise.
pub open spec fn row_at(r: BoardRow, s: Severity) -> int {
    if s == Severity::Error {
        r.errors as int
    } else {
        r.warns as int
    }
}

/// The scoreboard's counts at severity `s`, summed over its rows.
pub open spec fn board_sum(rows: Seq<BoardRow>, s: Severity) -> int
    decreases rows.len(),
{
    if rows.len() == 0 {
        0
    } else {
        board_sum(rows.drop_last(), s) + row_at(rows.last(), s)
    }
}

/// The findings among the first `k` at severity `s` in the domains of `rows`, summed per row.
spec fn board_over(fs: Seq<Finding>, rows: Seq<BoardRow>, s: Severity, k: int) -> int
    decreases rows.len(),
{
    if rows.len() == 0 {
        0
    } else {
        board_over(fs, rows.drop_last(), s, k) + count_in(fs, rows.last().domain@, s, k)
    }
}

/// How many rows are for domain `d`.
spec fn row_occurrences(rows: Seq<BoardRow>, d: Seq<char>) -> int
    decreases rows.len(),
{
    if rows.len() == 0 {
        0
    } else {
        row_occurrences(rows.drop_last(), d) + if rows.last().domain@ == d {
            1int
        } else {
            0int
        }
    }
}

proof fn lemma_board_over_step(fs: Seq<Finding>, rows: Seq<BoardRow>, s: Severity, k: int)
    requires
        0 <= k < fs.len(),
    ensures
        board_over(fs, rows, s, k + 1) == board_over(fs, rows, s, k) + if fs[k].severity == s {
            row_occurrences(rows, domain_of_spec(fs[k].path@))
        } else {
            0
        },
    decreases rows.len(),
{
    if rows.len() > 0 {
        lemma_board_over_step(fs, rows.drop_last(), s, k);
    }
}

proof fn lemma_board_over_zero(fs: Seq<Finding>, rows: Seq<BoardRow>, s: Severity)
    ensures
        board_over(fs, rows, s, 0) == 0,
    decreases rows.len(),
{
    if rows.len() > 0 {
        lemma_board_over_zero(fs, rows.drop_last(), s);
    }
}

proof fn lemma_row_occurrences(rows: Seq<BoardRow>, d: Seq<char>)
    requires
        forall|i: int, j: int|
            #![trigger rows[i], rows[j]]
            0 <= i < j < rows.len() ==> rows[i].domain@ != rows[j].domain@,
    ensures
        (exists|i: int| 0 <= i < rows.len() && rows[i].domain@ == d) ==> row_occurrences(rows, d)
            == 1,
        (forall|i: int| 0 <= i < rows.len() ==> rows[i].domain@ != d) ==> row_occurrences(rows, d)
            == 0,
    decreases rows.len(),
{
    if rows.len() > 0 {
        let init = rows.drop_last();
        assert forall|i: int, j: int|
            #![trigger init[i], init[j]]
            0 <= i < j < init.len() implies init[i].domain@ != init[j].domain@ by {
            assert(init[i] == rows[i] && init[j] == rows[j]);
        }
        lemma_row_occurrences(init, d);
        if rows.last().domain@ == d {
            assert forall|i: int| 0 <= i < init.len() implies init[i].domain@ != d by {
                assert(init[i] == rows[i]);
                assert(rows[i].domain@ != rows[rows.len() - 1].domain@);
            }
        } else {
            if exists|i: int| 0 <= i < rows.len() && rows[i].domain@ == d {
                let i = choose|i: int| 0 <= i < rows.len() && rows[i].domain@ == d;
                assert(init[i] == rows[i]);
            }
            assert forall|i: int|
                0 <= i < init.len() && (forall|i: int| 0 <= i < rows.len() ==> rows[i].domain@ != d)
                implies init[i].domain@ != d by {
                assert(init[i] == rows[i]);
            }
        }
    }
}

proof fn lemma_count_in_mono(fs: Seq<Finding>, d: Seq<char>, s: Severity, a: int, b: int)
    requires
        0 <= a <= b,
    ensures
        count_in(fs, d, s, a) <= count_in(fs, d, s, b),
    decreases b - a,
{
    if a < b {
        lemma_count_in_mono(fs, d, s, a, b - 1);
    }
}

proof fn lemma_board_over_total(fs: Seq<Finding>, rows: Seq<BoardRow>, s: Severity, k: int)
    requires
        board_matches(fs, rows),
        s != Severity::Info,
        0 <= k <= fs.len(),
    ensures
        board_over(fs, rows, s, k) == count_sev(fs, s, k),
    decreases k,
{
    if k == 0 {
        lemma_board_over_zero(fs, rows, s);
    } else {
        lemma_board_over_total(fs, rows, s, k - 1);
        lemma_board_over_step(fs, rows, s, k - 1);
        lemma_row_occurrences(rows, domain_of_spec(fs[k - 1].path@));
        if fs[k - 1].severity == s {
            let d = domain_of_spec(fs[k - 1].path@);
            let n = fs.len() as int;
            lemma_count_in_mono(fs, d, s, k, n);
            assert(count_in(fs, d, s, k) >= 1);
            assert(debt(fs, d) > 0);
        }
    }
}

proof fn lemma_board_sum_is_over(
    fs: Seq<Finding>,
    all_rows: Seq<BoardRow>,
    rows: Seq<BoardRow>,
    s: Severity,
)
    requires
        board_matches(fs, all_rows),
        s != Severity::Info,
        rows.len() <= all_rows.len(),
        rows == all_rows.take(rows.len() as int),
    ensures
        board_sum(rows, s) == board_over(fs, rows, s, fs.len() as int),
    decreases rows.len(),
{
    if rows.len() > 0 {
        let m = rows.len() - 1;
        assert(rows.drop_last() =~= all_rows.take(m));
        lemma_board_sum_is_over(fs, all_rows, rows.drop_last(), s);
        assert(rows.last() == all_rows[m]);
        let r = all_rows[m];
        assert(r.errors == count_in(fs, r.domain@, Severity::Error, fs.len() as int));
    }
}

/// The scoreboard adds up: its error column sums to the number of `Error` findings and its warn
/// column to the number of `Warn` findings.
pub proof fn law_scoreboard_sums_to_the_counts(fs: Seq<Finding>, p: Packed)
    requires
        packed_matches(fs, p),
    ensures
        board_sum(p.scoreboard@, Severity::Error) == count_sev(fs, Severity::Error, fs.len() as int),
        board_sum(p.scoreboard@, Severity::Warn) == count_sev(fs, Severity::Warn, fs.len() as int),
        board_sum(p.scoreboard@, Severity::Error) == p.errors,
        board_sum(p.scoreboard@, Severity::Warn) == p.warns,
{
    let rows = p.scoreboard@;
    assert(rows =~= rows.take(rows.len() as int));
    lemma_board_sum_is_over(fs, rows, rows, Severity::Error);
    lemma_board_sum_is_over(fs, rows, rows, Severity::Warn);
    lemma_board_over_total(fs, rows, Severity::Error, fs.len() as int);
    lemma_board_over_total(fs, rows, Severity::Warn, fs.len() as int);
}

proof fn lemma_cite_count_mono(fs: Seq<Finding>, key: Seq<char>, a: int, b: int)
    requires
        0 <= a <= b,
    ensures
        cite_count(fs, key, a) <= cite_count(fs, key, b),
    decreases b - a,
{
    if a < b {
        lemma_cite_count_mono(fs, key, a, b - 1);
    }
}

/// The findings among the first `k` of rule `link.broken` or `link.title_not_alias` whose target
/// normalizes to `key`.
pub open spec fn link_cites(fs: Seq<Finding>, key: Seq<char>, k: int) -> nat
    decreases k,
{
    if k <= 0 {
        0
    } else {
        link_cites(fs, key, k - 1) + if (fs[k - 1].rule_id@ == "link.broken"@ || fs[k
            - 1].rule_id@ == "link.title_not_alias"@) && fs[k - 1].target is Some && normalize_spec(
            fs[k - 1].target->0@,
        ) == key {
            1nat
        } else {
            0nat
        }
    }
}

proof fn lemma_link_cites(fs: Seq<Finding>, key: Seq<char>, k: int)
    ensures
        cite_count(fs, key, k) == link_cites(fs, key, k),
    decreases k,
{
    if k > 0 {
        lemma_link_cites(fs, key, k - 1);
    }
}

/// Each leverage entry counts exactly the findings of rule `link.broken` or `link.title_not_alias`
/// whose target normalizes to its key: no other finding counts, and none of those is left out.
pub proof fn law_leverage_counts_link_findings(fs: Seq<Finding>, ls: Seq<Leverage>, e: int)
    requires
        leverage_matches(fs, ls),
        0 <= e < ls.len(),
    ensures
        ls[e].count == link_cites(fs, ls[e].key@, fs.len() as int),
{
    assert(leverage_ok(fs, ls[e]));
    lemma_link_cites(fs, ls[e].key@, fs.len() as int);
}

/// A target cited by two broken or title-not-alias links is leveraged: whenever two findings of
/// rule `link.broken` or `link.title_not_alias` name targets with the same normal form, the
/// leverage list holds an entry for that normalized target, counting at least both.
pub proof fn law_link_findings_are_leveraged(fs: Seq<Finding>, ls: Seq<Leverage>, i: int, j: int)
    requires
        leverage_matches(fs, ls),
        0 <= i < j < fs.len(),
        fs[i].rule_id@ == "link.broken"@ || fs[i].rule_id@ == "link.title_not_alias"@,
        fs[j].rule_id@ == "link.broken"@ || fs[j].rule_id@ == "link.title_not_alias"@,
        fs[i].target is Some,
        fs[j].target is Some,
        normalize_spec(fs[i].target->0@) == normalize_spec(fs[j].target->0@),
    ensures
        exists|e: int|
            0 <= e < ls.len() && ls[e].key@ == normalize_spec(fs[i].target->0@) && ls[e].count
                >= 2,
{
    let key = normalize_spec(fs[i].target->0@);
    let n = fs.len() as int;
    assert(cites(fs[i], key));
    assert(cites(fs[j], key));
    lemma_cite_count_mono(fs, key, i + 1, j);
    lemma_cite_count_mono(fs, key, j + 1, n);
    assert(cite_count(fs, key, n) >= 2);
    assert(crate::report::is_link_finding(fs[i]));
    let e = choose|e: int| 0 <= e < ls.len() && ls[e].key@ == key;
    assert(leverage_ok(fs, ls[e]));
}

/// The markdown report opens with its frontmatter (no timestamp) and a count line of all, `Error`,
/// `Warn` and hidden (`Info`) findings, then its body; it closes with a details block exactly when
/// some finding is `Info`, and that block ends with one line per `Info` finding, in order.
pub proof fn law_markdown_header_and_hidden_block(fs: Seq<Finding>, p: Packed)
    requires
        packed_matches(fs, p),
    ensures
        has_prefix(
            markdown_spec(fs, p),
            "---\ntype: report\ntool: kura\n---\n\n# kura check\n\n"@ + decimal(fs.len())
                + " findings — **"@ + decimal(count_sev(fs, Severity::Error, fs.len() as int))
                + " error**, **"@ + decimal(count_sev(fs, Severity::Warn, fs.len() as int))
                + " warn**, "@ + decimal(count_sev(fs, Severity::Info, fs.len() as int))
                + " hidden.\n\n"@,
        ),
        markdown_spec(fs, p) == md_head(fs.len(), p) + md_body(p) + md_details(fs, p),
        (count_sev(fs, Severity::Info, fs.len() as int) == 0) == (md_details(fs, p).len() == 0),
        count_sev(fs, Severity::Info, fs.len() as int) > 0 ==> has_prefix(
            md_details(fs, p),
            "<details><summary>"@,
        ) && has_suffix(
            markdown_spec(fs, p),
            md_info_lines(fs, fs.len() as int) + "\n</details>\n"@,
        ),
{
    crate::report::lemma_counts(fs, fs.len() as int);
    let n = fs.len() as int;
    let h = md_head(fs.len(), p);
    let m = markdown_spec(fs, p);
    assert(m =~= h + (md_body(p) + md_details(fs, p)));
    assert(m.take(h.len() as int) =~= h);
    if count_sev(fs, Severity::Info, n) > 0 {
        let d = md_details(fs, p);
        reveal_strlit("<details><summary>");
        assert(d.take(18) =~= "<details><summary>"@);
        let sfx = md_info_lines(fs, n) + "\n</details>\n"@;
        assert(m.skip(m.len() - sfx.len()) =~= sfx);
    }
}

/// The rendered reports are a function of the findings: every packing that meets the packing
/// contract renders to the same terminal report and the same markdown report.
pub proof fn law_report_rendering_is_determined(fs: Seq<Finding>, p1: Packed, p2: Packed)
    requires
        packed_matches(fs, p1),
        packed_matches(fs, p2),
    ensures
        human_spec(fs.len(), p1) == human_spec(fs.len(), p2),
        markdown_spec(fs, p1) == markdown_spec(fs, p2),
{
    lemma_board_unique(fs, p1.scoreboard@, p2.scoreboard@);
    lemma_leverage_unique(fs, p1.leverage@, p2.leverage@);
    lemma_sections_unique(fs, p1.domains@, p2.domains@);
    assert(p1.planned == p2.planned);
    let (r1, r2) = (p1.scoreboard@, p2.scoreboard@);
    assert(r1.map_values(|r: BoardRow| human_board_line(r)) =~= r2.map_values(
        |r: BoardRow| human_board_line(r),
    )) by {
        assert forall|i: int| 0 <= i < r1.len() implies same_row(#[trigger] r1[i], r2[i]) by {}
    }
    assert(r1.map_values(|r: BoardRow| md_board_line(r)) =~= r2.map_values(
        |r: BoardRow| md_board_line(r),
    )) by {
        assert forall|i: int| 0 <= i < r1.len() implies same_row(#[trigger] r1[i], r2[i]) by {}
    }
    let (t1, t2) = (top5(p1.leverage@), top5(p2.leverage@));
    assert forall|i: int| 0 <= i < t1.len() implies same_lev(#[trigger] t1[i], t2[i]) by {
        assert(t1[i] == p1.leverage@[i] && t2[i] == p2.leverage@[i]);
    }
    assert(t1.map_values(|l: Leverage| human_lev_line(l)) =~= t2.map_values(
        |l: Leverage| human_lev_line(l),
    ));
    assert(t1.map_values(|l: Leverage| md_lev_line(l)) =~= t2.map_values(
        |l: Leverage| md_lev_line(l),
    ));
    let (d1, d2) = (p1.domains@, p2.domains@);
    assert forall|i: int| 0 <= i < d1.len() implies human_section(#[trigger] d1[i]) == human_section(
        d2[i],
    ) && md_section(d1[i]) == md_section(d2[i]) by {
        lemma_section_renders_alike(d1[i], d2[i]);
    }
    assert(d1.map_values(|s: Section| human_section(s)) =~= d2.map_values(
        |s: Section| human_section(s),
    ));
    assert(d1.map_values(|s: Section| md_section(s)) =~= d2.map_values(|s: Section| md_section(s)));
}

// ---------------------------------------------------------------------------------------------
// The check is determined by the vault
// ---------------------------------------------------------------------------------------------

proof fn lemma_empty_iff_no_members(a: Seq<Seq<char>>, b: Seq<Seq<char>>)
    requires
        a.to_set() == b.to_set(),
    ensures
        (a.len() == 0) == (b.len() == 0),
{
    if a.len() > 0 {
        assert(a.to_set().contains(a[0]));
        assert(b.to_set().contains(a[0]));
    }
    if b.len() > 0 {
        assert(b.to_set().contains(b[0]));
        assert(a.to_set().contains(b[0]));
    }
}

proof fn lemma_note_findings_alike(g1: Graph, g2: Graph, src: Note, m: int)
    requires
        g1.notes@ == g2.notes@,
        forall|k: Seq<char>| #[trigger] g1.symbols.members_of(k).to_set() == g2.symbols.members_of(
            k,
        ).to_set(),
    ensures
        note_findings(g1, src, m) == note_findings(g2, src, m),
    decreases m,
{
    if m > 0 {
        lemma_note_findings_alike(g1, g2, src, m - 1);
        let k = normalize_spec(src.wikilinks@[m - 1].target@);
        lemma_empty_iff_no_members(g1.symbols.members_of(k), g2.symbols.members_of(k));
    }
}

proof fn lemma_link_health_alike(g1: Graph, g2: Graph, n: int)
    requires
        g1.notes@ == g2.notes@,
        forall|k: Seq<char>| #[trigger] g1.symbols.members_of(k).to_set() == g2.symbols.members_of(
            k,
        ).to_set(),
    ensures
        link_health_spec(g1, n) == link_health_spec(g2, n),
    decreases n,
{
    if n > 0 {
        lemma_link_health_alike(g1, g2, n - 1);
        let src = g1.notes@[n - 1];
        lemma_note_findings_alike(g1, g2, src, src.wikilinks@.len() as int);
    }
}

/// The findings are a function of the vault: any two link graphs of the same notes and resources
/// yield the same findings.
pub proof fn law_findings_are_determined(
    notes: Seq<Note>,
    resources: Seq<String>,
    g1: Graph,
    g2: Graph,
)
    requires
        graph_of(g1, notes, resources),
        graph_of(g2, notes, resources),
    ensures
        run_spec(g1) == run_spec(g2),
{
    lemma_link_health_alike(g1, g2, notes.len() as int);
}

// ---------------------------------------------------------------------------------------------
// Anchors
// ---------------------------------------------------------------------------------------------

proof fn lemma_before_first_absent(s: Seq<char>, c: char)
    requires
        !s.contains(c),
    ensures
        before_first(s, c) == s,
    decreases s.len(),
{
    if s.len() > 0 {
        assert(!s.drop_first().contains(c)) by {
            if s.drop_first().contains(c) {
                let j = choose|j: int| 0 <= j < s.drop_first().len() && s.drop_first()[j] == c;
                assert(s[j + 1] == c);
            }
        }
        lemma_before_first_absent(s.drop_first(), c);
        assert(s =~= seq![s[0]] + s.drop_first());
    }
}

proof fn lemma_before_first_cut(t: Seq<char>, c: char, h: Seq<char>)
    requires
        !t.contains(c),
    ensures
        before_first(t + seq![c] + h, c) == t,
    decreases t.len(),
{
    let s = t + seq![c] + h;
    if t.len() == 0 {
        assert(s[0] == c);
    } else {
        assert(!t.drop_first().contains(c)) by {
            if t.drop_first().contains(c) {
                let j = choose|j: int| 0 <= j < t.drop_first().len() && t.drop_first()[j] == c;
                assert(t[j + 1] == c);
            }
        }
        lemma_before_first_cut(t.drop_first(), c, h);
        assert(s.drop_first() =~= t.drop_first() + seq![c] + h);
        assert(t =~= seq![t[0]] + t.drop_first());
    }
}

proof fn lemma_trim_backslashes_concat(a: Seq<char>, b: Seq<char>)
    requires
        a.len() > 0,
        a.last() != '\\',
    ensures
        exists|k: int| 0 <= k <= b.len() && trim_end_backslashes(a + b) == a + b.take(k),
    decreases b.len(),
{
    if b.len() == 0 {
        assert(a + b =~= a);
        assert(a + b.take(0) =~= a);
    } else if b.last() == '\\' {
        assert((a + b).drop_last() =~= a + b.drop_last());
        lemma_trim_backslashes_concat(a, b.drop_last());
        let k = choose|k: int|
            0 <= k <= b.drop_last().len() && trim_end_backslashes(a + b.drop_last()) == a
                + b.drop_last().take(k);
        assert(b.drop_last().take(k) =~= b.take(k));
    } else {
        assert(b.take(b.len() as int) =~= b);
    }
}

/// An anchor never changes where a link goes: `[[X#heading]]` and `[[X^block]]` name the same
/// note as `[[X]]` (the anchor itself is not checked), for any plain name `X` (no `|`, `#`, `^`,
/// no trailing backslash) and any anchor text without a `|`.
pub proof fn law_anchor_does_not_change_the_target(t: Seq<char>, mark: char, anchor: Seq<char>)
    requires
        mark == '#' || mark == '^',
        !t.contains('|'),
        !t.contains('#'),
        !t.contains('^'),
        t.len() == 0 || t.last() != '\\',
        !anchor.contains('|'),
    ensures
        strip_target_spec(t + seq![mark] + anchor) == strip_target_spec(t),
{
    let s = t + seq![mark] + anchor;
    assert(!s.contains('|')) by {
        if s.contains('|') {
            let j = choose|j: int| 0 <= j < s.len() && s[j] == '|';
            if j < t.len() {
                assert(t[j] == '|');
            } else if j > t.len() {
                assert(anchor[j - t.len() - 1] == '|');
            }
        }
    }
    lemma_before_first_absent(s, '|');
    lemma_before_first_absent(t, '|');
    let a = t + seq![mark];
    assert(s =~= a + anchor);
    lemma_trim_backslashes_concat(a, anchor);
    let k = choose|k: int| 0 <= k <= anchor.len() && trim_end_backslashes(a + anchor) == a + anchor.take(k);
    let r = t + seq![mark] + anchor.take(k);
    assert(trim_end_backslashes(s) == r);
    if t.len() == 0 {
        assert(trim_end_backslashes(t) == t);
    } else {
        assert(trim_end_backslashes(t) == t);
    }
    lemma_before_first_absent(t, '#');
    lemma_before_first_absent(t, '^');
    if mark == '#' {
        lemma_before_first_cut(t, '#', anchor.take(k));
    } else {
        lemma_before_first_cut(t, '^', before_first(anchor.take(k), '#'));
        assert(!a.contains('#')) by {
            if a.contains('#') {
                let j = choose|j: int| 0 <= j < a.len() && a[j] == '#';
                if j < t.len() {
                    assert(t[j] == '#');
                }
            }
        }
        lemma_before_first_prefix(a, anchor.take(k), '#');
    }
}

/// Cutting at `c` after a prefix that has no `c` keeps the prefix.
proof fn lemma_before_first_prefix(a: Seq<char>, b: Seq<char>, c: char)
    requires
        !a.contains(c),
    ensures
        before_first(a + b, c) == a + before_first(b, c),
    decreases a.len(),
{
    if a.len() == 0 {
        assert(a + b =~= b);
        assert(a + before_first(b, c) =~= before_first(b, c));
    } else {
        assert(!a.drop_first().contains(c)) by {
            if a.drop_first().contains(c) {
                let j = choose|j: int| 0 <= j < a.drop_first().len() && a.drop_first()[j] == c;
                assert(a[j + 1] == c);
            }
        }
        lemma_before_first_prefix(a.drop_first(), b, c);
        assert((a + b).drop_first() =~= a.drop_first() + b);
        assert(a + before_first(b, c) =~= seq![a[0]] + (a.drop_first() + before_first(b, c)));
    }
}

// ---------------------------------------------------------------------------------------------
// Notes
// ---------------------------------------------------------------------------------------------

/// Frontmatter that yields no entries (it did not load, or its first document is not a mapping)
/// sets no field: every scalar is `None` and every list empty, so it invents no alias or
/// provenance link. A list field written as a single string reads as a one-item list.
pub proof fn law_unreadable_frontmatter_sets_no_field(
    n: Note,
    path: Seq<char>,
    content: Seq<char>,
    entries: Seq<(Option<Seq<char>>, YamlValueV)>,
    events: Seq<MdEventV>,
)
    requires
        note_built(n, path, content, entries, events),
    ensures
        entries.len() == 0 ==> {
            &&& n.title is None && n.title_en is None && n.note_type is None
            &&& n.domain is None && n.status is None && n.source_kind is None
            &&& n.slug is None && n.evolution_predecessor is None
            &&& n.aliases@.len() == 0 && n.topics@.len() == 0 && n.based_on@.len() == 0
            &&& n.related@.len() == 0 && n.evolution_successors@.len() == 0
        },
        !n.no_frontmatter ==> match fm_lookup(fm_entries(entries), "aliases"@) {
            Some(FmValueV::Str(v)) => views(n.aliases@) == seq![v],
            _ => true,
        },
{
    reveal_strlit("aliases");
    assert("aliases"@ =~= seq!['a', 'l', 'i', 'a', 's', 'e', 's']);
    if entries.len() == 0 {
        assert(fm_entries(entries) =~= Seq::<(Seq<char>, FmValueV)>::empty());
        assert(views(n.aliases@).len() == 0);
        assert(views(n.topics@).len() == 0);
        assert(views(n.based_on@).len() == 0);
        assert(views(n.related@).len() == 0);
        assert(views(n.evolution_successors@).len() == 0);
    }
}

/// A plain relative file path: non-empty, not site-absolute (`/`) or home-relative (`~`), not a
/// URL (`://`), and free of `%` (percent-encoding), `*` (globs) and `<`/`>` (placeholders).
pub open spec fn plain_relative_path(t: Seq<char>) -> bool {
    &&& t.len() > 0
    &&& t[0] != '/'
    &&& t[0] != '~'
    &&& !contains_seq(t, seq![':', '/', '/'])
    &&& !t.contains('%')
    &&& !t.contains('*')
    &&& !t.contains('<')
    &&& !t.contains('>')
}

proof fn lemma_refs_are_plain(events: Seq<MdEventV>, k: int, b: Seq<u8>, line: int)
    ensures
        forall|i: int|
            0 <= i < path_refs_upto(events, k, b, line).len() ==> plain_relative_path(
                (#[trigger] path_refs_upto(events, k, b, line)[i]).0,
            ),
    decreases k,
{
    if k > 0 {
        lemma_refs_are_plain(events, k - 1, b, line);
        let prev = path_refs_upto(events, k - 1, b, line);
        let cur = path_refs_upto(events, k, b, line);
        assert forall|i: int| 0 <= i < cur.len() implies plain_relative_path((#[trigger] cur[i]).0) by {
            if i < prev.len() {
                match events[k - 1] {
                    MdEventV::LinkStart(st, dest) => match file_link_spec(dest) {
                        Some(t) => assert(cur[i] == prev[i]),
                        None => {},
                    },
                    MdEventV::Code(st, _, text) => match backtick_path_spec(text) {
                        Some(t) => assert(cur[i] == prev[i]),
                        None => {},
                    },
                    _ => {},
                }
            }
        }
    }
}

/// Only plain relative paths are checked: every file reference extracted from any body (a
/// markdown link destination or a backticked token), and so every path reference of a note built
/// from a file, is a plain relative path. In particular a percent-encoded path (one holding `%`),
/// a URL, a glob or a placeholder is never a reference, and `link.broken.path` can never report
/// it as broken.
pub proof fn law_only_plain_relative_paths_are_checked(
    n: Note,
    path: Seq<char>,
    content: Seq<char>,
    entries: Seq<(Option<Seq<char>>, YamlValueV)>,
    events: Seq<MdEventV>,
    body: Seq<char>,
    line: int,
)
    requires
        note_built(n, path, content, entries, events),
    ensures
        forall|i: int|
            0 <= i < path_refs_in(body, events, line).len() ==> plain_relative_path(
                (#[trigger] path_refs_in(body, events, line)[i]).0,
            ),
        forall|i: int|
            0 <= i < n.path_refs@.len() ==> plain_relative_path((#[trigger] n.path_refs@[i]).target@),
{
    lemma_refs_are_plain(events, events.len() as int, encode_utf8(body), line);
    let (_, bd, ln) = crate::note::split_frontmatter_spec(content);
    lemma_refs_are_plain(events, events.len() as int, encode_utf8(bd), ln);
    assert forall|i: int| 0 <= i < n.path_refs@.len() implies plain_relative_path(
        (#[trigger] n.path_refs@[i]).target@,
    ) by {
        assert(n.path_refs@.map_values(|r: PathRef| r@)[i] == n.path_refs@[i]@);
    }
}

// ---------------------------------------------------------------------------------------------
// Alias collisions
// ---------------------------------------------------------------------------------------------

/// `q` with `x` inserted in code-point order (unchanged when `x` is already there).
spec fn insert_sorted_spec(q: Seq<Seq<char>>, x: Seq<char>) -> Seq<Seq<char>>
    decreases q.len(),
{
    if q.len() == 0 {
        seq![x]
    } else if q[0] == x {
        q
    } else if seq_lt(x, q[0]) {
        seq![x] + q
    } else {
        seq![q[0]] + insert_sorted_spec(q.drop_first(), x)
    }
}

proof fn lemma_insert_sorted_spec(q: Seq<Seq<char>>, x: Seq<char>)
    requires
        sorted_strict(q),
    ensures
        sorted_strict(insert_sorted_spec(q, x)),
        insert_sorted_spec(q, x).to_set() == q.to_set().insert(x),
    decreases q.len(),
{
    let r = insert_sorted_spec(q, x);
    if q.len() == 0 {
        assert(r.to_set() =~= q.to_set().insert(x)) by {
            assert(r[0] == x);
        }
    } else if q[0] == x {
        assert(r.to_set() =~= q.to_set().insert(x)) by {
            assert(q.to_set().contains(q[0]));
        }
    } else if seq_lt(x, q[0]) {
        assert forall|i: int, j: int| 0 <= i < j < r.len() implies seq_lt(
            #[trigger] r[i],
            #[trigger] r[j],
        ) by {
            if i == 0 {
                assert(r[j] == q[j - 1]);
                if j - 1 > 0 {
                    assert(seq_lt(q[0], q[j - 1]));
                    crate::text::lemma_seq_lt_trans(x, q[0], q[j - 1]);
                }
            } else {
                assert(r[i] == q[i - 1] && r[j] == q[j - 1]);
            }
        }
        assert(r.to_set() =~= q.to_set().insert(x)) by {
            assert forall|y: Seq<char>| r.to_set().contains(y) implies q.to_set().insert(x).contains(
                y,
            ) by {
                let w = choose|w: int| 0 <= w < r.len() && r[w] == y;
                if w > 0 {
                    assert(r[w] == q[w - 1]);
                }
            }
            assert forall|y: Seq<char>| q.to_set().insert(x).contains(y) implies r.to_set().contains(
                y,
            ) by {
                if y == x {
                    assert(r[0] == x);
                } else {
                    let w = choose|w: int| 0 <= w < q.len() && q[w] == y;
                    assert(r[w + 1] == y);
                }
            }
        }
    } else {
        let t = q.drop_first();
        assert(sorted_strict(t)) by {
            assert forall|i: int, j: int| 0 <= i < j < t.len() implies seq_lt(
                #[trigger] t[i],
                #[trigger] t[j],
            ) by {
                assert(t[i] == q[i + 1] && t[j] == q[j + 1]);
            }
        }
        lemma_insert_sorted_spec(t, x);
        let rest = insert_sorted_spec(t, x);
        assert(r == seq![q[0]] + rest);
        crate::text::lemma_seq_lt_total(x, q[0]);
        assert forall|i: int, j: int| 0 <= i < j < r.len() implies seq_lt(
            #[trigger] r[i],
            #[trigger] r[j],
        ) by {
            if i == 0 {
                assert(r[j] == rest[j - 1]);
                assert(rest.to_set().contains(rest[j - 1]));
                if rest[j - 1] != x {
                    let w = choose|w: int| 0 <= w < t.len() && t[w] == rest[j - 1];
                    assert(t[w] == q[w + 1]);
                }
            } else {
                assert(r[i] == rest[i - 1] && r[j] == rest[j - 1]);
            }
        }
        assert(r.to_set() =~= q.to_set().insert(x)) by {
            assert forall|y: Seq<char>| r.to_set().contains(y) implies q.to_set().insert(x).contains(
                y,
            ) by {
                let w = choose|w: int| 0 <= w < r.len() && r[w] == y;
                if w > 0 {
                    assert(r[w] == rest[w - 1]);
                    assert(rest.to_set().contains(y));
                    if y != x {
                        let v = choose|v: int| 0 <= v < t.len() && t[v] == y;
                        assert(q[v + 1] == y);
                    }
                }
            }
            assert forall|y: Seq<char>| q.to_set().insert(x).contains(y) implies r.to_set().contains(
                y,
            ) by {
                if y == q[0] {
                    assert(r[0] == y);
                } else {
                    if y != x {
                        let w = choose|w: int| 0 <= w < q.len() && q[w] == y;
                        assert(w > 0);
                        assert(t[w - 1] == y);
                        assert(t.to_set().contains(y));
                    }
                    assert(rest.to_set().contains(y));
                    let v = choose|v: int| 0 <= v < rest.len() && rest[v] == y;
                    assert(r[v + 1] == y);
                }
            }
        }
    }
}

/// The alias holders over any prefix of the notes have a strictly sorted list.
proof fn lemma_holders_have_a_sorted_list(notes: Seq<Note>, k: Seq<char>, i: int)
    requires
        0 <= i <= notes.len(),
    ensures
        exists|q: Seq<Seq<char>>| sorted_strict(q) && q.to_set() == alias_holders(notes.take(i), k),
    decreases i,
{
    if i == 0 {
        let q = Seq::<Seq<char>>::empty();
        assert(q.to_set() =~= alias_holders(notes.take(0), k));
        assert(sorted_strict(q));
    } else {
        lemma_holders_have_a_sorted_list(notes, k, i - 1);
        let q = choose|q: Seq<Seq<char>>|
            sorted_strict(q) && q.to_set() == alias_holders(notes.take(i - 1), k);
        let t0 = notes.take(i - 1);
        let t1 = notes.take(i);
        let n = notes[i - 1];
        let grow = names_expose(views(n.aliases@), k);
        let q2 = if grow {
            insert_sorted_spec(q, n.path@)
        } else {
            q
        };
        if grow {
            lemma_insert_sorted_spec(q, n.path@);
        }
        assert forall|p: Seq<char>| q2.to_set().contains(p) == alias_holders(t1, k).contains(p) by {
            if alias_holders(t0, k).contains(p) {
                let w = choose|w: int|
                    0 <= w < t0.len() && #[trigger] t0[w].path@ == p && names_expose(
                        views(t0[w].aliases@),
                        k,
                    );
                assert(t1[w] == t0[w]);
            }
            if alias_holders(t1, k).contains(p) {
                let w = choose|w: int|
                    0 <= w < t1.len() && #[trigger] t1[w].path@ == p && names_expose(
                        views(t1[w].aliases@),
                        k,
                    );
                if w < i - 1 {
                    assert(t0[w] == t1[w]);
                } else {
                    assert(t1[w] == n);
                }
            }
            if grow && p == n.path@ {
                assert(t1[i - 1] == n);
            }
        }
        assert(q2.to_set() =~= alias_holders(t1, k));
    }
}

/// Alias `j` of note `i` sits in the flattened alias list of the first `m` notes (`i < m`).
proof fn lemma_alias_in_names(notes: Seq<Note>, i: int, j: int, m: int)
    requires
        0 <= i < m <= notes.len(),
        0 <= j < notes[i].aliases@.len(),
    ensures
        alias_names(notes, m).contains(notes[i].aliases@[j]@),
    decreases m,
{
    let prev = alias_names(notes, m - 1);
    let here = views(notes[m - 1].aliases@);
    if i == m - 1 {
        assert(alias_names(notes, m)[prev.len() + j] == here[j]);
    } else {
        lemma_alias_in_names(notes, i, j, m - 1);
        let w = choose|w: int| 0 <= w < prev.len() && prev[w] == notes[i].aliases@[j]@;
        assert(alias_names(notes, m)[w] == prev[w]);
    }
}

/// Every non-empty normal form of a name in `names` is among its first-seen keys.
proof fn lemma_key_in_order(names: Seq<Seq<char>>, x: Seq<char>)
    requires
        names.contains(x),
        normalize_spec(x).len() > 0,
    ensures
        key_order(names).contains(normalize_spec(x)),
    decreases names.len(),
{
    let init = names.drop_last();
    let prev = key_order(init);
    let k = normalize_spec(x);
    if names.last() == x {
        if prev.contains(k) {
        } else {
            assert(prev.push(k)[prev.len() as int] == k);
        }
    } else {
        let w = choose|w: int| 0 <= w < names.len() && names[w] == x;
        assert(init[w] == x);
        lemma_key_in_order(init, x);
        let v = choose|v: int| 0 <= v < prev.len() && prev[v] == k;
        let kn = normalize_spec(names.last());
        if kn.len() > 0 && !prev.contains(kn) {
            assert(prev.push(kn)[v] == k);
        }
    }
}

/// A listed key held by several notes has its collision finding.
proof fn lemma_collision_listed(notes: Seq<Note>, keys: Seq<Seq<char>>, k: Seq<char>)
    requires
        keys.contains(k),
        sorted_list(alias_holders(notes, k)).len() >= 2,
    ensures
        collisions_from(notes, keys).contains(collision_spec(k, sorted_list(alias_holders(notes, k)))),
    decreases keys.len(),
{
    let init = keys.drop_last();
    let prev = collisions_from(notes, init);
    let f = collision_spec(k, sorted_list(alias_holders(notes, k)));
    if keys.last() == k {
        assert(prev.push(f)[prev.len() as int] == f);
    } else {
        let w = choose|w: int| 0 <= w < keys.len() && keys[w] == k;
        assert(init[w] == k);
        lemma_collision_listed(notes, init, k);
        let v = choose|v: int| 0 <= v < prev.len() && prev[v] == f;
        let ms = sorted_list(alias_holders(notes, keys.last()));
        if ms.len() >= 2 {
            assert(prev.push(collision_spec(keys.last(), ms))[v] == f);
        }
    }
}

/// Two notes at different paths that declare aliases with the same (non-empty) normal form are
/// reported: among the collision findings is the one for that key, and its members, sorted and
/// without repeats, are exactly the notes that declare it, both of these among them.
pub proof fn law_shared_alias_is_reported(notes: Seq<Note>, i1: int, a1: int, i2: int, a2: int)
    requires
        0 <= i1 < notes.len(),
        0 <= i2 < notes.len(),
        notes[i1].path@ != notes[i2].path@,
        0 <= a1 < notes[i1].aliases@.len(),
        0 <= a2 < notes[i2].aliases@.len(),
        normalize_spec(notes[i1].aliases@[a1]@) == normalize_spec(notes[i2].aliases@[a2]@),
        normalize_spec(notes[i1].aliases@[a1]@).len() > 0,
    ensures
        ({
            let k = normalize_spec(notes[i1].aliases@[a1]@);
            let ms = sorted_list(alias_holders(notes, k));
            &&& collision_findings_spec(notes).contains(collision_spec(k, ms))
            &&& sorted_strict(ms)
            &&& ms.to_set() == alias_holders(notes, k)
            &&& ms.contains(notes[i1].path@)
            &&& ms.contains(notes[i2].path@)
        }),
{
    let k = normalize_spec(notes[i1].aliases@[a1]@);
    let h = alias_holders(notes, k);
    lemma_holders_have_a_sorted_list(notes, k, notes.len() as int);
    assert(notes.take(notes.len() as int) =~= notes);
    let ms = sorted_list(h);
    assert(sorted_strict(ms) && ms.to_set() == h);
    assert(names_expose(views(notes[i1].aliases@), k)) by {
        assert(views(notes[i1].aliases@)[a1] == notes[i1].aliases@[a1]@);
    }
    assert(names_expose(views(notes[i2].aliases@), k)) by {
        assert(views(notes[i2].aliases@)[a2] == notes[i2].aliases@[a2]@);
    }
    assert(h.contains(notes[i1].path@));
    assert(h.contains(notes[i2].path@));
    assert(ms.to_set().contains(notes[i1].path@));
    assert(ms.to_set().contains(notes[i2].path@));
    let w1 = choose|w: int| 0 <= w < ms.len() && ms[w] == notes[i1].path@;
    let w2 = choose|w: int| 0 <= w < ms.len() && ms[w] == notes[i2].path@;
    assert(w1 != w2);
    assert(ms.len() >= 2);
    let names = alias_names(notes, notes.len() as int);
    lemma_alias_in_names(notes, i1, a1, notes.len() as int);
    lemma_key_in_order(names, notes[i1].aliases@[a1]@);
    lemma_collision_listed(notes, key_order(names), k);
}

/// Whether `f` is a genuine alias collision over `notes`: a `Warn` on the key `target`, filed under
/// the first of its members, which are sorted, at least two, and exactly the notes declaring the key.
pub open spec fn genuine_collision(notes: Seq<Note>, f: FindingV) -> bool {
    &&& f.rule_id == "collision.alias"@
    &&& f.severity == Severity::Warn
    &&& f.target is Some
    &&& f.collision_members.len() >= 2
    &&& sorted_strict(f.collision_members)
    &&& f.collision_members.to_set() == alias_holders(notes, f.target->0)
    &&& f.path == f.collision_members[0]
}

proof fn lemma_collisions_genuine(notes: Seq<Note>, keys: Seq<Seq<char>>)
    ensures
        forall|i: int|
            0 <= i < collisions_from(notes, keys).len() ==> genuine_collision(
                notes,
                #[trigger] collisions_from(notes, keys)[i],
            ),
    decreases keys.len(),
{
    if keys.len() > 0 {
        let init = keys.drop_last();
        lemma_collisions_genuine(notes, init);
        let k = keys.last();
        let ms = sorted_list(alias_holders(notes, k));
        if ms.len() < 2 {
            assert(collisions_from(notes, keys) == collisions_from(notes, init));
        } else {
            assert(collisions_from(notes, keys) == collisions_from(notes, init).push(
                collision_spec(k, ms),
            ));
            lemma_holders_have_a_sorted_list(notes, k, notes.len() as int);
            assert(notes.take(notes.len() as int) =~= notes);
            let prev = collisions_from(notes, init);
            let f = collision_spec(k, ms);
            assert(genuine_collision(notes, f));
            assert forall|i: int| 0 <= i < prev.push(f).len() implies genuine_collision(
                notes,
                #[trigger] prev.push(f)[i],
            ) by {
                if i < prev.len() {
                    assert(prev.push(f)[i] == prev[i]);
                }
            }
        }
    }
}

/// Every alias collision reported is genuine: it names at least two notes, sorted and without
/// repeats, and they are exactly the notes that declare an alias with its key.
pub proof fn law_every_collision_is_genuine(notes: Seq<Note>, i: int)
    requires
        0 <= i < collision_findings_spec(notes).len(),
    ensures
        genuine_collision(notes, collision_findings_spec(notes)[i]),
{
    lemma_collisions_genuine(notes, key_order(alias_names(notes, notes.len() as int)));
}

/// Whether `f` is the finding of some wikilink of some note of `g`.
pub open spec fn from_some_link(g: Graph, f: FindingV) -> bool {
    exists|i: int, m: int|
        0 <= i < g.notes@.len() && 0 <= m < g.notes@[i].wikilinks@.len() && #[trigger] link_finding(
            g,
            g.notes@[i],
            g.notes@[i].wikilinks@[m],
        ) == Some(f)
}

proof fn lemma_note_findings_sourced(g: Graph, i: int, m: int)
    requires
        0 <= i < g.notes@.len(),
        0 <= m <= g.notes@[i].wikilinks@.len(),
    ensures
        forall|j: int|
            0 <= j < note_findings(g, g.notes@[i], m).len() ==> from_some_link(
                g,
                #[trigger] note_findings(g, g.notes@[i], m)[j],
            ),
    decreases m,
{
    if m > 0 {
        lemma_note_findings_sourced(g, i, m - 1);
        let prev = note_findings(g, g.notes@[i], m - 1);
        let w = g.notes@[i].wikilinks@[m - 1];
        match link_finding(g, g.notes@[i], w) {
            Some(f) => {
                assert(from_some_link(g, f)) by {
                    assert(link_finding(g, g.notes@[i], g.notes@[i].wikilinks@[m - 1]) == Some(f));
                }
                assert forall|j: int| 0 <= j < prev.push(f).len() implies from_some_link(
                    g,
                    #[trigger] prev.push(f)[j],
                ) by {
                    if j < prev.len() {
                        assert(prev.push(f)[j] == prev[j]);
                    }
                }
            },
            None => {},
        }
    }
}

proof fn lemma_link_health_sourced(g: Graph, n: int)
    requires
        0 <= n <= g.notes@.len(),
    ensures
        forall|j: int|
            0 <= j < link_health_spec(g, n).len() ==> from_some_link(
                g,
                #[trigger] link_health_spec(g, n)[j],
            ),
    decreases n,
{
    if n > 0 {
        lemma_link_health_sourced(g, n - 1);
        let a = link_health_spec(g, n - 1);
        let b = note_findings(g, g.notes@[n - 1], g.notes@[n - 1].wikilinks@.len() as int);
        lemma_note_findings_sourced(g, n - 1, g.notes@[n - 1].wikilinks@.len() as int);
        assert forall|j: int| 0 <= j < (a + b).len() implies from_some_link(
            g,
            #[trigger] (a + b)[j],
        ) by {
            if j < a.len() {
                assert((a + b)[j] == a[j]);
            } else {
                assert((a + b)[j] == b[j - a.len()]);
            }
        }
    }
}

/// Every finding the rules report has a source: it is the finding of one of the notes'
/// wikilinks (one that resolves to no file), or a genuine alias collision.
pub proof fn law_every_finding_has_a_source(g: Graph, i: int)
    requires
        0 <= i < run_spec(g).len(),
    ensures
        from_some_link(g, run_spec(g)[i]) || genuine_collision(g.notes@, run_spec(g)[i]),
{
    let n = g.notes@.len() as int;
    let a = link_health_spec(g, n);
    let b = collision_findings_spec(g.notes@);
    lemma_link_health_sourced(g, n);
    lemma_collisions_genuine(g.notes@, key_order(alias_names(g.notes@, n)));
    if i < a.len() {
        assert(run_spec(g)[i] == a[i]);
    } else {
        assert(run_spec(g)[i] == b[i - a.len()]);
    }
}

// ---------------------------------------------------------------------------------------------
// Scope
// ---------------------------------------------------------------------------------------------

/// The default scope reports nothing that lies wholly under `System/`: every reported finding
/// has its path, or (for a collision) one of its members, outside `System/`.
pub proof fn law_default_scope_skips_system(fs: Seq<Finding>, wanted: Seq<Seq<char>>, n: int)
    requires
        n <= fs.len(),
    ensures
        forall|i: int|
            0 <= i < scoped(fs, wanted, false, n).len() ==> {
                let f = #[trigger] scoped(fs, wanted, false, n)[i];
                !has_prefix(f.path@, "System/"@) || exists|j: int|
                    0 <= j < f.collision_members@.len() && !has_prefix(
                        (#[trigger] f.collision_members@[j])@,
                        "System/"@,
                    )
            },
    decreases n,
{
    if n > 0 {
        law_default_scope_skips_system(fs, wanted, n - 1);
    }
}

/// Narrowing the scope only removes findings: whatever a call with path filters, or without
/// `--all`, reports (counted with repeats), the call without the filters, or with `--all`,
/// reports as well.
pub proof fn law_narrower_scope_reports_less(
    fs: Seq<Finding>,
    wanted: Seq<Seq<char>>,
    all: bool,
    n: int,
    x: Finding,
)
    requires
        n <= fs.len(),
    ensures
        scoped(fs, wanted, all, n).to_multiset().count(x) <= scoped(
            fs,
            Seq::empty(),
            all,
            n,
        ).to_multiset().count(x),
        scoped(fs, wanted, all, n).to_multiset().count(x) <= scoped(
            fs,
            wanted,
            true,
            n,
        ).to_multiset().count(x),
    decreases n,
{
    broadcast use vstd::seq_lib::group_to_multiset_ensures;

    if n > 0 {
        law_narrower_scope_reports_less(fs, wanted, all, n - 1, x);
        let f = fs[n - 1];
        if finding_in_scope(f, wanted, all) {
            if in_scope(f.path@, wanted, all) {
                assert(in_scope(f.path@, Seq::empty(), all));
                assert(in_scope(f.path@, wanted, true));
            } else {
                let j = choose|j: int|
                    0 <= j < f.collision_members@.len() && in_scope(
                        (#[trigger] f.collision_members@[j])@,
                        wanted,
                        all,
                    );
                assert(in_scope(f.collision_members@[j]@, Seq::empty(), all));
                assert(in_scope(f.collision_members@[j]@, wanted, true));
            }
        }
    }
}

/// With `--all` and no path filters, every finding is reported, in its order.
pub proof fn law_all_without_filters_reports_everything(fs: Seq<Finding>, n: int)
    requires
        0 <= n <= fs.len(),
    ensures
        scoped(fs, Seq::empty(), true, n) == fs.take(n),
    decreases n,
{
    if n > 0 {
        law_all_without_filters_reports_everything(fs, n - 1);
        assert(in_scope(fs[n - 1].path@, Seq::empty(), true));
        assert(fs.take(n - 1).push(fs[n - 1]) =~= fs.take(n));
    } else {
        assert(fs.take(0) =~= Seq::<Finding>::empty());
    }
}

// ---------------------------------------------------------------------------------------------
// Escaping
// ---------------------------------------------------------------------------------------------

/// No two adjacent `c` in `s`.
spec fn no_pair(s: Seq<char>, c: char) -> bool {
    forall|i: int, j: int|
        #![trigger s[i], s[j]]
        0 <= i && j == i + 1 && j < s.len() ==> !(s[i] == c && s[j] == c)
}

/// No three adjacent `c` in `s`.
spec fn no_triple(s: Seq<char>, c: char) -> bool {
    forall|i: int, j: int, k: int|
        #![trigger s[i], s[j], s[k]]
        0 <= i && j == i + 1 && k == i + 2 && k < s.len() ==> !(s[i] == c && s[j] == c && s[k]
            == c)
}

/// A suffix keeps the absence of runs.
proof fn lemma_runs_skip(s: Seq<char>, c: char, n: int)
    requires
        0 <= n <= s.len(),
    ensures
        no_pair(s, c) ==> no_pair(s.skip(n), c),
        no_triple(s, c) ==> no_triple(s.skip(n), c),
{
    let t = s.skip(n);
    if no_pair(s, c) {
        assert forall|i: int, j: int| 0 <= i && j == i + 1 && j < t.len() implies !(t[i] == c
            && t[j] == c) by {
            assert(t[i] == s[i + n]);
            assert(t[j] == s[j + n]);
        }
    }
    if no_triple(s, c) {
        assert forall|i: int, j: int, k: int|
            0 <= i && j == i + 1 && k == i + 2 && k < t.len() implies !(t[i] == c && t[j] == c
            && t[k] == c) by {
            assert(t[i] == s[i + n]);
            assert(t[j] == s[j + n]);
            assert(t[k] == s[k + n]);
        }
    }
}

/// Replacing a pattern free of `c` by a non-empty text free of `c` neither creates nor joins
/// runs of `c`, and keeps how the text starts with respect to `c`.
proof fn lemma_replace_keeps_runs(s: Seq<char>, pat: Seq<char>, rep: Seq<char>, c: char)
    requires
        pat.len() > 0,
        rep.len() > 0,
        !pat.contains(c),
        !rep.contains(c),
    ensures
        (replace_all(s, pat, rep).len() > 0 && replace_all(s, pat, rep)[0] == c) <==> (s.len()
            > 0 && s[0] == c),
        (replace_all(s, pat, rep).len() > 1 && replace_all(s, pat, rep)[0] == c && replace_all(
            s,
            pat,
            rep,
        )[1] == c) <==> (s.len() > 1 && s[0] == c && s[1] == c),
        no_pair(s, c) ==> no_pair(replace_all(s, pat, rep), c),
        no_triple(s, c) ==> no_triple(replace_all(s, pat, rep), c),
    decreases s.len(),
{
    let r = replace_all(s, pat, rep);
    if s.len() == 0 {
    } else if has_prefix(s, pat) {
        let t = s.skip(pat.len() as int);
        lemma_replace_keeps_runs(t, pat, rep, c);
        lemma_runs_skip(s, c, pat.len() as int);
        let rt = replace_all(t, pat, rep);
        assert(r == rep + rt);
        assert(s[0] == pat[0]) by {
            assert(s.take(pat.len() as int)[0] == s[0]);
        }
        if pat[0] == c {
            assert(pat.contains(c));
        }
        if rep[0] == c {
            assert(rep.contains(c));
        }
        assert(r[0] == rep[0]);
        if no_pair(s, c) {
            assert forall|i: int, j: int| 0 <= i && j == i + 1 && j < r.len() implies !(r[i]
                == c && r[j] == c) by {
                if i < rep.len() {
                    assert(r[i] == rep[i]);
                    if rep[i] == c {
                        assert(rep.contains(c));
                    }
                } else {
                    assert(r[i] == rt[i - rep.len()]);
                    assert(r[j] == rt[j - rep.len()]);
                }
            }
        }
        if no_triple(s, c) {
            assert forall|i: int, j: int, k: int|
                0 <= i && j == i + 1 && k == i + 2 && k < r.len() implies !(r[i] == c && r[j]
                == c && r[k] == c) by {
                if i < rep.len() {
                    assert(r[i] == rep[i]);
                    if rep[i] == c {
                        assert(rep.contains(c));
                    }
                } else {
                    assert(r[i] == rt[i - rep.len()]);
                    assert(r[j] == rt[j - rep.len()]);
                    assert(r[k] == rt[k - rep.len()]);
                }
            }
        }
    } else {
        let t = s.drop_first();
        lemma_replace_keeps_runs(t, pat, rep, c);
        lemma_runs_skip(s, c, 1);
        let rt = replace_all(t, pat, rep);
        assert(r == seq![s[0]] + rt);
        assert(r[0] == s[0]);
        if rt.len() > 0 {
            assert(r[1] == rt[0]);
        }
        if t.len() > 0 {
            assert(t[0] == s[1]);
        }
        if t.len() > 1 {
            assert(t[1] == s[2]);
        }
        if no_pair(s, c) {
            assert forall|i: int, j: int| 0 <= i && j == i + 1 && j < r.len() implies !(r[i]
                == c && r[j] == c) by {
                if i == 0 {
                    if r[0] == c && r[1] == c {
                        assert(s[0] == c && s[1] == c);
                    }
                } else {
                    assert(r[i] == rt[i - 1]);
                    assert(r[j] == rt[j - 1]);
                }
            }
        }
        if no_triple(s, c) {
            assert forall|i: int, j: int, k: int|
                0 <= i && j == i + 1 && k == i + 2 && k < r.len() implies !(r[i] == c && r[j]
                == c && r[k] == c) by {
                if i == 0 {
                    if r[0] == c && r[1] == c && r[2] == c {
                        assert(rt[0] == c && rt[1] == c);
                        assert(s[0] == c && s[1] == c && s[2] == c);
                    }
                } else {
                    assert(r[i] == rt[i - 1]);
                    assert(r[j] == rt[j - 1]);
                    assert(r[k] == rt[k - 1]);
                }
            }
        }
    }
}

/// Splitting every `cc` into `c d c` leaves no two adjacent `c`, given no three in a row.
proof fn lemma_replace_breaks_pairs(s: Seq<char>, c: char, d: char)
    requires
        c != d,
        no_triple(s, c),
    ensures
        (replace_all(s, seq![c, c], seq![c, d, c]).len() > 0 && replace_all(
            s,
            seq![c, c],
            seq![c, d, c],
        )[0] == c) <==> (s.len() > 0 && s[0] == c),
        no_pair(replace_all(s, seq![c, c], seq![c, d, c]), c),
    decreases s.len(),
{
    let pat = seq![c, c];
    let rep = seq![c, d, c];
    let r = replace_all(s, pat, rep);
    if s.len() == 0 {
    } else if has_prefix(s, pat) {
        let t = s.skip(2);
        lemma_runs_skip(s, c, 2);
        lemma_replace_breaks_pairs(t, c, d);
        let rt = replace_all(t, pat, rep);
        assert(r == rep + rt);
        assert(s[0] == c && s[1] == c) by {
            assert(s.take(2)[0] == s[0]);
            assert(s.take(2)[1] == s[1]);
        }
        if t.len() > 0 {
            assert(t[0] == s[2]);
        }
        assert forall|i: int, j: int| 0 <= i && j == i + 1 && j < r.len() implies !(r[i] == c
            && r[j] == c) by {
            if i < 2 {
                assert(r[1] == d);
            } else if i == 2 {
                assert(r[2] == c);
                assert(r[3] == rt[0]);
                if rt[0] == c {
                    assert(s[0] == c && s[1] == c && s[2] == c);
                }
            } else {
                assert(r[i] == rt[i - 3]);
                assert(r[j] == rt[j - 3]);
            }
        }
    } else {
        let t = s.drop_first();
        lemma_runs_skip(s, c, 1);
        lemma_replace_breaks_pairs(t, c, d);
        let rt = replace_all(t, pat, rep);
        assert(r == seq![s[0]] + rt);
        assert(r[0] == s[0]);
        if t.len() > 0 {
            assert(t[0] == s[1]);
        }
        assert forall|i: int, j: int| 0 <= i && j == i + 1 && j < r.len() implies !(r[i] == c
            && r[j] == c) by {
            if i == 0 {
                assert(r[1] == rt[0]);
                if r[0] == c && r[1] == c {
                    assert(s.take(2) =~= pat);
                }
            } else {
                assert(r[i] == rt[i - 1]);
                assert(r[j] == rt[j - 1]);
            }
        }
    }
}

/// A text with no `ccc` has no three adjacent `c`.
proof fn lemma_no_triple_from_text(s: Seq<char>, c: char, p: Seq<char>)
    requires
        p == seq![c, c, c],
        !contains_seq(s, p),
    ensures
        no_triple(s, c),
{
    assert forall|i: int, j: int, k: int|
        0 <= i && j == i + 1 && k == i + 2 && k < s.len() implies !(s[i] == c && s[j] == c && s[k]
        == c) by {
        if s[i] == c && s[j] == c && s[k] == c {
            assert(s.subrange(i, i + 3) =~= p);
            assert(matches_at(s, p, i));
        }
    }
}

/// A text with no two adjacent `c` does not contain `cc`.
proof fn lemma_no_pair_to_text(s: Seq<char>, c: char, p: Seq<char>)
    requires
        p == seq![c, c],
        no_pair(s, c),
    ensures
        !contains_seq(s, p),
{
    if contains_seq(s, p) {
        let at = choose|at: int| matches_at(s, p, at);
        assert(s.subrange(at, at + 2)[0] == s[at]);
        assert(s.subrange(at, at + 2)[1] == s[at + 1]);
    }
}

/// Escaped text opens and closes no wikilink: text with no run of three `[` and no run of three
/// `]` escapes to text that contains neither `[[` nor `]]`. (A longer run is not neutralized:
/// `[[[` escapes to `[\[[`.)
pub proof fn law_escaped_text_opens_no_link(s: Seq<char>)
    requires
        !contains_seq(s, "[[["@),
        !contains_seq(s, "]]]"@),
    ensures
        !contains_seq(escape_md_spec(s), "[["@),
        !contains_seq(escape_md_spec(s), "]]"@),
{
    reveal_strlit("[[[");
    reveal_strlit("]]]");
    reveal_strlit("[[");
    reveal_strlit("]]");
    reveal_strlit("|");
    reveal_strlit("\\|");
    reveal_strlit("<");
    reveal_strlit("&lt;");
    reveal_strlit(">");
    reveal_strlit("&gt;");
    reveal_strlit("[\\[");
    reveal_strlit("]\\]");
    assert("[[["@ =~= seq!['[', '[', '[']);
    assert("]]]"@ =~= seq![']', ']', ']']);
    assert("[["@ =~= seq!['[', '[']);
    assert("]]"@ =~= seq![']', ']']);
    assert("[\\["@ =~= seq!['[', '\\', '[']);
    assert("]\\]"@ =~= seq![']', '\\', ']']);
    lemma_no_triple_from_text(s, '[', "[[["@);
    lemma_no_triple_from_text(s, ']', "]]]"@);
    let s1 = replace_all(s, "|"@, "\\|"@);
    let s2 = replace_all(s1, "<"@, "&lt;"@);
    let s3 = replace_all(s2, ">"@, "&gt;"@);
    let s4 = replace_all(s3, "[["@, "[\\["@);
    let s5 = replace_all(s4, "]]"@, "]\\]"@);
    assert(s5 == escape_md_spec(s));
    lemma_replace_keeps_runs(s, "|"@, "\\|"@, '[');
    lemma_replace_keeps_runs(s, "|"@, "\\|"@, ']');
    lemma_replace_keeps_runs(s1, "<"@, "&lt;"@, '[');
    lemma_replace_keeps_runs(s1, "<"@, "&lt;"@, ']');
    lemma_replace_keeps_runs(s2, ">"@, "&gt;"@, '[');
    lemma_replace_keeps_runs(s2, ">"@, "&gt;"@, ']');
    lemma_replace_breaks_pairs(s3, '[', '\\');
    lemma_replace_keeps_runs(s3, "[["@, "[\\["@, ']');
    lemma_replace_keeps_runs(s4, "]]"@, "]\\]"@, '[');
    lemma_replace_breaks_pairs(s4, ']', '\\');
    lemma_no_pair_to_text(s5, '[', "[["@);
    lemma_no_pair_to_text(s5, ']', "]]"@);
}

} // verus!
