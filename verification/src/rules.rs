//! Corpus-level rules: each turns the link graph into findings.
//!
//! Finding messages are Traditional Chinese on purpose — they are product output read in the
//! vault's own language.

use vstd::prelude::*;

use crate::graph::{
    entry_of, lemma_entry_at, names_expose, normalize, normalize_spec, sorted_strict,
    table_wf, views, Graph, Resolution,
};
use crate::model::{
    fingerprint, fingerprint_spec, findings_view, Finding, FindingV, Note, Severity, WikiLink,
};
use crate::text::{concat3, lemma_seq_lt_irreflexive, lemma_seq_lt_asym, owned, seq_lt, str_lt};

verus! {

/// The smallest path (code-point order) among `notes[..n]` whose normalized title is the
/// non-empty key `k`. Titles are not resolution keys, so a link to a title that is neither a
/// filename nor an alias does not resolve; this recovers which note the author meant.
pub open spec fn title_owner(notes: Seq<Note>, k: Seq<char>, n: int) -> Option<Seq<char>>
    decreases n,
{
    if n <= 0 {
        None
    } else {
        let prev = title_owner(notes, k, n - 1);
        let note = notes[n - 1];
        let hit = match note.title {
            Some(t) => k.len() > 0 && normalize_spec(t@) == k,
            None => false,
        };
        if !hit {
            prev
        } else {
            match prev {
                None => Some(note.path@),
                Some(p) => if seq_lt(note.path@, p) {
                    Some(note.path@)
                } else {
                    Some(p)
                },
            }
        }
    }
}

/// The `link.title_not_alias` finding: `[[target]]` names `owner`'s title, which is neither its
/// filename nor an alias, so Obsidian fails to resolve it silently.
pub open spec fn title_not_alias_spec(src: Seq<char>, w: WikiLink, owner: Seq<char>) -> FindingV {
    FindingV {
        rule_id: "link.title_not_alias"@,
        severity: Severity::Warn,
        path: src,
        line: Some(w.line),
        field: None,
        message: "[["@ + w.target@ + "]] 解不到檔名或 alias"@,
        evidence: "目標標題存在於 "@ + owner + ",但不在其 aliases"@,
        suggested_action: "把標題加進 "@ + owner + " 的 aliases,或改連既有檔名/alias"@,
        source_rule: "Note-Schema.md#aliases"@,
        target: Some(w.target@),
        resolved_to: None,
        collision_members: Seq::empty(),
        fingerprint: fingerprint_spec("link.title_not_alias"@, src, w.target@),
    }
}

/// The `link.broken` finding: `Info` under a planned-gap heading (a forward-reference), else
/// `Warn`.
pub open spec fn broken_spec(src: Seq<char>, w: WikiLink) -> FindingV {
    let planned = w.under_gap_heading;
    FindingV {
        rule_id: "link.broken"@,
        severity: if planned {
            Severity::Info
        } else {
            Severity::Warn
        },
        path: src,
        line: Some(w.line),
        field: None,
        message: "[["@ + w.target@ + "]] 解不到任何筆記"@,
        evidence: if planned {
            "位於缺口/待補 heading 下,屬列管的 forward-reference"@
        } else {
            "目標檔名與 alias 皆無此名"@
        },
        suggested_action: if planned {
            "若已撰寫,確認檔名/alias 對得上;否則維持列管即可"@
        } else {
            "建立目標筆記,或把連結改成既有檔名/alias"@
        },
        source_rule: "Note-Schema.md#aliases"@,
        target: Some(w.target@),
        resolved_to: None,
        collision_members: Seq::empty(),
        fingerprint: fingerprint_spec("link.broken"@, src, w.target@),
    }
}

/// The finding (if any) for one wikilink `w` of note `src`: nothing when it resolves to one or
/// several files; `link.title_not_alias` when it names some note's title; else `link.broken`.
pub open spec fn link_finding(g: Graph, src: Note, w: WikiLink) -> Option<FindingV> {
    let k = normalize_spec(w.target@);
    if g.symbols.members_of(k).len() != 0 {
        None
    } else {
        match title_owner(g.notes@, k, g.notes@.len() as int) {
            Some(owner) => Some(title_not_alias_spec(src.path@, w, owner)),
            None => Some(broken_spec(src.path@, w)),
        }
    }
}

/// The findings of the first `m` wikilinks of `src`, in order.
pub open spec fn note_findings(g: Graph, src: Note, m: int) -> Seq<FindingV>
    decreases m,
{
    if m <= 0 {
        Seq::empty()
    } else {
        let prev = note_findings(g, src, m - 1);
        match link_finding(g, src, src.wikilinks@[m - 1]) {
            Some(f) => prev.push(f),
            None => prev,
        }
    }
}

/// The link findings of the first `n` notes, in note then link order.
pub open spec fn link_health_spec(g: Graph, n: int) -> Seq<FindingV>
    decreases n,
{
    if n <= 0 {
        Seq::empty()
    } else {
        link_health_spec(g, n - 1) + note_findings(
            g,
            g.notes@[n - 1],
            g.notes@[n - 1].wikilinks@.len() as int,
        )
    }
}

// ---------------------------------------------------------------------------------------------
// Alias collisions
// ---------------------------------------------------------------------------------------------

/// The aliases of `notes[..n]`, in note then alias order.
pub open spec fn alias_names(notes: Seq<Note>, n: int) -> Seq<Seq<char>>
    decreases n,
{
    if n <= 0 {
        Seq::empty()
    } else {
        alias_names(notes, n - 1) + views(notes[n - 1].aliases@)
    }
}

/// The distinct non-empty normal forms of `names`, in the order they first occur.
pub open spec fn key_order(names: Seq<Seq<char>>) -> Seq<Seq<char>>
    decreases names.len(),
{
    if names.len() == 0 {
        Seq::empty()
    } else {
        let prev = key_order(names.drop_last());
        let k = normalize_spec(names.last());
        if k.len() > 0 && !prev.contains(k) {
            prev.push(k)
        } else {
            prev
        }
    }
}

/// The paths of the notes that declare an alias whose normal form is the (non-empty) key `k`.
pub open spec fn alias_holders(notes: Seq<Note>, k: Seq<char>) -> Set<Seq<char>> {
    Set::new(
        |p: Seq<char>|
            exists|i: int|
                0 <= i < notes.len() && #[trigger] notes[i].path@ == p && names_expose(
                    views(notes[i].aliases@),
                    k,
                ),
    )
}

/// The strictly sorted list of the paths in `s`.
pub open spec fn sorted_list(s: Set<Seq<char>>) -> Seq<Seq<char>> {
    choose|q: Seq<Seq<char>>| sorted_strict(q) && q.to_set() == s
}

/// The `collision.alias` finding for the alias key `k` shared by `members` (sorted, at least
/// two): one finding lists every member, and is filed under the first.
pub open spec fn collision_spec(k: Seq<char>, members: Seq<Seq<char>>) -> FindingV {
    FindingV {
        rule_id: "collision.alias"@,
        severity: Severity::Warn,
        path: members[0],
        line: None,
        field: Some("aliases"@),
        message: "alias「"@ + k + "」由多個筆記共用"@,
        evidence: "連到「"@ + k + "」的 wikilink 在 Obsidian 無法確定解析到哪一篇"@,
        suggested_action: "只讓一篇筆記保留這個 alias,其餘改用各自的名稱"@,
        source_rule: "Note-Schema.md#aliases"@,
        target: Some(k),
        resolved_to: None,
        collision_members: members,
        fingerprint: fingerprint_spec("collision.alias"@, members[0], k),
    }
}

/// One collision finding per key of `keys` (in order) that two or more notes declare.
pub open spec fn collisions_from(notes: Seq<Note>, keys: Seq<Seq<char>>) -> Seq<FindingV>
    decreases keys.len(),
{
    if keys.len() == 0 {
        Seq::empty()
    } else {
        let prev = collisions_from(notes, keys.drop_last());
        let ms = sorted_list(alias_holders(notes, keys.last()));
        if ms.len() >= 2 {
            prev.push(collision_spec(keys.last(), ms))
        } else {
            prev
        }
    }
}

/// The `collision.alias` findings of `notes`: one per normalized alias that several notes
/// declare, in the order the aliases first occur.
pub open spec fn collision_findings_spec(notes: Seq<Note>) -> Seq<FindingV> {
    collisions_from(notes, key_order(alias_names(notes, notes.len() as int)))
}

/// The findings every rule reports over `g`, unsorted: the link findings, then the alias
/// collisions.
pub open spec fn run_spec(g: Graph) -> Seq<FindingV> {
    link_health_spec(g, g.notes@.len() as int) + collision_findings_spec(g.notes@)
}

/// Two strictly sorted lists of the same paths are equal.
pub proof fn lemma_sorted_strict_unique(a: Seq<Seq<char>>, b: Seq<Seq<char>>)
    requires
        sorted_strict(a),
        sorted_strict(b),
        a.to_set() == b.to_set(),
    ensures
        a == b,
    decreases a.len(),
{
    if a.len() == 0 {
        if b.len() > 0 {
            assert(b.to_set().contains(b[0]));
        }
        assert(a =~= b);
    } else if b.len() == 0 {
        assert(a.to_set().contains(a[0]));
    } else {
        assert(a.to_set().contains(a[0]));
        assert(b.to_set().contains(b[0]));
        let j = choose|j: int| 0 <= j < b.len() && b[j] == a[0];
        let i = choose|i: int| 0 <= i < a.len() && a[i] == b[0];
        if j > 0 {
            if i > 0 {
                lemma_seq_lt_asym(a[0], a[i]);
            } else {
                lemma_seq_lt_irreflexive(b[0]);
            }
        }
        let a1 = a.drop_first();
        let b1 = b.drop_first();
        assert forall|x: Seq<char>| a1.to_set().contains(x) == b1.to_set().contains(x) by {
            if a1.to_set().contains(x) {
                let w = choose|w: int| 0 <= w < a1.len() && a1[w] == x;
                assert(a[w + 1] == x);
                assert(b.to_set().contains(x));
                let v = choose|v: int| 0 <= v < b.len() && b[v] == x;
                if v == 0 {
                    lemma_seq_lt_irreflexive(a[0]);
                }
                assert(b1[v - 1] == x);
            }
            if b1.to_set().contains(x) {
                let w = choose|w: int| 0 <= w < b1.len() && b1[w] == x;
                assert(b[w + 1] == x);
                assert(a.to_set().contains(x));
                let v = choose|v: int| 0 <= v < a.len() && a[v] == x;
                if v == 0 {
                    lemma_seq_lt_irreflexive(b[0]);
                }
                assert(a1[v - 1] == x);
            }
        }
        assert(a1.to_set() =~= b1.to_set());
        lemma_sorted_strict_unique(a1, b1);
        assert(a =~= seq![a[0]] + a1);
        assert(b =~= seq![b[0]] + b1);
    }
}

/// Normalized title of every note (`None` when it has no title or it normalizes to nothing), kept
/// per note and searched by key rather than as a map from title to paths; see the symbol table
/// for why.
fn title_index(notes: &Vec<Note>) -> (out: Vec<Option<String>>)
    ensures
        out@.len() == notes@.len(),
        forall|i: int|
            0 <= i < notes@.len() ==> match #[trigger] out@[i] {
                Some(k) => notes@[i].title is Some && k@ == normalize_spec(
                    notes@[i].title->0@,
                ) && k@.len() > 0,
                None => notes@[i].title is None || normalize_spec(notes@[i].title->0@).len() == 0,
            },
{
    let mut out: Vec<Option<String>> = Vec::new();
    let mut i: usize = 0;
    while i < notes.len()
        invariant
            i <= notes.len(),
            out@.len() == i,
            forall|j: int|
                0 <= j < i ==> match #[trigger] out@[j] {
                    Some(k) => notes@[j].title is Some && k@ == normalize_spec(
                        notes@[j].title->0@,
                    ) && k@.len() > 0,
                    None => notes@[j].title is None || normalize_spec(notes@[j].title->0@).len()
                        == 0,
                },
        decreases notes.len() - i,
    {
        let key = match &notes[i].title {
            Some(t) => {
                let k = normalize(t.as_str());
                if k.as_str().unicode_len() > 0 {
                    Some(k)
                } else {
                    None
                }
            },
            None => None,
        };
        out.push(key);
        i += 1;
    }
    out
}

/// The owner of the normalized title `key`, using precomputed title keys.
fn find_title_owner<'a>(notes: &'a Vec<Note>, titles: &Vec<Option<String>>, key: &String) -> (r:
    Option<&'a String>)
    requires
        titles@.len() == notes@.len(),
        forall|i: int|
            0 <= i < notes@.len() ==> match #[trigger] titles@[i] {
                Some(k) => notes@[i].title is Some && k@ == normalize_spec(
                    notes@[i].title->0@,
                ) && k@.len() > 0,
                None => notes@[i].title is None || normalize_spec(notes@[i].title->0@).len() == 0,
            },
    ensures
        match title_owner(notes@, key@, notes@.len() as int) {
            Some(p) => r is Some && r->0@ == p,
            None => r is None,
        },
{
    let mut best: Option<&'a String> = None;
    let mut i: usize = 0;
    while i < notes.len()
        invariant
            i <= notes.len(),
            titles@.len() == notes@.len(),
            forall|j: int|
                0 <= j < notes@.len() ==> match #[trigger] titles@[j] {
                    Some(k) => notes@[j].title is Some && k@ == normalize_spec(
                        notes@[j].title->0@,
                    ) && k@.len() > 0,
                    None => notes@[j].title is None || normalize_spec(notes@[j].title->0@).len()
                        == 0,
                },
            match title_owner(notes@, key@, i as int) {
                Some(p) => best is Some && best->0@ == p,
                None => best is None,
            },
        decreases notes.len() - i,
    {
        let hit = match &titles[i] {
            Some(k) => *k == *key,
            None => false,
        };
        if hit {
            let path = &notes[i].path;
            best = match best {
                None => Some(path),
                Some(p) => if str_lt(path.as_str(), p.as_str()) {
                    Some(path)
                } else {
                    Some(p)
                },
            };
        }
        i += 1;
    }
    best
}

/// A link whose target is some note's title but not its filename or alias.
fn title_not_alias(source: &Note, link: &WikiLink, target_note: &str) -> (f: Finding)
    ensures
        f@ == title_not_alias_spec(source.path@, *link, target_note@),
{
    let f = Finding {
        rule_id: owned("link.title_not_alias"),
        severity: Severity::Warn,
        path: source.path.clone(),
        line: Some(link.line),
        field: None,
        message: concat3("[[", link.target.as_str(), "]] 解不到檔名或 alias"),
        evidence: concat3("目標標題存在於 ", target_note, ",但不在其 aliases"),
        suggested_action: concat3("把標題加進 ", target_note, " 的 aliases,或改連既有檔名/alias"),
        source_rule: owned("Note-Schema.md#aliases"),
        target: Some(link.target.clone()),
        resolved_to: None,
        collision_members: Vec::new(),
        fingerprint: fingerprint("link.title_not_alias", source.path.as_str(), link.target.as_str()),
    };
    assert(f@.collision_members =~= Seq::<Seq<char>>::empty());
    f
}

/// A link that resolves to nothing: `Info` under a planned-gap heading, otherwise `Warn`.
fn broken(source: &Note, link: &WikiLink) -> (f: Finding)
    ensures
        f@ == broken_spec(source.path@, *link),
{
    let planned = link.under_gap_heading;
    let f = Finding {
        rule_id: owned("link.broken"),
        severity: if planned {
            Severity::Info
        } else {
            Severity::Warn
        },
        path: source.path.clone(),
        line: Some(link.line),
        field: None,
        message: concat3("[[", link.target.as_str(), "]] 解不到任何筆記"),
        evidence: if planned {
            owned("位於缺口/待補 heading 下,屬列管的 forward-reference")
        } else {
            owned("目標檔名與 alias 皆無此名")
        },
        suggested_action: if planned {
            owned("若已撰寫,確認檔名/alias 對得上;否則維持列管即可")
        } else {
            owned("建立目標筆記,或把連結改成既有檔名/alias")
        },
        source_rule: owned("Note-Schema.md#aliases"),
        target: Some(link.target.clone()),
        resolved_to: None,
        collision_members: Vec::new(),
        fingerprint: fingerprint("link.broken", source.path.as_str(), link.target.as_str()),
    };
    assert(f@.collision_members =~= Seq::<Seq<char>>::empty());
    f
}

/// `link.title_not_alias` and `link.broken` over every note's wikilinks.
fn link_health(graph: &Graph, titles: &Vec<Option<String>>, out: &mut Vec<Finding>)
    requires
        titles@.len() == graph.notes@.len(),
        forall|i: int|
            0 <= i < graph.notes@.len() ==> match #[trigger] titles@[i] {
                Some(k) => graph.notes@[i].title is Some && k@ == normalize_spec(
                    graph.notes@[i].title->0@,
                ) && k@.len() > 0,
                None => graph.notes@[i].title is None || normalize_spec(
                    graph.notes@[i].title->0@,
                ).len() == 0,
            },
    ensures
        findings_view(final(out)@) == findings_view(old(out)@) + link_health_spec(
            *graph,
            graph.notes@.len() as int,
        ),
{
    let ghost start = findings_view(out@);
    let mut i: usize = 0;
    while i < graph.notes.len()
        invariant
            i <= graph.notes.len(),
            titles@.len() == graph.notes@.len(),
            forall|j: int|
                0 <= j < graph.notes@.len() ==> match #[trigger] titles@[j] {
                    Some(k) => graph.notes@[j].title is Some && k@ == normalize_spec(
                        graph.notes@[j].title->0@,
                    ) && k@.len() > 0,
                    None => graph.notes@[j].title is None || normalize_spec(
                        graph.notes@[j].title->0@,
                    ).len() == 0,
                },
            findings_view(out@) == start + link_health_spec(*graph, i as int),
        decreases graph.notes.len() - i,
    {
        let note = &graph.notes[i];
        let ghost before = findings_view(out@);
        let mut m: usize = 0;
        while m < note.wikilinks.len()
            invariant
                i < graph.notes.len(),
                *note == graph.notes@[i as int],
                m <= note.wikilinks.len(),
                titles@.len() == graph.notes@.len(),
                forall|j: int|
                    0 <= j < graph.notes@.len() ==> match #[trigger] titles@[j] {
                        Some(k) => graph.notes@[j].title is Some && k@ == normalize_spec(
                            graph.notes@[j].title->0@,
                        ) && k@.len() > 0,
                        None => graph.notes@[j].title is None || normalize_spec(
                            graph.notes@[j].title->0@,
                        ).len() == 0,
                    },
                findings_view(out@) == before + note_findings(*graph, *note, m as int),
            decreases note.wikilinks.len() - m,
        {
            let link = &note.wikilinks[m];
            let ghost prev = out@;
            match graph.symbols.resolve(link.target.as_str()) {
                Resolution::Unresolved => {
                    let key = normalize(link.target.as_str());
                    match find_title_owner(&graph.notes, titles, &key) {
                        Some(owner) => {
                            out.push(title_not_alias(note, link, owner.as_str()));
                        },
                        None => {
                            out.push(broken(note, link));
                        },
                    }
                    assert(findings_view(out@) =~= findings_view(prev).push(
                        out@[prev.len() as int]@,
                    ));
                },
                _ => {},
            }
            m += 1;
        }
        proof {
            assert(before + note_findings(*graph, *note, note.wikilinks@.len() as int) =~= start
                + link_health_spec(*graph, i + 1));
        }
        i += 1;
    }
}

/// The table of normalized aliases: each key (in first-seen order) with the sorted paths of the
/// notes that declare it. Held as parallel vectors, as the symbol table is.
fn alias_table(notes: &Vec<Note>) -> (r: (Vec<String>, Vec<Vec<String>>))
    ensures
        table_wf(r.0@, r.1@),
        views(r.0@) == key_order(alias_names(notes@, notes@.len() as int)),
        forall|k: Seq<char>| #[trigger] entry_of(r.0@, r.1@, k).to_set() == alias_holders(notes@, k),
{
    let mut keys: Vec<String> = Vec::new();
    let mut members: Vec<Vec<String>> = Vec::new();
    assert(views(keys@) =~= key_order(alias_names(notes@, 0)));
    assert forall|k: Seq<char>| #[trigger] entry_of(keys@, members@, k).to_set() == alias_holders(
        notes@.take(0),
        k,
    ) by {
        assert(entry_of(keys@, members@, k).to_set() =~= alias_holders(notes@.take(0), k));
    }
    let mut i: usize = 0;
    while i < notes.len()
        invariant
            i <= notes.len(),
            table_wf(keys@, members@),
            views(keys@) == key_order(alias_names(notes@, i as int)),
            forall|k: Seq<char>| #[trigger]
                entry_of(keys@, members@, k).to_set() == alias_holders(notes@.take(i as int), k),
        decreases notes.len() - i,
    {
        let note = &notes[i];
        let ghost names = views(note.aliases@);
        let mut m: usize = 0;
        while m < note.aliases.len()
            invariant
                i < notes.len(),
                *note == notes@[i as int],
                names == views(note.aliases@),
                m <= note.aliases.len(),
                table_wf(keys@, members@),
                views(keys@) == key_order(alias_names(notes@, i as int) + names.take(m as int)),
                forall|k: Seq<char>| #[trigger]
                    entry_of(keys@, members@, k).to_set() == if names_expose(
                        names.take(m as int),
                        k,
                    ) {
                        alias_holders(notes@.take(i as int), k).insert(note.path@)
                    } else {
                        alias_holders(notes@.take(i as int), k)
                    },
            decreases note.aliases.len() - m,
        {
            crate::graph::add(&mut keys, &mut members, note.aliases[m].as_str(), note.path.as_str());
            proof {
                assert(names[m as int] == note.aliases@[m as int]@);
                let pre = alias_names(notes@, i as int) + names.take(m as int);
                assert((alias_names(notes@, i as int) + names.take(m + 1)).drop_last() =~= pre);
                assert((alias_names(notes@, i as int) + names.take(m + 1)).last() == names[m as int]);
                assert forall|k: Seq<char>|
                    names_expose(names.take(m + 1), k) == (names_expose(names.take(m as int), k)
                        || (k.len() > 0 && normalize_spec(names[m as int]) == k)) by {
                    if names_expose(names.take(m + 1), k) {
                        let w = choose|w: int|
                            0 <= w < names.take(m + 1).len() && normalize_spec(
                                #[trigger] names.take(m + 1)[w],
                            ) == k;
                        if w < m {
                            assert(names.take(m as int)[w] == names.take(m + 1)[w]);
                        }
                    }
                    if names_expose(names.take(m as int), k) {
                        let w = choose|w: int|
                            0 <= w < names.take(m as int).len() && normalize_spec(
                                #[trigger] names.take(m as int)[w],
                            ) == k;
                        assert(names.take(m + 1)[w] == names.take(m as int)[w]);
                    }
                    if k.len() > 0 && normalize_spec(names[m as int]) == k {
                        assert(names.take(m + 1)[m as int] == names[m as int]);
                    }
                }
            }
            m += 1;
        }
        proof {
            assert(names.take(names.len() as int) =~= names);
            assert(alias_names(notes@, i + 1) == alias_names(notes@, i as int) + names);
            let t1 = notes@.take(i + 1);
            let t0 = notes@.take(i as int);
            assert forall|k: Seq<char>| #[trigger]
                entry_of(keys@, members@, k).to_set() == alias_holders(t1, k) by {
                let lhs = if names_expose(names, k) {
                    alias_holders(t0, k).insert(note.path@)
                } else {
                    alias_holders(t0, k)
                };
                assert forall|p: Seq<char>| lhs.contains(p) == alias_holders(t1, k).contains(p) by {
                    if exists|w: int|
                        0 <= w < t0.len() && #[trigger] t0[w].path@ == p && names_expose(
                            views(t0[w].aliases@),
                            k,
                        ) {
                        let w = choose|w: int|
                            0 <= w < t0.len() && #[trigger] t0[w].path@ == p && names_expose(
                                views(t0[w].aliases@),
                                k,
                            );
                        assert(t1[w] == t0[w]);
                    }
                    if exists|w: int|
                        0 <= w < t1.len() && #[trigger] t1[w].path@ == p && names_expose(
                            views(t1[w].aliases@),
                            k,
                        ) {
                        let w = choose|w: int|
                            0 <= w < t1.len() && #[trigger] t1[w].path@ == p && names_expose(
                                views(t1[w].aliases@),
                                k,
                            );
                        if w < i {
                            assert(t0[w] == t1[w]);
                        } else {
                            assert(t1[w] == notes@[i as int]);
                        }
                    }
                    if names_expose(names, k) && p == note.path@ {
                        assert(t1[i as int] == notes@[i as int]);
                    }
                }
                assert(lhs =~= alias_holders(t1, k));
            }
        }
        i += 1;
    }
    assert(notes@.take(notes.len() as int) =~= notes@);
    (keys, members)
}

/// The `collision.alias` finding for the key `key` shared by the sorted `members`.
fn collision(key: &String, members: &Vec<String>) -> (f: Finding)
    requires
        members@.len() >= 2,
    ensures
        f@ == collision_spec(key@, views(members@)),
{
    let mut listed: Vec<String> = Vec::new();
    let mut j: usize = 0;
    while j < members.len()
        invariant
            j <= members.len(),
            views(listed@) == views(members@).take(j as int),
        decreases members.len() - j,
    {
        let ghost prev = listed@;
        listed.push(owned(members[j].as_str()));
        j += 1;
        assert(views(listed@) =~= views(prev).push(members@[j - 1]@));
        assert(views(members@).take(j as int) =~= views(members@).take(j - 1).push(
            members@[j - 1]@,
        ));
    }
    assert(views(members@).take(members.len() as int) =~= views(members@));
    let first = members[0].as_str();
    let f = Finding {
        rule_id: owned("collision.alias"),
        severity: Severity::Warn,
        path: owned(first),
        line: None,
        field: Some(owned("aliases")),
        message: concat3("alias「", key.as_str(), "」由多個筆記共用"),
        evidence: concat3("連到「", key.as_str(), "」的 wikilink 在 Obsidian 無法確定解析到哪一篇"),
        suggested_action: owned("只讓一篇筆記保留這個 alias,其餘改用各自的名稱"),
        source_rule: owned("Note-Schema.md#aliases"),
        target: Some(owned(key.as_str())),
        resolved_to: None,
        collision_members: listed,
        fingerprint: fingerprint("collision.alias", first, key.as_str()),
    };
    assert(f@.collision_members =~= views(members@));
    f
}

/// `collision.alias`: one finding per normalized alias that two or more notes declare.
fn alias_collisions(notes: &Vec<Note>, out: &mut Vec<Finding>)
    ensures
        findings_view(final(out)@) == findings_view(old(out)@) + collision_findings_spec(notes@),
{
    let ghost start = findings_view(out@);
    let (keys, members) = alias_table(notes);
    let ghost kv = views(keys@);
    assert(collisions_from(notes@, kv.take(0)) =~= Seq::<FindingV>::empty()) by {
        assert(kv.take(0) =~= Seq::<Seq<char>>::empty());
    }
    assert(start + collisions_from(notes@, kv.take(0)) =~= start);
    let mut t: usize = 0;
    while t < keys.len()
        invariant
            t <= keys.len(),
            table_wf(keys@, members@),
            kv == views(keys@),
            forall|k: Seq<char>| #[trigger]
                entry_of(keys@, members@, k).to_set() == alias_holders(notes@, k),
            findings_view(out@) == start + collisions_from(notes@, kv.take(t as int)),
        decreases keys.len() - t,
    {
        let ghost prev = out@;
        proof {
            lemma_entry_at(keys@, members@, t as int);
            let ms = views(members@[t as int]@);
            let q = sorted_list(alias_holders(notes@, kv[t as int]));
            assert(sorted_strict(ms) && ms.to_set() == alias_holders(notes@, kv[t as int]));
            lemma_sorted_strict_unique(q, ms);
            assert(kv.take(t + 1).drop_last() =~= kv.take(t as int));
            assert(kv.take(t + 1).last() == kv[t as int]);
        }
        if members[t].len() >= 2 {
            out.push(collision(&keys[t], &members[t]));
            assert(findings_view(out@) =~= findings_view(prev).push(out@[prev.len() as int]@));
        }
        t += 1;
    }
    assert(kv.take(keys.len() as int) =~= kv);
}

/// Run every rule over `graph`, returning unsorted findings.
pub fn run(graph: &Graph) -> (out: Vec<Finding>)
    ensures
        findings_view(out@) == run_spec(*graph),
{
    let titles = title_index(&graph.notes);
    let mut findings: Vec<Finding> = Vec::new();
    link_health(graph, &titles, &mut findings);
    alias_collisions(&graph.notes, &mut findings);
    assert(findings_view(Seq::<Finding>::empty()) =~= Seq::<FindingV>::empty());
    proof {
        assert(Seq::<FindingV>::empty() + link_health_spec(*graph, graph.notes@.len() as int)
            =~= link_health_spec(*graph, graph.notes@.len() as int));
    }
    findings
}

} // verus!
