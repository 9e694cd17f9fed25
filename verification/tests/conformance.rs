//! Conformance fixtures that pin resolver fidelity to real Obsidian behavior, built from in-memory
//! markdown through the public API (no disk access).

use kura::graph::Resolution;
use kura::{check, Graph, Note};

/// Build a graph from `(path, content)` pairs, with no non-md resources.
fn build_graph(notes: &[(&str, &str)]) -> Graph {
    Graph::build(
        notes
            .iter()
            .map(|(p, c)| Note::from_markdown(p, c))
            .collect(),
        &[],
    )
}

#[test]
fn title_is_not_a_resolution_key() {
    let g = build_graph(&[(
        "Concepts/golang/Go Slice.md",
        "---\ntitle: \"Go Slice 內部結構\"\naliases:\n  - Slice Header\n---\nbody\n",
    )]);
    let path = "Concepts/golang/Go Slice.md";
    assert_eq!(g.symbols.resolve("Go Slice"), Resolution::One(path));
    assert_eq!(g.symbols.resolve("Slice Header"), Resolution::One(path));
    assert_eq!(
        g.symbols.resolve("Go Slice 內部結構"),
        Resolution::Unresolved
    );
}

#[test]
fn resolution_is_case_insensitive() {
    let g = build_graph(&[("a/Go Slice.md", "body")]);
    assert_eq!(
        g.symbols.resolve("go slice"),
        Resolution::One("a/Go Slice.md")
    );
    assert_eq!(
        g.symbols.resolve("GO SLICE"),
        Resolution::One("a/Go Slice.md")
    );
}

#[test]
fn resolution_is_nfc_insensitive() {
    let content = "---\naliases:\n  - cafe\u{0301}\n---\n";
    let g = build_graph(&[("x.md", content)]);
    assert_eq!(g.symbols.resolve("caf\u{00e9}"), Resolution::One("x.md"));
}

#[test]
fn duplicate_alias_is_ambiguous_not_guessed() {
    let g = build_graph(&[
        (
            "Concepts/golang/Go 連續記憶體與 CPU Cache.md",
            "---\naliases:\n  - Mechanical Sympathy\n---\n",
        ),
        (
            "Concepts/golang/薄抽象與硬體導向設計.md",
            "---\naliases:\n  - Mechanical Sympathy\n---\n",
        ),
    ]);
    match g.symbols.resolve("Mechanical Sympathy") {
        Resolution::Ambiguous(members) => assert_eq!(members.len(), 2),
        other => panic!("expected ambiguous, got {other:?}"),
    }
}

#[test]
fn same_filename_different_folder_is_ambiguous() {
    let g = build_graph(&[("golang/Foo.md", "body"), ("rust/Foo.md", "body")]);
    assert!(matches!(g.symbols.resolve("Foo"), Resolution::Ambiguous(_)));
}

#[test]
fn anchor_is_stripped_and_file_resolved() {
    let g = build_graph(&[
        ("Go Slice.md", "body"),
        (
            "note.md",
            "see [[Go Slice#Internals]] and [[Go Slice^abc]]\n",
        ),
    ]);
    let note = g.notes.iter().find(|n| n.path == "note.md").unwrap();
    assert_eq!(note.wikilinks.len(), 2);
    for link in &note.wikilinks {
        assert_eq!(link.target, "Go Slice");
        assert_eq!(
            g.symbols.resolve(&link.target),
            Resolution::One("Go Slice.md")
        );
    }
}

#[test]
fn non_md_resource_resolves_by_full_filename() {
    let notes = vec![Note::from_markdown(
        "Sources/DDIA.md",
        "see [[DDIA-Ch1-Overview.canvas|x]] and [[DDIA-Ch2.canvas]]\n",
    )];
    let resources = vec!["Diagrams/canvas/DDIA-Ch1-Overview.canvas".to_string()];
    let g = Graph::build(notes, &resources);
    assert_eq!(
        g.symbols.resolve("DDIA-Ch1-Overview.canvas"),
        Resolution::One("Diagrams/canvas/DDIA-Ch1-Overview.canvas"),
    );
    assert_eq!(g.symbols.resolve("DDIA-Ch2.canvas"), Resolution::Unresolved);
}

#[test]
fn path_qualified_link_resolves() {
    let g = build_graph(&[
        ("Concepts/golang/Go Slice.md", "body"),
        (
            "note.md",
            "[[Concepts/golang/Go Slice]] and [[Concepts/golang/Go Slice.md]]\n",
        ),
    ]);
    let p = "Concepts/golang/Go Slice.md";
    assert_eq!(
        g.symbols.resolve("Concepts/golang/Go Slice"),
        Resolution::One(p)
    );
    assert_eq!(
        g.symbols.resolve("Concepts/golang/Go Slice.md"),
        Resolution::One(p)
    );
    assert_eq!(g.symbols.resolve("Go Slice"), Resolution::One(p));
}

#[test]
fn md_extension_link_resolves() {
    let g = build_graph(&[("Go Slice.md", "body")]);
    assert_eq!(
        g.symbols.resolve("Go Slice.md"),
        Resolution::One("Go Slice.md")
    );
    assert_eq!(
        g.symbols.resolve("Go Slice"),
        Resolution::One("Go Slice.md")
    );
}

#[test]
fn escaped_table_pipe_link_resolves() {
    let g = build_graph(&[
        ("Go Slice.md", "body"),
        ("t.md", "| h |\n| - |\n| [[Go Slice\\|see]] |\n"),
    ]);
    let note = g.notes.iter().find(|n| n.path == "t.md").unwrap();
    assert_eq!(note.wikilinks.len(), 1);
    assert_eq!(note.wikilinks[0].target, "Go Slice");
    assert_eq!(
        g.symbols.resolve("Go Slice"),
        Resolution::One("Go Slice.md")
    );
}

#[test]
fn wikilinks_in_code_are_skipped() {
    let body = "text [[Real]]\n```\n[[InCodeBlock]]\n```\ninline `[[InCodeSpan]]`\n";
    let note = Note::from_markdown("n.md", body);
    let targets: Vec<&str> = note.wikilinks.iter().map(|w| w.target.as_str()).collect();
    assert_eq!(targets, ["Real"]);
}

#[test]
fn wikilinks_in_obsidian_comments_are_skipped() {
    let note = Note::from_markdown("n.md", "%%[[Commented]]%% and [[Real]]\n");
    let targets: Vec<&str> = note.wikilinks.iter().map(|w| w.target.as_str()).collect();
    assert_eq!(targets, ["Real"]);
}

#[test]
fn pure_anchor_link_is_ignored() {
    let note = Note::from_markdown("n.md", "jump [[#Section]] here\n");
    assert!(note.wikilinks.is_empty());
}

#[test]
fn gap_heading_marks_links_planned() {
    let body = "## Body\n[[Solid]]\n\n## 缺口 / 待補\n[[Planned]]\n\n## 待整理\n[[Loose]]\n";
    let note = Note::from_markdown("n.md", body);
    let find = |t: &str| note.wikilinks.iter().find(|w| w.target == t).unwrap();
    assert!(!find("Solid").under_gap_heading);
    assert!(find("Planned").under_gap_heading);
    assert!(find("Loose").under_gap_heading);
}

#[test]
fn wikilink_line_number_is_one_based_past_frontmatter() {
    let content = "---\ntitle: X\n---\nline four [[Target]]\n";
    let note = Note::from_markdown("n.md", content);
    assert_eq!(note.wikilinks[0].line, 4);
}

#[test]
fn collision_with_a_non_system_member_survives_default_scope() {
    // A collision between a System/ note and a knowledge note must not be dropped by the default
    // (System-excluded) scope just because its citing path sorts to the System/ member.
    let fm = "---\naliases:\n  - Shared\n---\n";
    let notes = vec![
        Note::from_markdown("System/A.md", fm),
        Note::from_markdown("Writing/B.md", fm),
    ];
    let report = check(notes, &[], &[], false);
    let collisions = report
        .findings
        .iter()
        .filter(|f| f.rule_id == "collision.alias")
        .count();
    assert_eq!(collisions, 1, "kept because Writing/B.md is in scope");
}

#[test]
fn shared_alias_is_one_finding_listing_every_member() {
    let notes = vec![
        Note::from_markdown(
            "Concepts/golang/Go 連續記憶體與 CPU Cache.md",
            "---\naliases:\n  - Mechanical Sympathy\n---\n",
        ),
        Note::from_markdown(
            "Concepts/golang/薄抽象與硬體導向設計.md",
            "---\naliases:\n  - Mechanical Sympathy\n---\n",
        ),
        Note::from_markdown(
            "Writing/lessons/golang/Arrays- Mechanical Sympathy.md",
            "---\naliases:\n  - mechanical sympathy\n  - Arrays\n---\n",
        ),
        Note::from_markdown("Concepts/golang/Solo.md", "---\naliases:\n  - Alone\n---\n"),
    ];
    let report = check(notes, &[], &[], false);
    let collisions: Vec<_> = report
        .findings
        .iter()
        .filter(|f| f.rule_id == "collision.alias")
        .collect();
    assert_eq!(collisions.len(), 1);
    let f = collisions[0];
    assert_eq!(f.target.as_deref(), Some("mechanical sympathy"));
    assert_eq!(f.path, "Concepts/golang/Go 連續記憶體與 CPU Cache.md");
    assert_eq!(
        f.collision_members,
        [
            "Concepts/golang/Go 連續記憶體與 CPU Cache.md",
            "Concepts/golang/薄抽象與硬體導向設計.md",
            "Writing/lessons/golang/Arrays- Mechanical Sympathy.md",
        ]
    );
    assert_eq!(f.line, None);
    assert_eq!(f.field.as_deref(), Some("aliases"));
}

#[test]
fn an_alias_repeated_within_one_note_is_no_collision() {
    let notes = vec![Note::from_markdown(
        "a.md",
        "---\naliases:\n  - Twice\n  - twice\n---\n",
    )];
    let report = check(notes, &[], &[], true);
    assert!(report.findings.is_empty());
}
