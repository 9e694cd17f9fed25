//! Path resolution, path-reference checks, planned names and walk assembly.

use kura::diskref::{check, resolve_within_root, stat_targets};
use kura::vault::{relative_key, Walk};
use kura::wikilink::{extract_planned_names, push_planned_names, strip_parens};
use kura::{Note, Severity};

#[test]
fn resolve_collapses_dot_segments() {
    assert_eq!(
        resolve_within_root("Concepts/golang", "../rust/X.md").as_deref(),
        Some("Concepts/rust/X.md")
    );
    assert_eq!(
        resolve_within_root("Maps/topics", "./a/b.md").as_deref(),
        Some("Maps/topics/a/b.md")
    );
    // root-relative (empty base)
    assert_eq!(
        resolve_within_root("", "System/reports/x.md").as_deref(),
        Some("System/reports/x.md")
    );
}

#[test]
fn resolve_returns_none_when_it_escapes_root() {
    // five `..` from a three-deep dir climbs above the vault root
    assert_eq!(
        resolve_within_root("Writing/lessons/golang", "../../../../../exam/go/x.md"),
        None
    );
}

#[test]
fn path_refs_are_dead_external_or_fine() {
    let note = Note::from_markdown(
        "Concepts/golang/A.md",
        "[ok](../rust/B.md)\n\n[gone](../rust/C.md)\n\n[out](../../../x.md)\n",
    );
    let notes = [note];
    assert_eq!(
        stat_targets(&notes),
        ["Concepts/rust/B.md", "Concepts/rust/C.md"]
    );
    let found = check(&notes, &["Concepts/rust/B.md".to_owned()]);
    assert_eq!(found.len(), 2);
    assert_eq!(found[0].severity, Severity::Warn);
    assert_eq!(found[0].rule_id, "link.broken.path");
    assert_eq!(found[0].target.as_deref(), Some("../rust/C.md"));
    assert_eq!(
        found[0].evidence,
        "Concepts/rust/C.md does not exist in the vault"
    );
    assert_eq!(found[0].line, Some(3));
    assert_eq!(found[1].severity, Severity::Info);
    assert_eq!(found[1].target.as_deref(), Some("../../../x.md"));
}

#[test]
fn backticked_path_is_accepted_root_or_note_relative() {
    let note = Note::from_markdown(
        "Writing/lessons/golang/L.md",
        "see `System/reports/x.md` and `exam/y.md`\n",
    );
    let notes = [note];
    let targets = stat_targets(&notes);
    assert_eq!(
        targets,
        [
            "System/reports/x.md",
            "Writing/lessons/golang/System/reports/x.md",
            "exam/y.md",
            "Writing/lessons/golang/exam/y.md",
        ]
    );
    // note-relative hit for the second token, nothing for the first
    let found = check(&notes, &["Writing/lessons/golang/exam/y.md".to_owned()]);
    assert_eq!(found.len(), 1);
    assert_eq!(found[0].target.as_deref(), Some("System/reports/x.md"));
    assert_eq!(found[0].severity, Severity::Warn);
}

#[test]
fn planned_names_come_from_gap_section_list_items() {
    let body = "# Go\n\n## 缺口\n\n- Goroutine 排程、Channel / Select (進階)\n- Memory Model\n  continued text\n\n## Other\n\n- Not planned\n";
    assert_eq!(
        extract_planned_names(body),
        [
            "Goroutine 排程",
            "Channel",
            "Select",
            "Memory Model continued text"
        ]
    );
}

#[test]
fn planned_entry_splits_and_drops_annotations() {
    assert_eq!(strip_parens("A（注）B(x(y)z)C)"), "ABC");
    let mut out = Vec::new();
    push_planned_names("甲、乙 / 丙、 ", &mut out);
    assert_eq!(out, ["甲", "乙", "丙"]);
}

#[test]
fn relative_key_uses_forward_slashes_and_nfc() {
    assert_eq!(
        relative_key("Concepts\\golang\\cafe\u{301}.md", '\\'),
        "Concepts/golang/caf\u{e9}.md"
    );
}

#[test]
fn walk_lists_are_sorted_by_path() {
    let notes = vec![
        Note::from_markdown("b.md", "x"),
        Note::from_markdown("a.md", "y"),
    ];
    let w = Walk::sorted(notes, vec!["z.png".to_owned(), "c.canvas".to_owned()]);
    let paths: Vec<&str> = w.notes.iter().map(|n| n.path.as_str()).collect();
    assert_eq!(paths, ["a.md", "b.md"]);
    assert_eq!(w.resources, ["c.canvas", "z.png"]);
}
