//! Coverage, rule and lookup behaviour over small in-memory vaults.

use kura::coverage::compute;
use kura::existence::lookup;
use kura::rules::run;
use kura::model::{fingerprint, Finding, Severity};
use kura::report::{domain_of, human, markdown};
use kura::schema::{check as schema_check, Enums, Fields, Rules, Scan, Schema, StatusEnums, StatusGroup};
use kura::{Graph, Note, Report};

/// Build a graph from `(path, content)` pairs, with no non-md resources.
fn graph(notes: &[(&str, &str)]) -> Graph {
    Graph::build(
        notes
            .iter()
            .map(|(p, c)| Note::from_markdown(p, c))
            .collect(),
        &[],
    )
}

#[test]
fn classifies_concepts_by_inbound_edge_source() {
    let g = graph(&[
        (
            "Concepts/golang/Mounted.md",
            "---\ntype: concept\ndomain: golang\n---\n",
        ),
        (
            "Concepts/golang/Pending.md",
            "---\ntype: concept\ndomain: golang\n---\n",
        ),
        (
            "Concepts/golang/Orphan.md",
            "---\ntype: concept\ndomain: golang\n---\n",
        ),
        (
            "Maps/topics/Go MOC.md",
            "---\ntype: topic-map\ndomain: golang\n---\n[[Mounted]]\n",
        ),
        (
            "Writing/lessons/golang/L1.md",
            "---\ntype: lesson\ndomain: golang\nbased_on:\n  - \"[[Pending]]\"\n---\n",
        ),
    ]);
    let cov = compute(&g);
    assert_eq!(cov.total_concepts, 3);
    assert_eq!(cov.orphans, ["Concepts/golang/Orphan.md"]);
    assert_eq!(cov.pending_mount, ["Concepts/golang/Pending.md"]);
    let golang = cov.domains.iter().find(|d| d.domain == "golang").unwrap();
    assert_eq!(
        (golang.mounted, golang.pending_mount, golang.orphan),
        (1, 1, 1)
    );
}


fn link(rule: &str, sev: Severity, path: &str, target: &str) -> Finding {
    Finding {
        rule_id: rule.to_owned(),
        severity: sev,
        path: path.to_owned(),
        line: Some(1),
        field: None,
        message: format!("[[{target}]] resolves to no note"),
        evidence: String::new(),
        suggested_action: String::new(),
        source_rule: String::new(),
        target: Some(target.to_owned()),
        resolved_to: None,
        collision_members: Vec::new(),
        fingerprint: fingerprint(rule, path, target),
    }
}

#[test]
fn domain_inferred_from_path() {
    assert_eq!(domain_of("Concepts/golang/X.md"), "golang");
    assert_eq!(domain_of("Writing/lessons/rust/Y.md"), "rust");
    assert_eq!(domain_of("Sources/oreilly/DDIA.md"), "(other)");
}

#[test]
fn leverage_folds_a_target_cited_across_notes() {
    // [[Foo]] cited by two golang notes (warn) -> leverage ×2; a single ref is not leveraged.
    let report = Report {
        findings: vec![
            link("link.broken", Severity::Warn, "Concepts/golang/A.md", "Foo"),
            link("link.broken", Severity::Warn, "Concepts/golang/B.md", "Foo"),
            link("link.broken", Severity::Warn, "Concepts/golang/C.md", "Bar"),
        ],
    };
    let out = human(&report);
    assert!(out.contains("×2 [[Foo]] (broken)"), "{out}");
    assert!(
        !out.contains("[[Bar]] ("),
        "single-ref target is not in the leverage callout"
    );
}

#[test]
fn hidden_count_includes_every_info_not_just_link_broken() {
    // a planned map link (map.disk_mismatch, Info) must be counted as hidden, not lost.
    let report = Report {
        findings: vec![
            link("map.disk_mismatch", Severity::Info, "Maps/x.md", "Lesson"),
            link(
                "link.broken.path",
                Severity::Info,
                "Writing/lessons/golang/a.md",
                "exam/x.md",
            ),
            link(
                "link.broken",
                Severity::Warn,
                "Concepts/golang/b.md",
                "Real",
            ),
        ],
    };
    let out = human(&report);
    assert!(out.contains("2 hidden"), "{out}");
    assert!(out.contains("1 planned forward-refs"), "{out}");
    assert!(out.contains("1 external paths"), "{out}");
}

#[test]
fn markdown_escapes_table_and_link_breaking_chars() {
    let mut f = link(
        "collision.alias",
        Severity::Warn,
        "Concepts/golang/a.md",
        "x",
    );
    f.message = "alias has a | pipe, a <tag>, and [[Wiki]]".to_owned();
    let md = markdown(&Report { findings: vec![f] });
    assert!(!md.contains("a | pipe"), "a raw pipe breaks a table: {md}");
    assert!(md.contains("\\|") && md.contains("&lt;tag&gt;"));
    assert!(
        !md.contains("[[Wiki]]"),
        "the report must not emit a live wikilink: {md}"
    );
}

#[test]
fn planned_forward_refs_are_counted_not_listed_in_body() {
    let report = Report {
        findings: vec![
            link(
                "link.broken",
                Severity::Info,
                "Concepts/golang/A.md",
                "Planned",
            ),
            link(
                "link.broken",
                Severity::Warn,
                "Concepts/golang/B.md",
                "RealBug",
            ),
        ],
    };
    let out = human(&report);
    assert!(out.contains("1 planned forward-refs"));
    // the info finding is folded into the count, not printed as an actionable line
    assert!(!out.contains("[[Planned]] resolves"), "{out}");
    assert!(out.contains("[[RealBug]] resolves"));
}

fn strings(v: &[&str]) -> Vec<String> {
    v.iter().map(|s| (*s).to_owned()).collect()
}

/// The schema fixture: the same values a `vault-schema.toml` would hold.
fn fixture_schema() -> Schema {
    Schema {
        enums: Enums {
            types: strings(&["concept", "lesson", "system"]),
            domain: strings(&["golang", "japanese"]),
            source_kind: strings(&["course"]),
            source_provider: strings(&["ardanlabs"]),
            level: strings(&["fundamental"]),
            map_kind: strings(&["topic"]),
            status: StatusEnums {
                note: strings(&["seedling", "ready"]),
                system: strings(&["active"]),
                lesson: strings(&["draft", "ready"]),
            },
        },
        fields: Fields {
            required: strings(&["title", "type", "domain"]),
            required_inbox: strings(&["title", "type"]),
            known: strings(&[
                "title",
                "type",
                "domain",
                "status",
                "based_on",
                "source_locator",
                "tags",
            ]),
            lesson_only: strings(&["slug"]),
            status_group: StatusGroup {
                system: strings(&["system", "guide"]),
            },
        },
        rules: Rules {
            domain_equals_folder_under: strings(&["Concepts"]),
            concept_requires_provenance: strings(&["based_on", "source_locator"]),
            slug_pattern: "^[a-z0-9]+(-[a-z0-9]+)*$".to_owned(),
            forbid_tag_with_slash: true,
        },
        scan: Scan {
            knowledge_dirs: strings(&["Concepts", "Sources"]),
            skip_basenames: strings(&["README.md"]),
        },
    }
}

/// Each violation class fires once, on the right field and value.
#[test]
fn schema_checks_match_each_violation_class() {
    let schema = fixture_schema();
    let notes = [
        // bad type enum + unknown key
        Note::from_markdown(
            "Concepts/golang/A.md",
            "---\ntitle: X\ntype: widget\ndomain: golang\nstatus: seedling\nextra: 1\n---\n",
        ),
        // lesson slug fails the kebab pattern
        Note::from_markdown(
            "Concepts/golang/B.md",
            "---\ntitle: Y\ntype: lesson\ndomain: golang\nslug: Not Kebab\n---\n",
        ),
        // domain valid but != folder, and a concept with no provenance
        Note::from_markdown(
            "Concepts/japanese/C.md",
            "---\ntitle: Z\ntype: concept\ndomain: golang\nstatus: seedling\n---\n",
        ),
        // domain not in enum
        Note::from_markdown(
            "Sources/r/D.md",
            "---\ntitle: T\ntype: concept\ndomain: nim\nbased_on:\n  - \"[[Y]]\"\n---\n",
        ),
        // missing a required field (domain)
        Note::from_markdown(
            "Sources/r/E.md",
            "---\ntitle: E\ntype: concept\nbased_on:\n  - \"[[Z]]\"\n---\n",
        ),
        // skipped: README basename and out-of-scan System/
        Note::from_markdown("Concepts/golang/README.md", "---\ntype: nope\n---\n"),
        Note::from_markdown("System/x.md", "---\ntype: nope\n---\n"),
    ];
    let got: std::collections::BTreeSet<(String, String, String)> = schema_check(&notes, &schema)
        .into_iter()
        .map(|f| {
            (
                f.rule_id,
                f.field.unwrap_or_default(),
                f.target.unwrap_or_default(),
            )
        })
        .collect();
    let want: std::collections::BTreeSet<(String, String, String)> = [
        ("schema.enum", "type", "widget"),
        ("schema.unknown_key", "", "extra"),
        ("schema.slug", "slug", "Not Kebab"),
        ("schema.domain_folder", "domain", "golang"),
        ("schema.provenance", "", ""),
        ("schema.enum", "domain", "nim"),
        ("schema.required", "domain", ""),
    ]
    .into_iter()
    .map(|(r, f, t)| (r.to_owned(), f.to_owned(), t.to_owned()))
    .collect();
    assert_eq!(got, want);
}

fn rule_ids(graph: &Graph) -> Vec<String> {
    run(graph).into_iter().map(|f| f.rule_id).collect()
}

#[test]
fn title_link_that_is_not_an_alias_is_flagged() {
    let g = graph(&[
        (
            "Concepts/golang/Go Slice.md",
            "---\ntitle: \"Go Slice 內部結構\"\naliases:\n  - Slice Header\n---\nbody\n",
        ),
        ("note.md", "see [[Go Slice 內部結構]]\n"),
    ]);
    let findings = run(&g);
    assert_eq!(findings.len(), 1);
    assert_eq!(findings[0].rule_id, "link.title_not_alias");
    assert_eq!(findings[0].path, "note.md");
    assert_eq!(findings[0].severity, Severity::Warn);
}

#[test]
fn resolvable_link_produces_no_finding() {
    let g = graph(&[
        ("Go Slice.md", "body"),
        ("note.md", "see [[Go Slice]] and [[Slice Header]]\n"),
    ]);
    // Go Slice.md has no alias "Slice Header" here, so that one is a real break; the filename
    // link resolves.
    let ids = rule_ids(&g);
    assert_eq!(ids, ["link.broken"]);
}

#[test]
fn unknown_link_is_broken_warn_planned_link_is_info() {
    let g = graph(&[(
        "n.md",
        "real text [[Ghost]]\n\n## 缺口 / 待補\n[[Planned Note]]\n",
    )]);
    let findings = run(&g);
    let by_target = |t: &str| {
        findings
            .iter()
            .find(|f| f.target.as_deref() == Some(t))
            .unwrap()
    };
    assert_eq!(by_target("Ghost").severity, Severity::Warn);
    assert_eq!(by_target("Planned Note").severity, Severity::Info);
}

#[test]
fn finds_by_title_even_though_resolver_would_not() {
    // The resolver excludes the title, but the existence lookup must find a note by its title.
    let g = graph(&[(
        "Concepts/golang/Go Slice.md",
        "---\ntitle: \"Go Slice 內部結構\"\naliases:\n  - Slice Header\n---\n",
    )]);
    let r = lookup(&g, "Go Slice 內部結構");
    assert!(r.found());
    assert_eq!(r.matches[0].field, "title");
    // and by filename, alias, case-insensitively
    assert_eq!(lookup(&g, "go slice").matches[0].field, "filename");
    assert_eq!(lookup(&g, "Slice Header").matches[0].field, "alias");
}

#[test]
fn reports_not_found_for_an_unwritten_name() {
    let g = graph(&[("a.md", "body")]);
    assert!(!lookup(&g, "Never Written").found());
}
