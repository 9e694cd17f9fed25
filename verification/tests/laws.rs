//! Concrete instances of the library-wide properties: ordering, counting, gating, rendering.

use kura::checks::report_has_deny;
use kura::coverage::compute;
use kura::model::{fingerprint, Finding, Severity};
use kura::report::{escape_md, human, markdown, pack};
use kura::graph::Resolution;
use kura::{check, Graph, Note, Report};

fn note(path: &str, content: &str) -> Note {
    Note::from_markdown(path, content)
}

fn finding(rule: &str, sev: Severity, path: &str, target: &str) -> Finding {
    Finding {
        rule_id: rule.to_owned(),
        severity: sev,
        path: path.to_owned(),
        line: Some(1),
        field: None,
        message: format!("[[{target}]] resolves to no note"),
        evidence: String::new(),
        suggested_action: String::new(),
        source_rule: String::new(),
        target: Some(target.to_owned()),
        resolved_to: None,
        collision_members: Vec::new(),
        fingerprint: fingerprint(rule, path, target),
    }
}

#[test]
fn same_line_findings_keep_their_source_order() {
    let report = check(vec![note("n.md", "[[Zed]] [[Alpha]]\n")], &[], &[], true);
    let targets: Vec<&str> = report
        .findings
        .iter()
        .map(|f| f.target.as_deref().unwrap())
        .collect();
    assert_eq!(targets, ["Zed", "Alpha"]);
}

#[test]
fn check_orders_by_path_then_line_and_scopes_system_out() {
    let notes = vec![
        note("b.md", "x\n[[Gone]]\n"),
        note("a.md", "[[Ghost]]\n"),
        note("System/s.md", "[[Nowhere]]\n"),
    ];
    let report = check(notes, &[], &[], false);
    let paths: Vec<&str> = report.findings.iter().map(|f| f.path.as_str()).collect();
    assert_eq!(paths, ["a.md", "b.md"]);
    assert_eq!(report.findings[1].line, Some(2));
    let only_b = check(vec![note("b.md", "[[Gone]]\n")], &[], &["b.md".to_owned()], false);
    assert_eq!(only_b.findings.len(), 1);
}

#[test]
fn all_without_filters_reports_system_findings_too() {
    let notes = vec![
        note("a.md", "[[Ghost]]\n"),
        note("System/s.md", "[[Nowhere]]\n"),
    ];
    let report = check(notes, &[], &[], true);
    let paths: Vec<&str> = report.findings.iter().map(|f| f.path.as_str()).collect();
    assert_eq!(paths, ["System/s.md", "a.md"]);
}

#[test]
fn deny_naming_a_rule_trips_on_any_finding_of_that_rule() {
    let report = Report {
        findings: vec![
            finding("collision.alias", Severity::Info, "a.md", "x"),
            finding("link.broken", Severity::Warn, "b.md", "Y"),
        ],
    };
    assert!(report_has_deny(&report, Some("collision.alias")));
    assert!(report_has_deny(&report, Some("link.broken")));
    assert!(!report_has_deny(&report, Some("link.title_not_alias")));
    assert!(!report_has_deny(&report, Some("error")));
}

#[test]
fn coverage_domain_counts_add_up_to_the_total() {
    let g = Graph::build(
        vec![
            note("Concepts/go/A.md", "---\ntype: concept\ndomain: go\n---\n"),
            note("Concepts/go/B.md", "---\ntype: concept\ndomain: go\n---\n"),
            note("Concepts/rs/C.md", "---\ntype: concept\ndomain: rs\n---\n"),
            note("Concepts/x/D.md", "---\ntype: concept\n---\n"),
            note("Maps/m.md", "---\ntype: moc\n---\n[[A]] [[C]]\n"),
        ],
        &[],
    );
    let cov = compute(&g);
    assert_eq!(cov.total_concepts, 4);
    let sum: usize = cov.domains.iter().map(|d| d.concepts).sum();
    assert_eq!(sum, cov.total_concepts);
    let names: Vec<&str> = cov.domains.iter().map(|d| d.domain.as_str()).collect();
    assert_eq!(names, ["(none)", "go", "rs"]);
    for d in &cov.domains {
        assert_eq!(d.mounted + d.pending_mount + d.orphan, d.concepts);
    }
    assert_eq!(cov.orphans, ["Concepts/go/B.md", "Concepts/x/D.md"]);
}

#[test]
fn coverage_lists_match_the_per_domain_counts() {
    let g = Graph::build(
        vec![
            note("Concepts/go/A.md", "---\ntype: concept\ndomain: go\n---\n[[B]]\n"),
            note("Concepts/go/B.md", "---\ntype: concept\ndomain: go\n---\n"),
            note("Concepts/rs/C.md", "---\ntype: concept\ndomain: rs\n---\n"),
            note("Maps/m.md", "---\ntype: moc\n---\n[[A]]\n"),
        ],
        &[],
    );
    let cov = compute(&g);
    let pending: usize = cov.domains.iter().map(|d| d.pending_mount).sum();
    let orphan: usize = cov.domains.iter().map(|d| d.orphan).sum();
    assert_eq!(pending, cov.pending_mount.len());
    assert_eq!(orphan, cov.orphans.len());
    assert_eq!(cov.pending_mount, ["Concepts/go/B.md"]);
    assert_eq!(cov.orphans, ["Concepts/rs/C.md"]);
    assert!(cov.pending_mount.iter().all(|p| !cov.orphans.contains(p)));
}

#[test]
fn deny_threshold_is_monotone() {
    let warn_only = Report {
        findings: vec![finding("link.broken", Severity::Warn, "a.md", "X")],
    };
    assert!(report_has_deny(&warn_only, Some("warn")));
    assert!(!report_has_deny(&warn_only, Some("error")));
    assert!(!report_has_deny(&warn_only, None));
    assert!(!report_has_deny(&warn_only, Some("info")));
    let with_error = Report {
        findings: vec![finding("schema.enum", Severity::Error, "a.md", "X")],
    };
    assert!(report_has_deny(&with_error, Some("warn")));
    assert!(report_has_deny(&with_error, Some("error")));
    assert!(with_error.has_at_least(Severity::Info));
}

#[test]
fn human_report_renders_exactly() {
    let report = Report {
        findings: vec![
            finding("link.broken", Severity::Warn, "Concepts/golang/A.md", "Foo"),
            finding("link.broken", Severity::Warn, "Concepts/golang/B.md", "Foo"),
        ],
    };
    let want = format!(
        "2 findings: 0 error, 2 warn, 0 hidden (0 planned forward-refs, 0 external paths)\n\
         \ndebt by domain:\n  {:<20} 0 error · 2 warn\n\
         \nmost leveraged (create one, resolve many):\n  ×2 [[Foo]] (broken) — golang\n\
         \n▌ golang\n  [warn] ×2 [[Foo]] resolves to no note  (Concepts/golang/A.md)\n",
        "golang"
    );
    assert_eq!(human(&report), want);
}

#[test]
fn markdown_report_renders_exactly_and_deterministically() {
    let report = Report {
        findings: vec![
            finding("link.broken", Severity::Warn, "Concepts/golang/A.md", "Foo"),
            finding("link.broken.path", Severity::Info, "Maps/x.md", "y.md"),
        ],
    };
    let md = markdown(&report);
    let want = "---\ntype: report\ntool: kura\n---\n\n# kura check\n\n\
                2 findings — **0 error**, **1 warn**, 1 hidden.\n\n\
                ## Debt by domain\n\n| domain | error | warn |\n|---|--:|--:|\n| golang | 0 | 1 |\n\n\
                ## golang\n\n- `warn` [\\[Foo]\\] resolves to no note — Concepts/golang/A.md\n\n\
                <details><summary>0 tracked forward-references · 1 external paths (info)</summary>\n\n\
                - `link.broken.path` [\\[y.md]\\] resolves to no note — Maps/x.md\n\n</details>\n";
    assert_eq!(md, want);
    assert_eq!(md, markdown(&report));
}

#[test]
fn escape_md_neutralizes_each_breaking_sequence() {
    assert_eq!(escape_md("a|b<c>[[d]]"), "a\\|b&lt;c&gt;[\\[d]\\]");
    assert_eq!(escape_md("plain"), "plain");
}

#[test]
fn escaped_text_opens_no_link_unless_brackets_run_three_deep() {
    let escaped = escape_md("see [[A]] and [[B|b]]");
    assert!(!escaped.contains("[[") && !escaped.contains("]]"));
    assert_eq!(escape_md("[[["), "[\\[[");
    assert!(escape_md("[[[").contains("[["));
}

#[test]
fn summary_lists_actionable_findings() {
    let report = Report {
        findings: vec![
            finding("link.broken", Severity::Warn, "a.md", "X"),
            finding("link.broken", Severity::Info, "b.md", "Y"),
        ],
    };
    assert_eq!(
        report.summary(),
        "2 findings: 0 error, 1 warn, 1 info\n  [Warn] a.md:1 [[X]] resolves to no note\n"
    );
}

#[test]
fn scoreboard_columns_add_up_to_the_counts() {
    let report = Report {
        findings: vec![
            finding("link.broken", Severity::Warn, "Concepts/go/a.md", "X"),
            finding("schema.enum", Severity::Error, "Concepts/go/b.md", "Y"),
            finding("link.broken", Severity::Warn, "Concepts/rust/c.md", "Z"),
            finding("link.broken", Severity::Info, "Concepts/rust/d.md", "W"),
        ],
    };
    let p = pack(&report);
    let errors: usize = p.scoreboard.iter().map(|r| r.errors).sum();
    let warns: usize = p.scoreboard.iter().map(|r| r.warns).sum();
    assert_eq!((errors, warns), (1, 2));
    assert_eq!((p.errors, p.warns), (1, 2));
}

#[test]
fn markdown_header_counts_and_hidden_block() {
    let report = Report {
        findings: vec![
            finding("link.broken", Severity::Warn, "a.md", "X"),
            finding("link.broken", Severity::Info, "b.md", "Y"),
        ],
    };
    let md = markdown(&report);
    assert!(md.starts_with(
        "---\ntype: report\ntool: kura\n---\n\n# kura check\n\n2 findings — **0 error**, **1 warn**, 1 hidden.\n\n"
    ));
    assert!(md.contains("<details><summary>"));
    assert!(md.ends_with("\n</details>\n"));
    let quiet = markdown(&Report {
        findings: vec![finding("link.broken", Severity::Warn, "a.md", "X")],
    });
    assert!(!quiet.contains("<details>"));
}

#[test]
fn file_order_does_not_change_resolution() {
    let a = note("Concepts/A.md", "---\naliases:\n  - Shared\n---\n");
    let b = note("Writing/A.md", "---\naliases:\n  - Other\n---\n");
    let g1 = Graph::build(vec![a.clone(), b.clone()], &["img/A.png".to_owned()]);
    let g2 = Graph::build(vec![b, a], &["img/A.png".to_owned()]);
    for name in ["A", "shared", "Other", "A.png", "Nothing"] {
        assert_eq!(g1.symbols.resolve(name), g2.symbols.resolve(name));
    }
    assert!(matches!(g1.symbols.resolve("a"), Resolution::Ambiguous(_)));
}

#[test]
fn a_path_filter_only_removes_findings() {
    let notes = || {
        vec![
            note("Concepts/a.md", "[[Ghost]]\n"),
            note("Writing/b.md", "[[Gone]]\n"),
        ]
    };
    let all = check(notes(), &[], &[], false);
    let filtered = check(notes(), &[], &["Writing".to_owned()], false);
    assert_eq!(all.findings.len(), 2);
    assert_eq!(filtered.findings.len(), 1);
    assert!(all.findings.iter().any(|f| f.path == filtered.findings[0].path));
}

#[test]
fn unreadable_frontmatter_sets_no_field_and_a_lone_string_is_a_list() {
    let broken = note("n.md", "---\ntitle: [unclosed\naliases: x\n---\n[[Link]]\n");
    assert_eq!(broken.title, None);
    assert!(broken.aliases.is_empty());
    assert_eq!(broken.wikilinks.len(), 1);
    let lone = note("m.md", "---\naliases: Foo\n---\n");
    assert_eq!(lone.aliases, ["Foo"]);
}
