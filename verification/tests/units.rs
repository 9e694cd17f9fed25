//! Unit-level cases for the scanners, the resolver's name forms, and the fingerprint.

use kura::graph::{filename_stem, normalize};
use kura::model::fingerprint;
use kura::note::split_frontmatter;
use kura::wikilink::{comment_zones, raw_wikilinks, strip_target};

#[test]
fn normalize_is_trim_nfc_lowercase() {
    assert_eq!(normalize("  Go Slice  "), "go slice");
    assert_eq!(normalize("cafe\u{0301}"), normalize("caf\u{00e9}"));
}

#[test]
fn filename_stem_drops_dir_and_extension() {
    assert_eq!(filename_stem("Concepts/golang/Go Slice.md"), "Go Slice");
    assert_eq!(filename_stem("Foo.md"), "Foo");
}

#[test]
fn fingerprint_is_stable_and_field_sensitive() {
    assert_eq!(
        fingerprint("link.broken", "a/b.md", "X"),
        fingerprint("link.broken", "a/b.md", "X"),
    );
    assert_ne!(
        fingerprint("link.broken", "a/b.md", "X"),
        fingerprint("link.broken", "a/b.md", "Y"),
    );
    assert_ne!(fingerprint("ab", "", "X"), fingerprint("a", "b", "X"),);
}

#[test]
fn no_frontmatter_yields_whole_body_at_line_one() {
    let (fm, body, line) = split_frontmatter("# hello\nbody\n");
    assert!(fm.is_none());
    assert_eq!(body, "# hello\nbody\n");
    assert_eq!(line, 1);
}

#[test]
fn frontmatter_split_reports_body_start_line() {
    let (fm, body, line) = split_frontmatter("---\ntitle: X\n---\nbody\n");
    assert_eq!(fm.as_deref(), Some("title: X\n"));
    assert_eq!(body, "body\n");
    assert_eq!(line, 4);
}

#[test]
fn unterminated_frontmatter_is_treated_as_body() {
    let (fm, _, line) = split_frontmatter("---\ntitle: X\nbody with no closing fence\n");
    assert!(fm.is_none());
    assert_eq!(line, 1);
}

#[test]
fn strips_display_heading_and_block() {
    assert_eq!(strip_target("X|disp").as_deref(), Some("X"));
    assert_eq!(strip_target("X#Heading").as_deref(), Some("X"));
    assert_eq!(strip_target("X^block").as_deref(), Some("X"));
    assert_eq!(strip_target("X#H|disp").as_deref(), Some("X"));
    assert_eq!(strip_target("X\\|disp").as_deref(), Some("X"));
}

#[test]
fn pure_anchor_strips_to_none() {
    assert_eq!(strip_target("#Heading"), None);
}

fn raw(body: &str) -> Vec<(usize, String)> {
    raw_wikilinks(body)
}

#[test]
fn raw_scan_ignores_unterminated_and_multiline() {
    assert_eq!(raw("[[a]] [[b]]"), vec![(0, "a".to_string()), (6, "b".to_string())]);
    assert_eq!(raw("[[open with no close"), vec![]);
    assert_eq!(raw("[[line one\nline two]]"), vec![]);
}

#[test]
fn comment_zones_pair_double_percent() {
    let zones = comment_zones("a %%c%% b", &[]);
    assert_eq!(zones.len(), 1);
    assert_eq!(zones[0], (2, 7));
    assert!(comment_zones("none here", &[]).is_empty());
}

#[test]
fn double_percent_inside_code_does_not_shift_pairing() {
    let body = "x %% y %%[[Real]]%%";
    let code = vec![(2usize, 4usize)];
    let zones = comment_zones(body, &code);
    assert_eq!(zones.len(), 1);
    let at = body.find("[[Real]]").unwrap();
    assert!(zones[0].0 <= at && at < zones[0].1);
}
