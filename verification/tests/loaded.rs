//! The assembly that follows each outside call, run on given YAML entries and markdown events.

use kura::note::{first_mapping_of, YamlValue};
use kura::wikilink::{
    extract_from_events, extract_path_refs_from_events, extract_planned_names_from_events, MdEvent,
};
use kura::Note;

fn key(s: &str) -> Option<String> {
    Some(s.to_owned())
}

#[test]
fn from_loaded_reads_the_given_entries_and_events() {
    let content = "---\nanything\n---\n```\n[[Hidden]]\n```\n[[Shown]]\n";
    let entries = vec![
        (key("title"), YamlValue::Str("T".to_owned())),
        (key("aliases"), YamlValue::List(vec![Some("A".to_owned()), None])),
        (key("related"), YamlValue::Str("[[R]]".to_owned())),
        (None, YamlValue::Other),
    ];
    // The body starts after the closing fence; its code block spans bytes 0..19.
    let events = vec![MdEvent::CodeBlockStart(0), MdEvent::CodeBlockEnd(19)];
    let n = Note::from_loaded("n.md", content, &entries, &events);
    assert_eq!(n.title.as_deref(), Some("T"));
    assert_eq!(n.aliases, ["A"]);
    assert_eq!(n.related, ["[[R]]"]);
    assert!(!n.no_frontmatter);
    let targets: Vec<&str> = n.wikilinks.iter().map(|w| w.target.as_str()).collect();
    assert_eq!(targets, ["Shown"]);
    assert_eq!(n.wikilinks[0].line, 7);
}

#[test]
fn from_loaded_ignores_entries_without_frontmatter() {
    let entries = vec![(key("title"), YamlValue::Str("T".to_owned()))];
    let n = Note::from_loaded("n.md", "[[X]]\n", &entries, &[]);
    assert!(n.no_frontmatter);
    assert_eq!(n.title, None);
    assert_eq!(n.wikilinks.len(), 1);
}

#[test]
fn only_a_first_mapping_document_is_read() {
    let entries = vec![(key("slug"), YamlValue::Str("s".to_owned()))];
    assert_eq!(first_mapping_of(vec![Some(entries.clone()), None]).len(), 1);
    assert!(first_mapping_of(vec![None, Some(entries)]).is_empty());
    assert!(first_mapping_of(Vec::new()).is_empty());
}

#[test]
fn extraction_follows_the_given_events() {
    let body = "[[A]] `[[B]]` [[C]]\n";
    // An inline code span over bytes 6..13 hides [[B]].
    let with_code = vec![MdEvent::Code(6, 13, "[[B]]".to_owned())];
    let targets: Vec<String> = extract_from_events(body, 1, &with_code)
        .into_iter()
        .map(|w| w.target)
        .collect();
    assert_eq!(targets, ["A", "C"]);
    let refs = extract_path_refs_from_events(
        "see [x](../a.md)\n",
        3,
        &[MdEvent::LinkStart(4, "../a.md".to_owned())],
    );
    assert_eq!(refs.len(), 1);
    assert_eq!(refs[0].target, "../a.md");
    assert_eq!(refs[0].line, 3);
    assert!(!refs[0].code);
}

#[test]
fn planned_names_follow_the_given_heading_events() {
    let body = "## 缺口\n- Memory Model\n";
    let events = vec![
        MdEvent::HeadingStart(0, 2),
        MdEvent::Text("缺口".to_owned()),
        MdEvent::HeadingEnd,
    ];
    assert_eq!(extract_planned_names_from_events(body, &events), ["Memory Model"]);
    assert!(extract_planned_names_from_events(body, &[]).is_empty());
}
