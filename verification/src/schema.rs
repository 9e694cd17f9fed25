//! The vault schema (frontmatter enums, required and known fields, structural rules) and the
//! per-file frontmatter checks that read from it. The schema is the single source of truth; kura
//! carries no second copy of it.

use vstd::prelude::*;

use crate::model::{fingerprint, fingerprint_spec, findings_view, Finding, FindingV, FmValue, Note, Severity};
use crate::note::{fm_lookup, fm_view, lookup_index, str_field, str_field_spec, FmValueV};
use crate::text::{chars_of, concat, concat3, owned, str_eq, string_of, string_views};

verus! {

/// The machine-readable vault schema. Only what the frontmatter checks need is modeled.
#[derive(Debug, Clone)]
pub struct Schema {
    pub enums: Enums,
    pub fields: Fields,
    pub rules: Rules,
    pub scan: Scan,
}

/// Allowed values of the enumerated frontmatter fields.
#[derive(Debug, Clone)]
pub struct Enums {
    pub types: Vec<String>,
    pub domain: Vec<String>,
    pub source_kind: Vec<String>,
    pub source_provider: Vec<String>,
    pub level: Vec<String>,
    pub map_kind: Vec<String>,
    pub status: StatusEnums,
}

/// `status` is type-conditional, so it is grouped rather than one flat enum.
#[derive(Debug, Clone)]
pub struct StatusEnums {
    pub note: Vec<String>,
    pub system: Vec<String>,
    pub lesson: Vec<String>,
}

/// Required and known frontmatter keys.
#[derive(Debug, Clone)]
pub struct Fields {
    pub required: Vec<String>,
    pub required_inbox: Vec<String>,
    pub known: Vec<String>,
    pub lesson_only: Vec<String>,
    pub status_group: StatusGroup,
}

/// Types whose status comes from `enums.status.system` (system / template / guide).
#[derive(Debug, Clone)]
pub struct StatusGroup {
    pub system: Vec<String>,
}

/// Structural rules.
#[derive(Debug, Clone)]
pub struct Rules {
    pub domain_equals_folder_under: Vec<String>,
    pub concept_requires_provenance: Vec<String>,
    pub slug_pattern: String,
    pub forbid_tag_with_slash: bool,
}

/// Which notes the checks look at.
#[derive(Debug, Clone)]
pub struct Scan {
    pub knowledge_dirs: Vec<String>,
    pub skip_basenames: Vec<String>,
}

// ---------------------------------------------------------------------------------------------
// Specification
// ---------------------------------------------------------------------------------------------

/// Whether `s` is one of the strings of `v`.
pub open spec fn in_list(v: Seq<String>, s: Seq<char>) -> bool {
    exists|i: int| 0 <= i < v.len() && (#[trigger] v[i])@ == s
}

/// The `/`-separated segments of a path (always at least one).
pub open spec fn split_slash(s: Seq<char>) -> Seq<Seq<char>>
    decreases s.len(),
{
    if s.len() == 0 {
        seq![Seq::empty()]
    } else {
        let prev = split_slash(s.drop_last());
        if s.last() == '/' {
            prev.push(Seq::empty())
        } else {
            prev.update(prev.len() - 1, prev.last().push(s.last()))
        }
    }
}

/// Character view of an optional `&str`.
pub open spec fn opt_str(o: Option<&str>) -> Option<Seq<char>> {
    match o {
        Some(s) => Some(s@),
        None => None,
    }
}

/// A non-empty string scalar field.
pub open spec fn scalar_spec(fm: Seq<(Seq<char>, FmValueV)>, key: Seq<char>) -> Option<Seq<char>> {
    match str_field_spec(fm, key) {
        Some(s) => if s.len() > 0 {
            Some(s)
        } else {
            None
        },
        None => None,
    }
}

/// Whether a frontmatter value counts as filled in.
pub open spec fn value_present(v: FmValueV) -> bool {
    match v {
        FmValueV::Str(s) => s.len() > 0,
        FmValueV::List(l) => l.len() > 0,
        FmValueV::Null => false,
        FmValueV::Other => true,
    }
}

/// Whether field `key` is there and filled in.
pub open spec fn field_present(fm: Seq<(Seq<char>, FmValueV)>, key: Seq<char>) -> bool {
    match fm_lookup(fm, key) {
        Some(v) => value_present(v),
        None => false,
    }
}

/// A note's frontmatter as character sequences.
pub open spec fn fm_of(n: Note) -> Seq<(Seq<char>, FmValueV)> {
    fm_view(n.frontmatter@)
}

/// A note's (non-empty) `type`.
pub open spec fn type_of(n: Note) -> Option<Seq<char>> {
    scalar_spec(fm_of(n), "type"@)
}

/// Whether a note is a lesson.
pub open spec fn is_lesson(n: Note) -> bool {
    type_of(n) == Some("lesson"@)
}

/// Whether a note is a system doc (light rules only).
pub open spec fn is_system_doc(n: Note, sc: Schema) -> bool {
    match type_of(n) {
        Some(t) => in_list(sc.fields.status_group.system@, t),
        None => false,
    }
}

/// A lowercase ASCII letter or an ASCII digit.
pub open spec fn kebab_char(c: char) -> bool {
    ('a' <= c && c <= 'z') || ('0' <= c && c <= '9')
}

/// Whether `s` matches `^[a-z0-9]+(-[a-z0-9]+)*$` (kebab-case).
pub open spec fn is_kebab_spec(s: Seq<char>) -> bool {
    &&& s.len() > 0
    &&& forall|i: int|
        0 <= i < s.len() ==> kebab_char(#[trigger] s[i]) || (s[i] == '-' && 0 < i < s.len() - 1
            && kebab_char(s[i - 1]) && kebab_char(s[i + 1]))
}

/// A schema finding: `Error`, no line, on `field` (`frontmatter` when there is none).
pub open spec fn finding_spec(
    path: Seq<char>,
    rule_id: Seq<char>,
    field: Option<Seq<char>>,
    value: Seq<char>,
    why: Seq<char>,
) -> FindingV {
    let what = match field {
        Some(f) => f,
        None => "frontmatter"@,
    };
    FindingV {
        rule_id,
        severity: Severity::Error,
        path,
        line: None,
        field,
        message: if value.len() == 0 {
            what + " "@ + why
        } else {
            what + " \""@ + value + "\" "@ + why
        },
        evidence: "frontmatter validated against vault-schema.toml"@,
        suggested_action: "fix the frontmatter to match the schema"@,
        source_rule: "vault-schema.toml"@,
        target: if value.len() == 0 {
            None
        } else {
            Some(value)
        },
        resolved_to: None,
        collision_members: Seq::empty(),
        fingerprint: fingerprint_spec(rule_id, path, value),
    }
}

/// `schema.enum` on `field` when its value is not among `allowed`.
pub open spec fn enum_check(n: Note, field: Seq<char>, allowed: Seq<String>, why: Seq<char>) -> Seq<
    FindingV,
> {
    match scalar_spec(fm_of(n), field) {
        Some(v) => if !in_list(allowed, v) {
            seq![finding_spec(n.path@, "schema.enum"@, Some(field), v, why)]
        } else {
            Seq::empty()
        },
        None => Seq::empty(),
    }
}

/// Whether `key` is a known field (lesson-only keys count for lessons).
pub open spec fn key_known(sc: Schema, lesson: bool, key: Seq<char>) -> bool {
    in_list(sc.fields.known@, key) || (lesson && in_list(sc.fields.lesson_only@, key))
}

/// `schema.unknown_key` for each of the first `k` frontmatter keys that is not known.
pub open spec fn unknown_keys(n: Note, sc: Schema, k: int) -> Seq<FindingV>
    decreases k,
{
    if k <= 0 {
        Seq::empty()
    } else {
        let key = n.frontmatter@[k - 1].0@;
        let prev = unknown_keys(n, sc, k - 1);
        if key_known(sc, is_lesson(n), key) {
            prev
        } else {
            prev.push(finding_spec(n.path@, "schema.unknown_key"@, None, key, "is not a known field"@))
        }
    }
}

/// A lesson's `slug` is required and must be kebab-case.
pub open spec fn slug_part(n: Note) -> Seq<FindingV> {
    match scalar_spec(fm_of(n), "slug"@) {
        None => seq![
            finding_spec(
                n.path@,
                "schema.required"@,
                Some("slug"@),
                Seq::empty(),
                "is required for a lesson"@,
            ),
        ],
        Some(s) => if !is_kebab_spec(s) {
            seq![finding_spec(n.path@, "schema.slug"@, Some("slug"@), s, "is not a valid slug"@)]
        } else {
            Seq::empty()
        },
    }
}

/// Lesson rules: the slug rule, then `status` from the lesson statuses.
pub open spec fn lesson_part(n: Note, sc: Schema) -> Seq<FindingV> {
    if !is_lesson(n) {
        Seq::empty()
    } else {
        slug_part(n) + enum_check(n, "status"@, sc.enums.status.lesson@, "is not a valid lesson status"@)
    }
}

/// `schema.required` for each of the first `k` required keys missing or empty (`domain` is not
/// required of an inbox note).
pub open spec fn required_part(n: Note, sc: Schema, k: int) -> Seq<FindingV>
    decreases k,
{
    if k <= 0 {
        Seq::empty()
    } else {
        let key = sc.fields.required@[k - 1]@;
        let prev = required_part(n, sc, k - 1);
        if (type_of(n) == Some("inbox"@) && key == "domain"@) || field_present(fm_of(n), key) {
            prev
        } else {
            prev.push(finding_spec(n.path@, "schema.required"@, Some(key), Seq::empty(), "is required"@))
        }
    }
}

/// The five enumerated value fields.
pub open spec fn enum_fields_part(n: Note, sc: Schema) -> Seq<FindingV> {
    let why = "is not an allowed value"@;
    enum_check(n, "domain"@, sc.enums.domain@, why) + enum_check(
        n,
        "source_kind"@,
        sc.enums.source_kind@,
        why,
    ) + enum_check(n, "source_provider"@, sc.enums.source_provider@, why) + enum_check(
        n,
        "level"@,
        sc.enums.level@,
        why,
    ) + enum_check(n, "map_kind"@, sc.enums.map_kind@, why)
}

/// `domain` must equal the first folder under the configured roots (`Concepts/<domain>/...`).
pub open spec fn domain_folder_part(n: Note, sc: Schema) -> Seq<FindingV> {
    let seg = split_slash(n.path@);
    match scalar_spec(fm_of(n), "domain"@) {
        Some(d) => if in_list(sc.rules.domain_equals_folder_under@, seg[0]) && seg.len() >= 3 && d
            != seg[1] {
            seq![
                finding_spec(
                    n.path@,
                    "schema.domain_folder"@,
                    Some("domain"@),
                    d,
                    "does not match its folder "@ + seg[1],
                ),
            ]
        } else {
            Seq::empty()
        },
        None => Seq::empty(),
    }
}

/// `schema.legacy_tag` for each of the first `k` tags holding a `/`.
pub open spec fn tag_findings(n: Note, tags: Seq<Seq<char>>, k: int) -> Seq<FindingV>
    decreases k,
{
    if k <= 0 {
        Seq::empty()
    } else {
        let prev = tag_findings(n, tags, k - 1);
        let t = tags[k - 1];
        if t.contains('/') {
            prev.push(
                finding_spec(
                    n.path@,
                    "schema.legacy_tag"@,
                    Some("tags"@),
                    t,
                    "is a legacy tag (use a property)"@,
                ),
            )
        } else {
            prev
        }
    }
}

/// Legacy slash tags, when the schema forbids them.
pub open spec fn tags_part(n: Note, sc: Schema) -> Seq<FindingV> {
    if sc.rules.forbid_tag_with_slash {
        match fm_lookup(fm_of(n), "tags"@) {
            Some(FmValueV::List(tags)) => tag_findings(n, tags, tags.len() as int),
            _ => Seq::empty(),
        }
    } else {
        Seq::empty()
    }
}

/// A concept needs at least one provenance field filled in.
pub open spec fn provenance_part(n: Note, sc: Schema) -> Seq<FindingV> {
    let keys = sc.rules.concept_requires_provenance@;
    if type_of(n) == Some("concept"@) && !(exists|i: int|
        0 <= i < keys.len() && field_present(fm_of(n), (#[trigger] keys[i])@)) {
        seq![
            finding_spec(
                n.path@,
                "schema.provenance"@,
                None,
                Seq::empty(),
                "concept has neither based_on nor source_locator"@,
            ),
        ]
    } else {
        Seq::empty()
    }
}

/// The rules every note with frontmatter gets: `type`, unknown keys, lesson rules.
pub open spec fn head_part(n: Note, sc: Schema) -> Seq<FindingV> {
    enum_check(n, "type"@, sc.enums.types@, "is not an allowed type"@) + unknown_keys(
        n,
        sc,
        n.frontmatter@.len() as int,
    ) + lesson_part(n, sc)
}

/// The full rules of a knowledge note.
pub open spec fn knowledge_part(n: Note, sc: Schema) -> Seq<FindingV> {
    required_part(n, sc, sc.fields.required@.len() as int) + enum_check(
        n,
        "status"@,
        sc.enums.status.note@,
        "is not a valid status"@,
    ) + enum_fields_part(n, sc) + structure_part(n, sc)
}

/// The structural rules: domain folder, legacy tags, concept provenance.
pub open spec fn structure_part(n: Note, sc: Schema) -> Seq<FindingV> {
    domain_folder_part(n, sc) + tags_part(n, sc) + provenance_part(n, sc)
}

/// The schema findings of one in-scope note, in check order. A note with no frontmatter is legal
/// (a raw transcript); system docs get the light rules only.
pub open spec fn lint_spec(n: Note, sc: Schema) -> Seq<FindingV> {
    if n.no_frontmatter {
        Seq::empty()
    } else if is_system_doc(n, sc) {
        head_part(n, sc) + enum_check(
            n,
            "status"@,
            sc.enums.status.system@,
            "is not a valid system status"@,
        )
    } else {
        head_part(n, sc) + knowledge_part(n, sc)
    }
}

/// Whether a note is checked: its first folder is a knowledge dir and its basename is not skipped.
pub open spec fn in_schema_scope(n: Note, sc: Schema) -> bool {
    let seg = split_slash(n.path@);
    in_list(sc.scan.knowledge_dirs@, seg[0]) && !in_list(sc.scan.skip_basenames@, seg.last())
}

/// The schema findings of the first `k` notes, in note order.
pub open spec fn check_spec(notes: Seq<Note>, sc: Schema, k: int) -> Seq<FindingV>
    decreases k,
{
    if k <= 0 {
        Seq::empty()
    } else {
        check_spec(notes, sc, k - 1) + if in_schema_scope(notes[k - 1], sc) {
            lint_spec(notes[k - 1], sc)
        } else {
            Seq::empty()
        }
    }
}

proof fn lemma_split_nonempty(s: Seq<char>)
    ensures
        split_slash(s).len() >= 1,
    decreases s.len(),
{
    if s.len() > 0 {
        lemma_split_nonempty(s.drop_last());
    }
}

proof fn lemma_push_view(v: Seq<Finding>, f: Finding)
    ensures
        findings_view(v.push(f)) == findings_view(v).push(f@),
{
    assert(findings_view(v.push(f)) =~= findings_view(v).push(f@));
}

// ---------------------------------------------------------------------------------------------
// Implementation
// ---------------------------------------------------------------------------------------------

/// Whether `s` is one of the strings of `v`.
fn is_listed(v: &Vec<String>, s: &str) -> (r: bool)
    ensures
        r == in_list(v@, s@),
{
    let mut i: usize = 0;
    while i < v.len()
        invariant
            i <= v.len(),
            forall|j: int| 0 <= j < i ==> (#[trigger] v@[j])@ != s@,
        decreases v.len() - i,
    {
        if str_eq(v[i].as_str(), s) {
            return true;
        }
        i += 1;
    }
    false
}

/// The `/`-separated segments of a path.
pub(crate) fn split_path(p: &str) -> (out: Vec<String>)
    ensures
        string_views(out@) == split_slash(p@),
{
    let v = chars_of(p);
    let mut parts: Vec<String> = Vec::new();
    let mut cur: Vec<char> = Vec::new();
    let mut i: usize = 0;
    assert(v@.take(0) =~= Seq::<char>::empty());
    while i < v.len()
        invariant
            i <= v.len(),
            v@ == p@,
            string_views(parts@).push(cur@) == split_slash(v@.take(i as int)),
        decreases v.len() - i,
    {
        let ghost prev_parts = string_views(parts@);
        let ghost prev_cur = cur@;
        assert(v@.take(i + 1).drop_last() =~= v@.take(i as int));
        if v[i] == '/' {
            let s = string_of(cur.as_slice());
            parts.push(s);
            cur = Vec::new();
            assert(string_views(parts@) =~= prev_parts.push(prev_cur));
            assert(string_views(parts@).push(cur@) =~= split_slash(v@.take(i + 1)));
        } else {
            cur.push(v[i]);
            assert(string_views(parts@).push(cur@) =~= prev_parts.push(prev_cur).update(
                prev_parts.len() as int,
                prev_cur.push(v@[i as int]),
            ));
        }
        i += 1;
    }
    let ghost prev_parts = string_views(parts@);
    let last = string_of(cur.as_slice());
    parts.push(last);
    assert(v@.take(v@.len() as int) =~= v@);
    assert(string_views(parts@) =~= prev_parts.push(cur@));
    parts
}

/// A non-empty string scalar field.
fn scalar(fm: &Vec<(String, FmValue)>, key: &str) -> (out: Option<String>)
    ensures
        crate::model::opt_chars(out) == scalar_spec(fm_view(fm@), key@),
{
    match str_field(fm, key) {
        Some(s) => if s.as_str().unicode_len() > 0 {
            Some(s)
        } else {
            None
        },
        None => None,
    }
}

/// Whether field `key` is there and filled in.
fn is_field_present(fm: &Vec<(String, FmValue)>, key: &str) -> (r: bool)
    ensures
        r == field_present(fm_view(fm@), key@),
{
    match lookup_index(fm, key) {
        Some(i) => fm[i].1.is_present(),
        None => false,
    }
}

/// Whether `s` matches the immutable lesson-slug pattern `^[a-z0-9]+(-[a-z0-9]+)*$` (kebab-case).
fn is_kebab(s: &str) -> (r: bool)
    ensures
        r == is_kebab_spec(s@),
{
    let v = chars_of(s);
    let n = v.len();
    if n == 0 {
        return false;
    }
    let mut i: usize = 0;
    while i < n
        invariant
            i <= n == v@.len() == s@.len(),
            v@ == s@,
            forall|j: int|
                0 <= j < i ==> kebab_char(#[trigger] v@[j]) || (v@[j] == '-' && 0 < j < n - 1
                    && kebab_char(v@[j - 1]) && kebab_char(v@[j + 1])),
        decreases n - i,
    {
        let c = v[i];
        let ok_char = ('a' <= c && c <= 'z') || ('0' <= c && c <= '9');
        if !ok_char {
            if c != '-' || i == 0 || i + 1 >= n {
                return false;
            }
            let a = v[i - 1];
            let b = v[i + 1];
            let around = (('a' <= a && a <= 'z') || ('0' <= a && a <= '9')) && (('a' <= b && b
                <= 'z') || ('0' <= b && b <= '9'));
            if !around {
                return false;
            }
        }
        i += 1;
    }
    true
}

/// Whether `o` is `Some(s)`.
fn opt_is(o: &Option<String>, s: &str) -> (r: bool)
    ensures
        r == (crate::model::opt_chars(*o) == Some(s@)),
{
    match o {
        Some(t) => str_eq(t.as_str(), s),
        None => false,
    }
}

/// Whether `s` holds a `/`.
fn has_slash(s: &str) -> (r: bool)
    ensures
        r == s@.contains('/'),
{
    let v = chars_of(s);
    let mut i: usize = 0;
    while i < v.len()
        invariant
            i <= v.len(),
            v@ == s@,
            forall|j: int| 0 <= j < i ==> v@[j] != '/',
        decreases v.len() - i,
    {
        if v[i] == '/' {
            return true;
        }
        i += 1;
    }
    false
}

/// A schema finding on `note`.
fn finding(note: &Note, rule_id: &str, field: Option<&str>, value: &str, why: &str) -> (f: Finding)
    ensures
        f@ == finding_spec(note.path@, rule_id@, opt_str(field), value@, why@),
{
    let what: &str = match field {
        Some(w) => w,
        None => "frontmatter",
    };
    let empty = value.unicode_len() == 0;
    let message = if empty {
        concat3(what, " ", why)
    } else {
        let head = concat3(what, " \"", value);
        concat3(head.as_str(), "\" ", why)
    };
    let f = Finding {
        rule_id: owned(rule_id),
        severity: Severity::Error,
        path: note.path.clone(),
        line: None,
        field: match field {
            Some(w) => Some(owned(w)),
            None => None,
        },
        message,
        evidence: owned("frontmatter validated against vault-schema.toml"),
        suggested_action: owned("fix the frontmatter to match the schema"),
        source_rule: owned("vault-schema.toml"),
        target: if empty {
            None
        } else {
            Some(owned(value))
        },
        resolved_to: None,
        collision_members: Vec::new(),
        fingerprint: fingerprint(rule_id, note.path.as_str(), value),
    };
    assert(f@.collision_members =~= Seq::<Seq<char>>::empty());
    f
}

/// Push `f` onto `out`.
fn emit(out: &mut Vec<Finding>, f: Finding)
    ensures
        findings_view(final(out)@) == findings_view(old(out)@).push(f@),
{
    proof {
        lemma_push_view(out@, f);
    }
    out.push(f);
}

/// `schema.enum` on `field` when its value is not among `allowed`.
fn check_enum(note: &Note, field: &str, allowed: &Vec<String>, why: &str, out: &mut Vec<Finding>)
    ensures
        findings_view(final(out)@) == findings_view(old(out)@) + enum_check(
            *note,
            field@,
            allowed@,
            why@,
        ),
{
    match scalar(&note.frontmatter, field) {
        Some(v) => {
            if !is_listed(allowed, v.as_str()) {
                let f = finding(note, "schema.enum", Some(field), v.as_str(), why);
                emit(out, f);
                return ;
            }
        },
        None => {},
    }
    assert(findings_view(out@) =~= findings_view(out@) + Seq::<FindingV>::empty());
}

/// `schema.unknown_key` for every frontmatter key that is not known.
fn check_unknown_keys(note: &Note, schema: &Schema, lesson: bool, out: &mut Vec<Finding>)
    requires
        lesson == is_lesson(*note),
    ensures
        findings_view(final(out)@) == findings_view(old(out)@) + unknown_keys(
            *note,
            *schema,
            note.frontmatter@.len() as int,
        ),
{
    let ghost base = findings_view(out@);
    let fm = &note.frontmatter;
    let mut i: usize = 0;
    assert(base =~= base + unknown_keys(*note, *schema, 0));
    while i < fm.len()
        invariant
            i <= fm@.len(),
            fm == &note.frontmatter,
            lesson == is_lesson(*note),
            findings_view(out@) == base + unknown_keys(*note, *schema, i as int),
        decreases fm.len() - i,
    {
        let key = fm[i].0.as_str();
        let known = is_listed(&schema.fields.known, key) || (lesson && is_listed(
            &schema.fields.lesson_only,
            key,
        ));
        if !known {
            let f = finding(note, "schema.unknown_key", None, key, "is not a known field");
            emit(out, f);
        }
        i += 1;
        assert(findings_view(out@) =~= base + unknown_keys(*note, *schema, i as int));
    }
}

/// Lesson rules: a kebab-case `slug` is required; `status` from the lesson statuses.
fn check_lesson(note: &Note, schema: &Schema, out: &mut Vec<Finding>)
    requires
        is_lesson(*note),
    ensures
        findings_view(final(out)@) == findings_view(old(out)@) + lesson_part(*note, *schema),
{
    let ghost base = findings_view(out@);
    match scalar(&note.frontmatter, "slug") {
        None => {
            let f = finding(note, "schema.required", Some("slug"), "", "is required for a lesson");
            emit(out, f);
            proof {
                reveal_strlit("");
            }
        },
        Some(s) => {
            if !is_kebab(s.as_str()) {
                let f = finding(note, "schema.slug", Some("slug"), s.as_str(), "is not a valid slug");
                emit(out, f);
            }
        },
    }
    assert(findings_view(out@) =~= base + slug_part(*note));
    check_enum(note, "status", &schema.enums.status.lesson, "is not a valid lesson status", out);
    assert(findings_view(out@) =~= base + lesson_part(*note, *schema));
}

/// `schema.required` for each required key missing or empty.
fn check_required(note: &Note, schema: &Schema, inbox: bool, out: &mut Vec<Finding>)
    requires
        inbox == (type_of(*note) == Some("inbox"@)),
    ensures
        findings_view(final(out)@) == findings_view(old(out)@) + required_part(
            *note,
            *schema,
            schema.fields.required@.len() as int,
        ),
{
    let ghost base = findings_view(out@);
    let req = &schema.fields.required;
    let mut i: usize = 0;
    assert(base =~= base + required_part(*note, *schema, 0));
    while i < req.len()
        invariant
            i <= req@.len(),
            req == &schema.fields.required,
            inbox == (type_of(*note) == Some("inbox"@)),
            findings_view(out@) == base + required_part(*note, *schema, i as int),
        decreases req.len() - i,
    {
        let key = req[i].as_str();
        let skip = inbox && str_eq(key, "domain");
        if !skip && !is_field_present(&note.frontmatter, key) {
            let f = finding(note, "schema.required", Some(key), "", "is required");
            emit(out, f);
            proof {
                reveal_strlit("");
            }
        }
        i += 1;
        assert(findings_view(out@) =~= base + required_part(*note, *schema, i as int));
    }
}

/// `schema.domain_folder`: `domain` differs from the folder under a configured root.
fn check_domain_folder(note: &Note, schema: &Schema, seg: &Vec<String>, out: &mut Vec<Finding>)
    requires
        string_views(seg@) == split_slash(note.path@),
    ensures
        findings_view(final(out)@) == findings_view(old(out)@) + domain_folder_part(
            *note,
            *schema,
        ),
{
    proof {
        lemma_split_nonempty(note.path@);
    }
    assert(seg@[0]@ == split_slash(note.path@)[0]);
    match scalar(&note.frontmatter, "domain") {
        Some(d) => {
            if is_listed(&schema.rules.domain_equals_folder_under, seg[0].as_str()) && seg.len()
                >= 3 && !str_eq(d.as_str(), seg[1].as_str()) {
                assert(seg@[1]@ == split_slash(note.path@)[1]);
                let why = concat("does not match its folder ", seg[1].as_str());
                let f = finding(note, "schema.domain_folder", Some("domain"), d.as_str(), why.as_str());
                emit(out, f);
                return ;
            }
            if seg.len() >= 2 {
                assert(seg@[1]@ == split_slash(note.path@)[1]);
            }
        },
        None => {},
    }
    assert(findings_view(out@) =~= findings_view(out@) + Seq::<FindingV>::empty());
}

/// `schema.legacy_tag` for each tag holding a `/`.
fn check_tags(note: &Note, out: &mut Vec<Finding>)
    ensures
        findings_view(final(out)@) == findings_view(old(out)@) + match fm_lookup(
            fm_of(*note),
            "tags"@,
        ) {
            Some(FmValueV::List(tags)) => tag_findings(*note, tags, tags.len() as int),
            _ => Seq::empty(),
        },
{
    let ghost base = findings_view(out@);
    match lookup_index(&note.frontmatter, "tags") {
        Some(k) => match &note.frontmatter[k].1 {
            FmValue::List(tags) => {
                let ghost tv = crate::graph::views(tags@);
                let mut i: usize = 0;
                assert(base =~= base + tag_findings(*note, tv, 0));
                while i < tags.len()
                    invariant
                        i <= tags@.len(),
                        tv == crate::graph::views(tags@),
                        findings_view(out@) == base + tag_findings(*note, tv, i as int),
                    decreases tags.len() - i,
                {
                    let t = tags[i].as_str();
                    if has_slash(t) {
                        let f = finding(
                            note,
                            "schema.legacy_tag",
                            Some("tags"),
                            t,
                            "is a legacy tag (use a property)",
                        );
                        emit(out, f);
                    }
                    i += 1;
                    assert(findings_view(out@) =~= base + tag_findings(*note, tv, i as int));
                }
            },
            _ => {
                assert(findings_view(out@) =~= base + Seq::<FindingV>::empty());
            },
        },
        None => {
            assert(findings_view(out@) =~= base + Seq::<FindingV>::empty());
        },
    }
}

/// `schema.provenance`: a concept with none of the provenance fields filled in.
fn check_provenance(note: &Note, schema: &Schema, concept: bool, out: &mut Vec<Finding>)
    requires
        concept == (type_of(*note) == Some("concept"@)),
    ensures
        findings_view(final(out)@) == findings_view(old(out)@) + provenance_part(*note, *schema),
{
    let keys = &schema.rules.concept_requires_provenance;
    let mut any = false;
    let mut i: usize = 0;
    while i < keys.len()
        invariant
            i <= keys@.len(),
            keys == &schema.rules.concept_requires_provenance,
            any == exists|j: int|
                0 <= j < i && field_present(fm_of(*note), (#[trigger] keys@[j])@),
        decreases keys.len() - i,
    {
        if is_field_present(&note.frontmatter, keys[i].as_str()) {
            any = true;
        }
        i += 1;
    }
    if concept && !any {
        let f = finding(
            note,
            "schema.provenance",
            None,
            "",
            "concept has neither based_on nor source_locator",
        );
        emit(out, f);
        proof {
            reveal_strlit("");
        }
        assert(findings_view(out@) =~= findings_view(old(out)@) + provenance_part(*note, *schema));
    } else {
        assert(findings_view(out@) =~= findings_view(old(out)@) + provenance_part(*note, *schema));
    }
}

/// The five enumerated value fields.
fn check_enum_fields(note: &Note, schema: &Schema, out: &mut Vec<Finding>)
    ensures
        findings_view(final(out)@) == findings_view(old(out)@) + enum_fields_part(*note, *schema),
{
    let ghost base = findings_view(out@);
    let why = "is not an allowed value";
    check_enum(note, "domain", &schema.enums.domain, why, out);
    check_enum(note, "source_kind", &schema.enums.source_kind, why, out);
    check_enum(note, "source_provider", &schema.enums.source_provider, why, out);
    check_enum(note, "level", &schema.enums.level, why, out);
    check_enum(note, "map_kind", &schema.enums.map_kind, why, out);
    assert(findings_view(out@) =~= base + enum_fields_part(*note, *schema));
}

/// The structural rules: domain folder, legacy tags, concept provenance.
fn check_structure(
    note: &Note,
    schema: &Schema,
    seg: &Vec<String>,
    ty: &Option<String>,
    out: &mut Vec<Finding>,
)
    requires
        string_views(seg@) == split_slash(note.path@),
        crate::model::opt_chars(*ty) == type_of(*note),
    ensures
        findings_view(final(out)@) == findings_view(old(out)@) + structure_part(*note, *schema),
{
    let ghost base = findings_view(out@);
    check_domain_folder(note, schema, seg, out);
    let ghost r4 = findings_view(out@);
    if schema.rules.forbid_tag_with_slash {
        check_tags(note, out);
    }
    assert(findings_view(out@) =~= r4 + tags_part(*note, *schema));
    let concept = opt_is(ty, "concept");
    check_provenance(note, schema, concept, out);
    assert(findings_view(out@) =~= base + structure_part(*note, *schema));
}

/// The full rules of a knowledge note.
fn check_knowledge(
    note: &Note,
    schema: &Schema,
    seg: &Vec<String>,
    ty: &Option<String>,
    out: &mut Vec<Finding>,
)
    requires
        string_views(seg@) == split_slash(note.path@),
        crate::model::opt_chars(*ty) == type_of(*note),
    ensures
        findings_view(final(out)@) == findings_view(old(out)@) + knowledge_part(*note, *schema),
{
    let ghost base = findings_view(out@);
    let ghost p1 = required_part(*note, *schema, schema.fields.required@.len() as int);
    let ghost p2 = enum_check(*note, "status"@, schema.enums.status.note@, "is not a valid status"@);
    let ghost p3 = enum_fields_part(*note, *schema);
    let ghost p4 = structure_part(*note, *schema);
    assert(knowledge_part(*note, *schema) == p1 + p2 + p3 + p4);
    let inbox = opt_is(ty, "inbox");
    check_required(note, schema, inbox, out);
    check_enum(note, "status", &schema.enums.status.note, "is not a valid status", out);
    check_enum_fields(note, schema, out);
    check_structure(note, schema, seg, ty, out);
    assert(findings_view(out@) =~= base + (p1 + p2 + p3 + p4));
}

/// Validate one note's frontmatter against the schema.
fn lint_note(note: &Note, schema: &Schema, seg: &Vec<String>, out: &mut Vec<Finding>)
    requires
        string_views(seg@) == split_slash(note.path@),
    ensures
        findings_view(final(out)@) == findings_view(old(out)@) + lint_spec(*note, *schema),
{
    let ghost base = findings_view(out@);
    if note.no_frontmatter {
        assert(base =~= base + lint_spec(*note, *schema));
        return ;
    }
    let ty = scalar(&note.frontmatter, "type");
    check_enum(note, "type", &schema.enums.types, "is not an allowed type", out);
    let lesson = opt_is(&ty, "lesson");
    check_unknown_keys(note, schema, lesson, out);
    let ghost head0 = findings_view(out@);
    if lesson {
        check_lesson(note, schema, out);
    } else {
        assert(findings_view(out@) =~= head0 + lesson_part(*note, *schema));
    }
    let ghost head = findings_view(out@);
    assert(head =~= base + head_part(*note, *schema));
    let system = match &ty {
        Some(t) => is_listed(&schema.fields.status_group.system, t.as_str()),
        None => false,
    };
    if system {
        check_enum(note, "status", &schema.enums.status.system, "is not a valid system status", out);
        assert(findings_view(out@) =~= base + lint_spec(*note, *schema));
    } else {
        check_knowledge(note, schema, seg, &ty, out);
        assert(findings_view(out@) =~= base + lint_spec(*note, *schema));
    }
}

/// Validate every knowledge note's frontmatter against the schema. Scope follows the schema's
/// `knowledge_dirs` and `skip_basenames`. Findings are `Error`: a schema violation gates.
pub fn check(notes: &[Note], schema: &Schema) -> (out: Vec<Finding>)
    ensures
        findings_view(out@) == check_spec(notes@, *schema, notes@.len() as int),
{
    let mut out: Vec<Finding> = Vec::new();
    let mut i: usize = 0;
    assert(findings_view(out@) =~= check_spec(notes@, *schema, 0));
    while i < notes.len()
        invariant
            i <= notes@.len(),
            findings_view(out@) == check_spec(notes@, *schema, i as int),
        decreases notes.len() - i,
    {
        let note = &notes[i];
        let seg = split_path(note.path.as_str());
        proof {
            lemma_split_nonempty(note.path@);
        }
        assert(seg@[0]@ == split_slash(note.path@)[0]);
        assert(seg@[seg@.len() - 1]@ == split_slash(note.path@).last());
        let in_scope = is_listed(&schema.scan.knowledge_dirs, seg[0].as_str());
        let skipped = is_listed(&schema.scan.skip_basenames, seg[seg.len() - 1].as_str());
        let ghost before = findings_view(out@);
        if in_scope && !skipped {
            lint_note(note, schema, &seg, &mut out);
        } else {
            assert(before =~= before + Seq::<FindingV>::empty());
        }
        i += 1;
        assert(findings_view(out@) =~= check_spec(notes@, *schema, i as int));
    }
    out
}

} // verus!
