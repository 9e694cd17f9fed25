//! Parse one markdown file into a [`Note`]: split frontmatter, read known YAML fields, extract
//! body wikilinks and path references. Unknown or extra frontmatter keys are kept in
//! `Note::frontmatter` for schema validation, which lives elsewhere.

use vstd::prelude::*;
use vstd::utf8::encode_utf8;
use yaml_rust2::{Yaml, YamlLoader};

use crate::model::{FmValue, Note};
use crate::text::{chars_of, has_prefix, string_of_range};
use crate::utf8_slice::{lemma_encode_len, lemma_encode_subrange_len};
use crate::wikilink::{
    event_in_bounds, extract_from_events, extract_path_refs_from_events, links_in, markdown_events,
    md_events,
    path_refs_in, MdEvent, MdEventV,
};

verus! {

// ---------------------------------------------------------------------------------------------
// Frontmatter fences
// ---------------------------------------------------------------------------------------------

/// Index one past the first `\n` at or after `ls` (or `s.len()`).
pub open spec fn line_end(s: Seq<char>, ls: int) -> int
    decreases s.len() - ls,
{
    if ls < 0 || ls >= s.len() {
        s.len() as int
    } else if s[ls] == '\n' {
        ls + 1
    } else {
        line_end(s, ls + 1)
    }
}

pub proof fn lemma_line_end(s: Seq<char>, ls: int)
    requires
        0 <= ls < s.len(),
    ensures
        ls < line_end(s, ls) <= s.len(),
        forall|j: int| ls <= j < line_end(s, ls) - 1 ==> #[trigger] s[j] != '\n',
    decreases s.len() - ls,
{
    if s[ls] != '\n' {
        if ls + 1 < s.len() {
            lemma_line_end(s, ls + 1);
        } else {
            assert(line_end(s, ls + 1) == s.len());
        }
    }
}

/// `s` without trailing `\r` / `\n` characters.
pub open spec fn trim_end_crlf(s: Seq<char>) -> Seq<char>
    decreases s.len(),
{
    if s.len() > 0 && (s.last() == '\r' || s.last() == '\n') {
        trim_end_crlf(s.drop_last())
    } else {
        s
    }
}

/// Whether a raw line (with its line ending) is a frontmatter fence: `---` or `...`.
pub open spec fn is_fence(line: Seq<char>) -> bool {
    let t = trim_end_crlf(line);
    t == seq!['-', '-', '-'] || t == seq!['.', '.', '.']
}

/// The first fence line at or after line start `ls`: its start and its end (past the newline).
pub open spec fn closing_fence_from(s: Seq<char>, ls: int) -> Option<(int, int)>
    decreases s.len() - ls,
{
    if ls < 0 || ls >= s.len() {
        None
    } else {
        let e = line_end(s, ls);
        proof {
            lemma_line_end(s, ls);
        }
        if is_fence(s.subrange(ls, e)) {
            Some((ls, e))
        } else {
            closing_fence_from(s, e)
        }
    }
}

/// Length of the opening `---` line (`---\n` or `---\r\n`), or 0 when the file does not open
/// with one.
pub open spec fn open_fence_len(s: Seq<char>) -> int {
    if has_prefix(s, seq!['-', '-', '-', '\n']) {
        4
    } else if has_prefix(s, seq!['-', '-', '-', '\r', '\n']) {
        5
    } else {
        0
    }
}

/// Number of `\n` in `s[..n]`.
pub open spec fn count_nl(s: Seq<char>, n: int) -> int
    decreases n,
{
    if n <= 0 {
        0
    } else if s[n - 1] == '\n' {
        count_nl(s, n - 1) + 1
    } else {
        count_nl(s, n - 1)
    }
}

proof fn lemma_count_nl_bound(s: Seq<char>, n: int)
    requires
        0 <= n,
    ensures
        0 <= count_nl(s, n) <= n,
    decreases n,
{
    if n > 0 {
        lemma_count_nl_bound(s, n - 1);
    }
}

/// Split a leading `---`-fenced YAML frontmatter block: `(frontmatter, body, first body line)`.
/// Frontmatter is recognized only at the very start of the file and must be closed by a `---` or
/// `...` line; otherwise the whole content is the body starting at line 1.
pub open spec fn split_frontmatter_spec(s: Seq<char>) -> (Option<Seq<char>>, Seq<char>, int) {
    let p = open_fence_len(s);
    if p == 0 {
        (None, s, 1)
    } else {
        match closing_fence_from(s, p) {
            None => (None, s, 1),
            Some((ls, e)) => (Some(s.subrange(p, ls)), s.skip(e), count_nl(s, ls) + 2),
        }
    }
}

proof fn lemma_split_some(s: Seq<char>, p: int, ls: int, e: int)
    requires
        open_fence_len(s) == p,
        p != 0,
        closing_fence_from(s, p) == Some((ls, e)),
    ensures
        split_frontmatter_spec(s) == (Some(s.subrange(p, ls)), s.skip(e), count_nl(s, ls) + 2),
{
}

fn line_end_exec(s: &[char], ls: usize) -> (e: usize)
    requires
        ls < s.len(),
    ensures
        e == line_end(s@, ls as int),
{
    let mut j = ls;
    while j < s.len() && s[j] != '\n'
        invariant
            ls <= j <= s.len(),
            line_end(s@, ls as int) == line_end(s@, j as int),
        decreases s.len() - j,
    {
        j += 1;
    }
    if j < s.len() {
        j + 1
    } else {
        j
    }
}

fn is_fence_exec(s: &[char], ls: usize, e: usize) -> (r: bool)
    requires
        ls <= e <= s.len(),
    ensures
        r == is_fence(s@.subrange(ls as int, e as int)),
{
    let mut m = e;
    while m > ls && (s[m - 1] == '\r' || s[m - 1] == '\n')
        invariant
            ls <= m <= e <= s.len(),
            trim_end_crlf(s@.subrange(ls as int, e as int)) == trim_end_crlf(
                s@.subrange(ls as int, m as int),
            ),
        decreases m,
    {
        assert(s@.subrange(ls as int, m as int).drop_last() =~= s@.subrange(ls as int, m - 1));
        m -= 1;
    }
    let ghost t = s@.subrange(ls as int, m as int);
    assert(trim_end_crlf(t) == t);
    if m - ls != 3 {
        assert(t.len() != 3);
        return false;
    }
    let r = (s[ls] == '-' && s[ls + 1] == '-' && s[ls + 2] == '-') || (s[ls] == '.' && s[ls + 1]
        == '.' && s[ls + 2] == '.');
    proof {
        assert(t[0] == s@[ls as int] && t[1] == s@[ls + 1] && t[2] == s@[ls + 2]);
        if r {
            if s@[ls as int] == '-' {
                assert(t =~= seq!['-', '-', '-']);
            } else {
                assert(t =~= seq!['.', '.', '.']);
            }
        }
    }
    r
}

fn count_nl_exec(s: &[char], n: usize) -> (c: usize)
    requires
        n <= s.len(),
    ensures
        c == count_nl(s@, n as int),
{
    let mut c: usize = 0;
    let mut k: usize = 0;
    while k < n
        invariant
            k <= n <= s.len(),
            c == count_nl(s@, k as int),
            c <= k,
        decreases n - k,
    {
        if s[k] == '\n' {
            c += 1;
        }
        k += 1;
    }
    c
}

/// Split a leading `---`-fenced YAML frontmatter block: `(frontmatter, body, first body line)`.
pub fn split_frontmatter(content: &str) -> (out: (Option<String>, String, usize))
    requires
        content@.len() + 2 <= usize::MAX,
    ensures
        ({
            let (fm, body, line) = split_frontmatter_spec(content@);
            &&& match fm {
                Some(f) => out.0 is Some && out.0->0@ == f,
                None => out.0 is None,
            }
            &&& out.1@ == body
            &&& out.2 == line
        }),
{
    let v = chars_of(content);
    let s = v.as_slice();
    let open4 = ['-', '-', '-', '\n'];
    let open5 = ['-', '-', '-', '\r', '\n'];
    assert(open4@ =~= seq!['-', '-', '-', '\n']);
    assert(open5@ =~= seq!['-', '-', '-', '\r', '\n']);
    let p: usize = if crate::text::chars_starts_with(s, &open4) {
        4
    } else if crate::text::chars_starts_with(s, &open5) {
        5
    } else {
        0
    };
    if p == 0 {
        return (None, content.to_owned(), 1);
    }
    let mut ls = p;
    while ls < s.len()
        invariant
            p <= ls <= s.len(),
            p != 0,
            p == open_fence_len(s@),
            s@ == content@,
            s@.len() + 2 <= usize::MAX,
            closing_fence_from(s@, p as int) == closing_fence_from(s@, ls as int),
        decreases s.len() - ls,
    {
        let e = line_end_exec(s, ls);
        proof {
            lemma_line_end(s@, ls as int);
        }
        if is_fence_exec(s, ls, e) {
            assert(closing_fence_from(s@, ls as int) == Some((ls as int, e as int)));
            let yaml = string_of_range(s, p, ls);
            let body = string_of_range(s, e, s.len());
            assert(s@.subrange(e as int, s@.len() as int) =~= s@.skip(e as int));
            let nl = count_nl_exec(s, ls);
            proof {
                lemma_count_nl_bound(s@, ls as int);
            }
            proof {
                assert(open_fence_len(content@) == p);
                assert(closing_fence_from(content@, p as int) == Some((ls as int, e as int)));
                lemma_split_some(content@, p as int, ls as int, e as int);
            }
            return (Some(yaml), body, nl + 2);
        }
        ls = e;
    }
    (None, content.to_owned(), 1)
}

// ---------------------------------------------------------------------------------------------
// YAML (outside code)
// ---------------------------------------------------------------------------------------------

/// A top-level frontmatter value as the YAML loader reports it.
#[derive(Debug, Clone)]
pub enum YamlValue {
    Str(String),
    /// A sequence: each item's string, if it is a string.
    List(Vec<Option<String>>),
    Null,
    Other,
}

/// [`YamlValue`] with its strings as character sequences.
pub enum YamlValueV {
    Str(Seq<char>),
    List(Seq<Option<Seq<char>>>),
    Null,
    Other,
}

/// Character view of an optional string.
pub open spec fn opt_view(o: Option<String>) -> Option<Seq<char>> {
    match o {
        Some(s) => Some(s@),
        None => None,
    }
}

impl View for YamlValue {
    type V = YamlValueV;

    open spec fn view(&self) -> YamlValueV {
        match self {
            YamlValue::Str(s) => YamlValueV::Str(s@),
            YamlValue::List(v) => YamlValueV::List(v@.map_values(|o: Option<String>| opt_view(o))),
            YamlValue::Null => YamlValueV::Null,
            YamlValue::Other => YamlValueV::Other,
        }
    }
}

/// The documents `yaml_rust2` loads from a frontmatter text, in order (none when the text does not
/// load): for each, its top-level mapping entries (each key's string, if it is one, and its
/// value), or `None` when the document is not a mapping.
pub uninterp spec fn yaml_documents(text: Seq<char>) -> Seq<
    Option<Seq<(Option<Seq<char>>, YamlValueV)>>,
>;

/// Character view of loaded entries.
pub open spec fn entries_view(e: Seq<(Option<String>, YamlValue)>) -> Seq<
    (Option<Seq<char>>, YamlValueV),
> {
    e.map_values(|p: (Option<String>, YamlValue)| (opt_view(p.0), p.1@))
}

/// Character view of loaded documents.
pub open spec fn documents_view(d: Seq<Option<Vec<(Option<String>, YamlValue)>>>) -> Seq<
    Option<Seq<(Option<Seq<char>>, YamlValueV)>>,
> {
    d.map_values(
        |o: Option<Vec<(Option<String>, YamlValue)>>|
            match o {
                Some(e) => Some(entries_view(e@)),
                None => None,
            },
    )
}

/// Calls `YamlLoader::load_from_str` and converts each document's top-level mapping to plain
/// values. The contract claims only that the result is a function of the text; the YAML grammar
/// is not stated.
#[verifier::external_body]
fn load_yaml(text: &str) -> (out: Vec<Option<Vec<(Option<String>, YamlValue)>>>)
    ensures
        documents_view(out@) == yaml_documents(text@),
{
    let Ok(docs) = YamlLoader::load_from_str(text) else { return Vec::new() };
    docs.into_iter().map(|doc| match doc {
        Yaml::Hash(map) => Some(map.into_iter().map(|(k, v)| (k.into_string(), match v {
            Yaml::String(s) => YamlValue::Str(s),
            Yaml::Array(items) => YamlValue::List(items.into_iter().map(Yaml::into_string).collect()),
            Yaml::Null => YamlValue::Null,
            Yaml::Real(_) | Yaml::Integer(_) | Yaml::Boolean(_) => YamlValue::Other,
            Yaml::Hash(_) | Yaml::Alias(_) | Yaml::BadValue => YamlValue::Other,
        })).collect()),
        _ => None,
    }).collect()
}

/// The entries read from loaded documents: those of the first document when it is a mapping,
/// else none.
pub open spec fn first_mapping(docs: Seq<Option<Seq<(Option<Seq<char>>, YamlValueV)>>>) -> Seq<
    (Option<Seq<char>>, YamlValueV),
> {
    if docs.len() > 0 && docs[0] is Some {
        docs[0]->0
    } else {
        Seq::empty()
    }
}

/// The entries of the first loaded document, when it is a mapping (else none).
pub fn first_mapping_of(docs: Vec<Option<Vec<(Option<String>, YamlValue)>>>) -> (out: Vec<
    (Option<String>, YamlValue),
>)
    ensures
        entries_view(out@) == first_mapping(documents_view(docs@)),
{
    let mut docs = docs;
    if docs.len() > 0 {
        let first = docs.swap_remove(0);
        if let Some(entries) = first {
            return entries;
        }
    }
    let e: Vec<(Option<String>, YamlValue)> = Vec::new();
    assert(entries_view(e@) =~= Seq::<(Option<Seq<char>>, YamlValueV)>::empty());
    e
}

// ---------------------------------------------------------------------------------------------
// Frontmatter values
// ---------------------------------------------------------------------------------------------

/// [`FmValue`] with its strings as character sequences.
pub enum FmValueV {
    Str(Seq<char>),
    List(Seq<Seq<char>>),
    Null,
    Other,
}

impl View for FmValue {
    type V = FmValueV;

    open spec fn view(&self) -> FmValueV {
        match self {
            FmValue::Str(s) => FmValueV::Str(s@),
            FmValue::List(v) => FmValueV::List(crate::graph::views(v@)),
            FmValue::Null => FmValueV::Null,
            FmValue::Other => FmValueV::Other,
        }
    }
}

/// The present items of a list of optional strings, in order.
pub open spec fn somes(items: Seq<Option<Seq<char>>>) -> Seq<Seq<char>>
    decreases items.len(),
{
    if items.len() == 0 {
        Seq::empty()
    } else {
        match items.last() {
            Some(s) => somes(items.drop_last()).push(s),
            None => somes(items.drop_last()),
        }
    }
}

/// A loaded value as a frontmatter value: a sequence keeps only its string items.
pub open spec fn fm_value_of(y: YamlValueV) -> FmValueV {
    match y {
        YamlValueV::Str(s) => FmValueV::Str(s),
        YamlValueV::List(items) => FmValueV::List(somes(items)),
        YamlValueV::Null => FmValueV::Null,
        YamlValueV::Other => FmValueV::Other,
    }
}

/// The frontmatter entries with string keys, in order.
pub open spec fn fm_entries(e: Seq<(Option<Seq<char>>, YamlValueV)>) -> Seq<(Seq<char>, FmValueV)>
    decreases e.len(),
{
    if e.len() == 0 {
        Seq::empty()
    } else {
        match e.last().0 {
            Some(k) => fm_entries(e.drop_last()).push((k, fm_value_of(e.last().1))),
            None => fm_entries(e.drop_last()),
        }
    }
}

/// Character view of frontmatter entries.
pub open spec fn fm_view(fm: Seq<(String, FmValue)>) -> Seq<(Seq<char>, FmValueV)> {
    fm.map_values(|p: (String, FmValue)| (p.0@, p.1@))
}

/// The value of the first entry named `key`.
pub open spec fn fm_lookup(fm: Seq<(Seq<char>, FmValueV)>, key: Seq<char>) -> Option<FmValueV>
    decreases fm.len(),
{
    if fm.len() == 0 {
        None
    } else if fm[0].0 == key {
        Some(fm[0].1)
    } else {
        fm_lookup(fm.drop_first(), key)
    }
}

/// One scalar string field (missing or non-string -> `None`).
pub open spec fn str_field_spec(fm: Seq<(Seq<char>, FmValueV)>, key: Seq<char>) -> Option<
    Seq<char>,
> {
    match fm_lookup(fm, key) {
        Some(FmValueV::Str(s)) => Some(s),
        _ => None,
    }
}

/// One string-list field: a list keeps its string items; a lone string is a one-element list.
pub open spec fn list_field_spec(fm: Seq<(Seq<char>, FmValueV)>, key: Seq<char>) -> Seq<Seq<char>> {
    match fm_lookup(fm, key) {
        Some(FmValueV::List(v)) => v,
        Some(FmValueV::Str(s)) => seq![s],
        _ => Seq::empty(),
    }
}

fn fm_value(y: &YamlValue) -> (out: FmValue)
    ensures
        out@ == fm_value_of(y@),
{
    match y {
        YamlValue::Str(s) => FmValue::Str(s.clone()),
        YamlValue::List(items) => {
            let mut kept: Vec<String> = Vec::new();
            let mut i: usize = 0;
            let ghost iv = items@.map_values(|o: Option<String>| opt_view(o));
            while i < items.len()
                invariant
                    i <= items.len(),
                    iv == items@.map_values(|o: Option<String>| opt_view(o)),
                    crate::graph::views(kept@) == somes(iv.take(i as int)),
                decreases items.len() - i,
            {
                assert(iv.take(i + 1).drop_last() =~= iv.take(i as int));
                match &items[i] {
                    Some(s) => {
                        let ghost prev = kept@;
                        kept.push(s.clone());
                        assert(crate::graph::views(kept@) =~= crate::graph::views(prev).push(
                            s@,
                        ));
                    },
                    None => {},
                }
                i += 1;
            }
            assert(iv.take(items.len() as int) =~= iv);
            FmValue::List(kept)
        },
        YamlValue::Null => FmValue::Null,
        YamlValue::Other => FmValue::Other,
    }
}

/// Keep the string-keyed entries, converting each value.
fn to_frontmatter(entries: &Vec<(Option<String>, YamlValue)>) -> (out: Vec<(String, FmValue)>)
    ensures
        fm_view(out@) == fm_entries(entries_view(entries@)),
{
    let ghost ev = entries_view(entries@);
    let mut out: Vec<(String, FmValue)> = Vec::new();
    let mut i: usize = 0;
    while i < entries.len()
        invariant
            i <= entries.len(),
            ev == entries_view(entries@),
            fm_view(out@) == fm_entries(ev.take(i as int)),
        decreases entries.len() - i,
    {
        assert(ev.take(i + 1).drop_last() =~= ev.take(i as int));
        assert(ev.take(i + 1).last() == ev[i as int]);
        match &entries[i].0 {
            Some(k) => {
                let ghost prev = out@;
                let v = fm_value(&entries[i].1);
                out.push((k.clone(), v));
                assert(fm_view(out@) =~= fm_view(prev).push((k@, v@)));
            },
            None => {},
        }
        i += 1;
    }
    assert(ev.take(entries.len() as int) =~= ev);
    out
}

pub(crate) fn lookup_index(fm: &Vec<(String, FmValue)>, key: &str) -> (r: Option<usize>)
    ensures
        match r {
            Some(i) => i < fm@.len() && fm_lookup(fm_view(fm@), key@) == Some(fm@[i as int].1@),
            None => fm_lookup(fm_view(fm@), key@) is None,
        },
{
    let ghost fv = fm_view(fm@);
    let mut i: usize = 0;
    assert(fv.skip(0) =~= fv);
    while i < fm.len()
        invariant
            i <= fm.len(),
            fv == fm_view(fm@),
            fm_lookup(fv, key@) == fm_lookup(fv.skip(i as int), key@),
        decreases fm.len() - i,
    {
        assert(fv.skip(i as int)[0] == fv[i as int]);
        if crate::text::str_eq(fm[i].0.as_str(), key) {
            return Some(i);
        }
        assert(fv.skip(i as int).drop_first() =~= fv.skip(i + 1));
        i += 1;
    }
    None
}

/// One scalar string field (missing or non-string -> `None`).
pub fn str_field(fm: &Vec<(String, FmValue)>, key: &str) -> (out: Option<String>)
    ensures
        match str_field_spec(fm_view(fm@), key@) {
            Some(s) => out is Some && out->0@ == s,
            None => out is None,
        },
{
    match lookup_index(fm, key) {
        Some(i) => match &fm[i].1 {
            FmValue::Str(s) => Some(s.clone()),
            _ => None,
        },
        None => None,
    }
}

/// One string-list field: block or flow list both work; a lone string is a single-element list.
pub fn list_field(fm: &Vec<(String, FmValue)>, key: &str) -> (out: Vec<String>)
    ensures
        crate::graph::views(out@) == list_field_spec(fm_view(fm@), key@),
{
    match lookup_index(fm, key) {
        Some(i) => match &fm[i].1 {
            FmValue::List(v) => v.clone(),
            FmValue::Str(s) => {
                let mut one: Vec<String> = Vec::new();
                one.push(s.clone());
                assert(crate::graph::views(one@) =~= seq![s@]);
                one
            },
            _ => {
                let e: Vec<String> = Vec::new();
                assert(crate::graph::views(e@) =~= Seq::<Seq<char>>::empty());
                e
            },
        },
        None => {
            let e: Vec<String> = Vec::new();
            assert(crate::graph::views(e@) =~= Seq::<Seq<char>>::empty());
            e
        },
    }
}

// ---------------------------------------------------------------------------------------------
// Notes
// ---------------------------------------------------------------------------------------------

/// Optional character view.
pub open spec fn ov(o: Option<String>) -> Option<Seq<char>> {
    opt_view(o)
}

/// What loading the frontmatter text gives (nothing without frontmatter).
pub open spec fn loaded_entries(fm_text: Option<Seq<char>>) -> Seq<(Option<Seq<char>>, YamlValueV)> {
    match fm_text {
        Some(text) => first_mapping(yaml_documents(text)),
        None => Seq::empty(),
    }
}

/// What [`Note::from_markdown`] reads from a file: every field as a function of path and content.
pub open spec fn note_matches(n: Note, path: Seq<char>, content: Seq<char>) -> bool {
    let (fm_text, body, _) = split_frontmatter_spec(content);
    note_built(n, path, content, loaded_entries(fm_text), markdown_events(body))
}

/// What [`Note::from_loaded`] builds from a file, given the loaded frontmatter `entries` and the
/// markdown `events` of its body.
pub open spec fn note_built(
    n: Note,
    path: Seq<char>,
    content: Seq<char>,
    entries: Seq<(Option<Seq<char>>, YamlValueV)>,
    events: Seq<MdEventV>,
) -> bool {
    let (fm_text, body, line) = split_frontmatter_spec(content);
    let fm = match fm_text {
        Some(_) => fm_entries(entries),
        None => Seq::empty(),
    };
    &&& n.path@ == path
    &&& n.no_frontmatter == (fm_text is None)
    &&& fm_view(n.frontmatter@) == fm
    &&& ov(n.title) == str_field_spec(fm, seq!['t', 'i', 't', 'l', 'e'])
    &&& ov(n.title_en) == str_field_spec(fm, seq!['t', 'i', 't', 'l', 'e', '_', 'e', 'n'])
    &&& crate::graph::views(n.aliases@) == list_field_spec(fm, seq!['a', 'l', 'i', 'a', 's', 'e', 's'])
    &&& ov(n.note_type) == str_field_spec(fm, seq!['t', 'y', 'p', 'e'])
    &&& ov(n.domain) == str_field_spec(fm, seq!['d', 'o', 'm', 'a', 'i', 'n'])
    &&& ov(n.status) == str_field_spec(fm, seq!['s', 't', 'a', 't', 'u', 's'])
    &&& ov(n.source_kind) == str_field_spec(
        fm,
        seq!['s', 'o', 'u', 'r', 'c', 'e', '_', 'k', 'i', 'n', 'd'],
    )
    &&& crate::graph::views(n.topics@) == list_field_spec(fm, seq!['t', 'o', 'p', 'i', 'c', 's'])
    &&& ov(n.slug) == str_field_spec(fm, seq!['s', 'l', 'u', 'g'])
    &&& crate::graph::views(n.based_on@) == list_field_spec(
        fm,
        seq!['b', 'a', 's', 'e', 'd', '_', 'o', 'n'],
    )
    &&& crate::graph::views(n.related@) == list_field_spec(fm, seq!['r', 'e', 'l', 'a', 't', 'e', 'd'])
    &&& ov(n.evolution_predecessor) == str_field_spec(
        fm,
        seq![
            'e', 'v', 'o', 'l', 'u', 't', 'i', 'o', 'n', '_', 'p', 'r', 'e', 'd', 'e', 'c', 'e',
            's', 's', 'o', 'r'
        ],
    )
    &&& crate::graph::views(n.evolution_successors@) == list_field_spec(
        fm,
        seq![
            'e', 'v', 'o', 'l', 'u', 't', 'i', 'o', 'n', '_', 's', 'u', 'c', 'c', 'e', 's', 's',
            'o', 'r', 's'
        ],
    )
    &&& n.wikilinks@.map_values(|w: crate::model::WikiLink| w@) == links_in(body, events, line)
    &&& n.path_refs@.map_values(|r: crate::model::PathRef| r@) == path_refs_in(body, events, line)
}

proof fn lemma_split_bounds(s: Seq<char>)
    ensures
        ({
            let (_, body, line) = split_frontmatter_spec(s);
            &&& 1 <= line <= s.len() + 2
            &&& encode_utf8(body).len() <= encode_utf8(s).len()
        }),
{
    let p = open_fence_len(s);
    if p != 0 {
        match closing_fence_from(s, p) {
            Some((ls, e)) => {
                lemma_closing_fence_bounds(s, p);
                lemma_count_nl_bound(s, ls);
                assert(s.skip(e) =~= s.subrange(e, s.len() as int));
                lemma_encode_subrange_len(s, e, s.len() as int);
            },
            None => {},
        }
    }
}

proof fn lemma_closing_fence_bounds(s: Seq<char>, ls: int)
    ensures
        match closing_fence_from(s, ls) {
            Some((a, e)) => 0 <= ls <= a < e <= s.len(),
            None => true,
        },
    decreases s.len() - ls,
{
    if 0 <= ls < s.len() {
        lemma_line_end(s, ls);
        let e = line_end(s, ls);
        if !is_fence(s.subrange(ls, e)) {
            lemma_closing_fence_bounds(s, e);
        }
    }
}

impl Note {
    /// Build a [`Note`] from a vault-relative `path` and raw file `content`.
    pub fn from_markdown(path: &str, content: &str) -> (n: Self)
        requires
            encode_utf8(content@).len() < isize::MAX,
        ensures
            note_matches(n, path@, content@),
    {
        proof {
            lemma_encode_len(content@);
        }
        let (frontmatter, body, _) = split_frontmatter(content);
        let events = md_events(body.as_str());
        let entries = match &frontmatter {
            Some(text) => first_mapping_of(load_yaml(text.as_str())),
            None => {
                let e: Vec<(Option<String>, YamlValue)> = Vec::new();
                assert(entries_view(e@) =~= Seq::<(Option<Seq<char>>, YamlValueV)>::empty());
                e
            },
        };
        Self::from_loaded(path, content, &entries, events.as_slice())
    }

    /// Build a [`Note`] from `path` and `content`, given what loading its frontmatter text gave
    /// (`entries`, unused without frontmatter) and the markdown `events` of its body, whose offsets
    /// lie in the body.
    pub fn from_loaded(
        path: &str,
        content: &str,
        entries: &Vec<(Option<String>, YamlValue)>,
        events: &[MdEvent],
    ) -> (n: Self)
        requires
            encode_utf8(content@).len() < isize::MAX,
            forall|i: int|
                0 <= i < events@.len() ==> event_in_bounds(
                    #[trigger] events@[i]@,
                    encode_utf8(split_frontmatter_spec(content@).1).len() as int,
                ),
        ensures
            note_built(
                n,
                path@,
                content@,
                entries_view(entries@),
                events@.map_values(|e: MdEvent| e@),
            ),
    {
        proof {
            lemma_encode_len(content@);
            lemma_split_bounds(content@);
        }
        let (frontmatter, body, body_line) = split_frontmatter(content);
        let wikilinks = extract_from_events(body.as_str(), body_line, events);
        let path_refs = extract_path_refs_from_events(body.as_str(), body_line, events);
        let no_frontmatter = frontmatter.is_none();
        let fm: Vec<(String, FmValue)> = match &frontmatter {
            Some(_) => to_frontmatter(entries),
            None => {
                let e: Vec<(String, FmValue)> = Vec::new();
                assert(fm_view(e@) =~= Seq::<(Seq<char>, FmValueV)>::empty());
                e
            },
        };
        proof {
            reveal_strlit("title");
            assert("title"@ =~= seq!['t', 'i', 't', 'l', 'e']);
            reveal_strlit("title_en");
            assert("title_en"@ =~= seq!['t', 'i', 't', 'l', 'e', '_', 'e', 'n']);
            reveal_strlit("aliases");
            assert("aliases"@ =~= seq!['a', 'l', 'i', 'a', 's', 'e', 's']);
            reveal_strlit("type");
            assert("type"@ =~= seq!['t', 'y', 'p', 'e']);
            reveal_strlit("domain");
            assert("domain"@ =~= seq!['d', 'o', 'm', 'a', 'i', 'n']);
            reveal_strlit("status");
            assert("status"@ =~= seq!['s', 't', 'a', 't', 'u', 's']);
            reveal_strlit("source_kind");
            assert("source_kind"@ =~= seq!['s', 'o', 'u', 'r', 'c', 'e', '_', 'k', 'i', 'n', 'd']);
            reveal_strlit("topics");
            assert("topics"@ =~= seq!['t', 'o', 'p', 'i', 'c', 's']);
            reveal_strlit("slug");
            assert("slug"@ =~= seq!['s', 'l', 'u', 'g']);
            reveal_strlit("based_on");
            assert("based_on"@ =~= seq!['b', 'a', 's', 'e', 'd', '_', 'o', 'n']);
            reveal_strlit("related");
            assert("related"@ =~= seq!['r', 'e', 'l', 'a', 't', 'e', 'd']);
            reveal_strlit("evolution_predecessor");
            assert("evolution_predecessor"@ =~= seq!['e', 'v', 'o', 'l', 'u', 't', 'i', 'o', 'n', '_', 'p', 'r', 'e', 'd', 'e', 'c', 'e', 's', 's', 'o', 'r']);
            reveal_strlit("evolution_successors");
            assert("evolution_successors"@ =~= seq!['e', 'v', 'o', 'l', 'u', 't', 'i', 'o', 'n', '_', 's', 'u', 'c', 'c', 'e', 's', 's', 'o', 'r', 's']);
        }
        Note {
            path: path.to_owned(),
            title: str_field(&fm, "title"),
            title_en: str_field(&fm, "title_en"),
            aliases: list_field(&fm, "aliases"),
            note_type: str_field(&fm, "type"),
            domain: str_field(&fm, "domain"),
            status: str_field(&fm, "status"),
            source_kind: str_field(&fm, "source_kind"),
            topics: list_field(&fm, "topics"),
            slug: str_field(&fm, "slug"),
            based_on: list_field(&fm, "based_on"),
            related: list_field(&fm, "related"),
            evolution_predecessor: str_field(&fm, "evolution_predecessor"),
            evolution_successors: list_field(&fm, "evolution_successors"),
            wikilinks,
            path_refs,
            frontmatter: fm,
            no_frontmatter,
        }
    }
}

} // verus!
