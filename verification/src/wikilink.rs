//! Extract `[[wikilink]]`s from a markdown body.
//!
//! Wikilinks are not CommonMark syntax, so the markdown tokenizer is used only to locate code
//! spans/blocks (to skip) and headings (for gap-section context); the `[[...]]` targets are scanned
//! from the raw text. Obsidian `%%...%%` comments are excluded from the link graph, so a `[[X]]`
//! inside them is skipped too. Targets keep their original case and Unicode; the resolver
//! normalizes at lookup time.

use pulldown_cmark::{Event, Options, Parser, Tag, TagEnd};
use vstd::prelude::*;
use vstd::slice::slice_subrange;
use vstd::utf8::{decode_utf8, encode_utf8, encode_utf8_valid_utf8};

use crate::model::{PathRef, WikiLink};
use crate::scan::{
    any_zone_contains, comment_zones_bytes, comment_zones_spec, count_newlines,
    count_newlines_exec, in_zones, lemma_count_newlines_bound, raw_spans, raw_spans_exec, Span,
    Zone,
};
use crate::text::{
    chars_contains, chars_of, contains_seq, string_of_range, trim, trim_bounds,
};
use crate::utf8_slice::{lemma_ascii_boundaries, slice_bytes};

verus! {

// ---------------------------------------------------------------------------------------------
// Target stripping
// ---------------------------------------------------------------------------------------------

/// The part of `s` before the first `c` (all of `s` when it has none).
pub open spec fn before_first(s: Seq<char>, c: char) -> Seq<char>
    decreases s.len(),
{
    if s.len() == 0 {
        s
    } else if s[0] == c {
        Seq::empty()
    } else {
        seq![s[0]] + before_first(s.drop_first(), c)
    }
}

/// `s` without its trailing backslashes.
pub open spec fn trim_end_backslashes(s: Seq<char>) -> Seq<char>
    decreases s.len(),
{
    if s.len() > 0 && s.last() == '\\' {
        trim_end_backslashes(s.drop_last())
    } else {
        s
    }
}

/// A wikilink's inner text reduced to the note-name target: drop `|display` (and a table cell's
/// escaping backslash before it), then `#heading`, then `^block`, then surrounding whitespace.
/// `None` when nothing remains (a same-file anchor such as `[[#heading]]`).
pub open spec fn strip_target_spec(inner: Seq<char>) -> Option<Seq<char>> {
    let t = trim(
        before_first(before_first(trim_end_backslashes(before_first(inner, '|')), '#'), '^'),
    );
    if t.len() == 0 {
        None
    } else {
        Some(t)
    }
}

proof fn lemma_before_first(s: Seq<char>, c: char, k: int)
    requires
        0 <= k <= s.len(),
        forall|j: int| 0 <= j < k ==> #[trigger] s[j] != c,
        k == s.len() || s[k] == c,
    ensures
        before_first(s, c) == s.take(k),
    decreases k,
{
    if k == 0 {
        if s.len() == 0 {
            assert(s.take(0) =~= s);
        } else {
            assert(s.take(0) =~= Seq::<char>::empty());
        }
    } else {
        lemma_before_first(s.drop_first(), c, k - 1);
        assert(seq![s[0]] + s.drop_first().take(k - 1) =~= s.take(k));
    }
}

/// Index of the first `c` in `v[..n]`, or `n`.
fn first_index(v: &[char], n: usize, c: char) -> (k: usize)
    requires
        n <= v.len(),
    ensures
        k <= n,
        before_first(v@.take(n as int), c) == v@.take(k as int),
{
    let mut k: usize = 0;
    while k < n && v[k] != c
        invariant
            k <= n <= v.len(),
            forall|j: int| 0 <= j < k ==> #[trigger] v@[j] != c,
        decreases n - k,
    {
        k += 1;
    }
    proof {
        let t = v@.take(n as int);
        assert forall|j: int| 0 <= j < k implies #[trigger] t[j] != c by {
            assert(t[j] == v@[j]);
        }
        lemma_before_first(t, c, k as int);
        assert(t.take(k as int) =~= v@.take(k as int));
    }
    k
}

proof fn lemma_trim_end_backslashes(s: Seq<char>, m: int)
    requires
        0 <= m <= s.len(),
        forall|j: int| m <= j < s.len() ==> #[trigger] s[j] == '\\',
        m == 0 || s[m - 1] != '\\',
    ensures
        trim_end_backslashes(s) == s.take(m),
    decreases s.len() - m,
{
    if m < s.len() {
        lemma_trim_end_backslashes(s.drop_last(), m);
        assert(s.drop_last().take(m) =~= s.take(m));
    } else {
        assert(s.take(m) =~= s);
    }
}

/// Strip `|display`, `#heading`, `^block` from a wikilink's inner text, leaving the note-name
/// target. `None` if nothing remains (a same-file anchor link). Shared with provenance resolution
/// so frontmatter references are stripped identically to body links.
pub fn strip_target(inner: &str) -> (out: Option<String>)
    ensures
        match strip_target_spec(inner@) {
            Some(t) => out is Some && out->0@ == t,
            None => out is None,
        },
{
    let v = chars_of(inner);
    let s = v.as_slice();
    let a = first_index(s, s.len(), '|');
    assert(v@.take(v@.len() as int) =~= v@);
    let mut b = a;
    while b > 0 && s[b - 1] == '\\'
        invariant
            b <= a <= s.len(),
            forall|j: int| b <= j < a ==> #[trigger] s@[j] == '\\',
        decreases b,
    {
        b -= 1;
    }
    proof {
        let t = s@.take(a as int);
        assert forall|j: int| b <= j < a implies #[trigger] t[j] == '\\' by {
            assert(t[j] == s@[j]);
        }
        if b > 0 {
            assert(t[b - 1] == s@[b - 1]);
        }
        lemma_trim_end_backslashes(t, b as int);
        assert(t.take(b as int) =~= s@.take(b as int));
    }
    let c = first_index(s, b, '#');
    let d = first_index(s, c, '^');
    let head = slice_subrange(s, 0, d);
    assert(head@ =~= s@.take(d as int));
    let (lo, hi) = trim_bounds(head);
    if lo == hi {
        None
    } else {
        assert(head@.subrange(lo as int, hi as int) =~= s@.subrange(lo as int, hi as int));
        Some(string_of_range(s, lo, hi))
    }
}

// ---------------------------------------------------------------------------------------------
// Markdown structure (tokenizer events)
// ---------------------------------------------------------------------------------------------

/// The tokenizer events the extractor reads, with byte offsets into the body.
#[derive(Debug, Clone)]
pub enum MdEvent {
    /// Start of a fenced or indented code block (its first byte).
    CodeBlockStart(usize),
    /// End of a code block (one past its last byte).
    CodeBlockEnd(usize),
    /// An inline code span: its byte range and its text.
    Code(usize, usize, String),
    /// Start of a heading: first byte and level (1..=6).
    HeadingStart(usize, usize),
    /// End of a heading.
    HeadingEnd,
    /// A run of text.
    Text(String),
    /// Start of an inline link: first byte and destination.
    LinkStart(usize, String),
    /// Any other event.
    Other,
}

/// [`MdEvent`] with its strings as character sequences.
pub enum MdEventV {
    CodeBlockStart(usize),
    CodeBlockEnd(usize),
    Code(usize, usize, Seq<char>),
    HeadingStart(usize, usize),
    HeadingEnd,
    Text(Seq<char>),
    LinkStart(usize, Seq<char>),
    Other,
}

impl View for MdEvent {
    type V = MdEventV;

    open spec fn view(&self) -> MdEventV {
        match self {
            MdEvent::CodeBlockStart(s) => MdEventV::CodeBlockStart(*s),
            MdEvent::CodeBlockEnd(e) => MdEventV::CodeBlockEnd(*e),
            MdEvent::Code(s, e, t) => MdEventV::Code(*s, *e, t@),
            MdEvent::HeadingStart(s, l) => MdEventV::HeadingStart(*s, *l),
            MdEvent::HeadingEnd => MdEventV::HeadingEnd,
            MdEvent::Text(t) => MdEventV::Text(t@),
            MdEvent::LinkStart(s, d) => MdEventV::LinkStart(*s, d@),
            MdEvent::Other => MdEventV::Other,
        }
    }
}

/// What `pulldown_cmark` (no extensions) reports for a body, event by event with offsets.
pub uninterp spec fn markdown_events(body: Seq<char>) -> Seq<MdEventV>;

/// Every byte offset an event carries lies within the body's `len` bytes.
pub open spec fn event_in_bounds(e: MdEventV, len: int) -> bool {
    match e {
        MdEventV::CodeBlockStart(s) => s <= len,
        MdEventV::CodeBlockEnd(end) => end <= len,
        MdEventV::Code(s, end, _) => s <= end <= len,
        MdEventV::HeadingStart(s, _) => s <= len,
        MdEventV::LinkStart(s, _) => s <= len,
        _ => true,
    }
}

/// Runs `pulldown_cmark::Parser::new_ext(body, Options::empty()).into_offset_iter()` and records
/// each event. The contract claims that the event list is a function of the body and that each
/// range lies in the body (the crate documents the ranges as ranges of the source); the CommonMark
/// grammar itself is not stated.
#[verifier::external_body]
pub(crate) fn md_events(body: &str) -> (out: Vec<MdEvent>)
    ensures
        out@.map_values(|e: MdEvent| e@) == markdown_events(body@),
        forall|i: int|
            0 <= i < out@.len() ==> event_in_bounds(
                #[trigger] out@[i]@,
                encode_utf8(body@).len() as int,
            ),
{
    Parser::new_ext(body, Options::empty()).into_offset_iter().map(|(ev, r)| match ev {
        Event::Start(Tag::CodeBlock(_)) => MdEvent::CodeBlockStart(r.start),
        Event::End(TagEnd::CodeBlock) => MdEvent::CodeBlockEnd(r.end),
        Event::Code(t) => MdEvent::Code(r.start, r.end, t.to_string()),
        Event::Start(Tag::Heading { level, .. }) => MdEvent::HeadingStart(r.start, level as usize),
        Event::End(TagEnd::Heading(_)) => MdEvent::HeadingEnd,
        Event::Text(t) => MdEvent::Text(t.to_string()),
        Event::Start(Tag::Link { dest_url, .. }) => MdEvent::LinkStart(r.start, dest_url.to_string()),
        _ => MdEvent::Other,
    }).collect()
}

/// A heading's parsed facts: start byte offset, level, and whether its text contains a gap marker.
#[derive(Debug, Clone, Copy, PartialEq, Eq, Structural)]
pub struct Heading {
    pub start: usize,
    pub level: usize,
    pub gap: bool,
}

/// A heading whose text contains one of these marks the following section as planned: wikilinks
/// under it are forward-references, not broken links.
pub open spec fn gap_markers() -> Seq<Seq<char>> {
    seq![
        seq!['缺', '口'],
        seq!['待', '補'],
        seq!['待', '寫'],
        seq!['待', '整', '理'],
        seq!['待', '建'],
    ]
}

/// Whether `text` contains a gap marker.
pub open spec fn has_gap_marker(text: Seq<char>) -> bool {
    exists|i: int| 0 <= i < gap_markers().len() && contains_seq(text, #[trigger] gap_markers()[i])
}

fn has_gap_marker_exec(text: &[char]) -> (r: bool)
    ensures
        r == has_gap_marker(text@),
{
    let m0 = ['缺', '口'];
    let m1 = ['待', '補'];
    let m2 = ['待', '寫'];
    let m3 = ['待', '整', '理'];
    let m4 = ['待', '建'];
    assert(m0@ == gap_markers()[0]);
    assert(m1@ == gap_markers()[1]);
    assert(m2@ == gap_markers()[2]);
    assert(m3@ == gap_markers()[3]);
    assert(m4@ == gap_markers()[4]);
    let r = chars_contains(text, &m0) || chars_contains(text, &m1) || chars_contains(text, &m2)
        || chars_contains(text, &m3) || chars_contains(text, &m4);
    proof {
        if has_gap_marker(text@) {
            let i = choose|i: int|
                0 <= i < gap_markers().len() && contains_seq(text@, #[trigger] gap_markers()[i]);
            assert(i == 0 || i == 1 || i == 2 || i == 3 || i == 4);
        }
    }
    r
}

/// The scanner state while walking the events: code zones so far, headings so far, an open code
/// block's start, and an open heading's (start, level, text).
pub struct StructState {
    pub zones: Seq<Zone>,
    pub heads: Seq<Heading>,
    pub code_start: Option<usize>,
    pub heading: Option<(usize, usize, Seq<char>)>,
}

/// One event's effect on the scanner state.
pub open spec fn struct_step(st: StructState, e: MdEventV) -> StructState {
    match e {
        MdEventV::CodeBlockStart(s) => StructState { code_start: Some(s), ..st },
        MdEventV::CodeBlockEnd(end) => match st.code_start {
            Some(s) => StructState { zones: st.zones.push((s, end)), code_start: None, ..st },
            None => st,
        },
        MdEventV::Code(s, end, _) => StructState { zones: st.zones.push((s, end)), ..st },
        MdEventV::HeadingStart(s, l) => StructState { heading: Some((s, l, Seq::empty())), ..st },
        MdEventV::HeadingEnd => match st.heading {
            Some((s, l, t)) => StructState {
                heads: st.heads.push(Heading { start: s, level: l, gap: has_gap_marker(t) }),
                heading: None,
                ..st
            },
            None => st,
        },
        MdEventV::Text(t) => match st.heading {
            Some((s, l, x)) => StructState { heading: Some((s, l, x + t)), ..st },
            None => st,
        },
        _ => st,
    }
}

/// The scanner state after the first `n` events.
pub open spec fn struct_upto(events: Seq<MdEventV>, n: int) -> StructState
    decreases n,
{
    if n <= 0 {
        StructState {
            zones: Seq::empty(),
            heads: Seq::empty(),
            code_start: None,
            heading: None,
        }
    } else {
        struct_step(struct_upto(events, n - 1), events[n - 1])
    }
}

/// Code span/block byte ranges (to skip) and the headings, in document order.
pub open spec fn structure_spec(events: Seq<MdEventV>) -> (Seq<Zone>, Seq<Heading>) {
    let st = struct_upto(events, events.len() as int);
    (st.zones, st.heads)
}

/// Exec form of [`structure_spec`].
pub fn structure(events: &[MdEvent]) -> (out: (Vec<Zone>, Vec<Heading>))
    ensures
        (out.0@, out.1@) == structure_spec(events@.map_values(|e: MdEvent| e@)),
{
    let ghost ev = events@.map_values(|e: MdEvent| e@);
    let mut zones: Vec<Zone> = Vec::new();
    let mut heads: Vec<Heading> = Vec::new();
    let mut code_start: Option<usize> = None;
    let mut heading: Option<(usize, usize, Vec<char>)> = None;
    let mut i: usize = 0;
    while i < events.len()
        invariant
            i <= events.len(),
            ev == events@.map_values(|e: MdEvent| e@),
            ({
                let st = struct_upto(ev, i as int);
                &&& st.zones == zones@
                &&& st.heads == heads@
                &&& st.code_start == code_start
                &&& match heading {
                    Some((s, l, t)) => st.heading == Some((s, l, t@)),
                    None => st.heading is None,
                }
            }),
        decreases events.len() - i,
    {
        assert(ev[i as int] == events@[i as int]@);
        match &events[i] {
            MdEvent::CodeBlockStart(s) => {
                code_start = Some(*s);
            },
            MdEvent::CodeBlockEnd(end) => {
                if let Some(s) = code_start {
                    zones.push((s, *end));
                    code_start = None;
                }
            },
            MdEvent::Code(s, end, _) => {
                zones.push((*s, *end));
            },
            MdEvent::HeadingStart(s, l) => {
                let fresh: Vec<char> = Vec::new();
                assert(fresh@ =~= Seq::<char>::empty());
                heading = Some((*s, *l, fresh));
            },
            MdEvent::HeadingEnd => {
                match heading {
                    Some((s, l, t)) => {
                        let gap = has_gap_marker_exec(t.as_slice());
                        heads.push(Heading { start: s, level: l, gap });
                        heading = None;
                    },
                    None => {},
                }
            },
            MdEvent::Text(t) => {
                match heading {
                    Some((s, l, x)) => {
                        let mut x = x;
                        let tc = chars_of(t.as_str());
                        let mut k: usize = 0;
                        let ghost x0 = x@;
                        while k < tc.len()
                            invariant
                                k <= tc.len(),
                                x@ == x0 + tc@.take(k as int),
                            decreases tc.len() - k,
                        {
                            x.push(tc[k]);
                            k += 1;
                            assert(x@ =~= x0 + tc@.take(k as int));
                        }
                        assert(tc@.take(tc.len() as int) =~= tc@);
                        heading = Some((s, l, x));
                    },
                    None => {
                        heading = None;
                    },
                }
            },
            _ => {},
        }
        i += 1;
    }
    (zones, heads)
}

/// Gap-section state after scanning headings `hs[i..]` that start at or before `offset`, from
/// state `g` (the level of the open gap heading, if any). Scanning stops at the first heading
/// after `offset`.
pub open spec fn gap_from(hs: Seq<Heading>, i: int, offset: int, g: Option<usize>) -> Option<usize>
    decreases hs.len() - i,
{
    if i < 0 || i >= hs.len() || hs[i].start > offset {
        g
    } else {
        let closed = match g {
            Some(level) => if hs[i].level <= level {
                None
            } else {
                g
            },
            None => None,
        };
        let next = if hs[i].gap {
            Some(hs[i].level)
        } else {
            closed
        };
        gap_from(hs, i + 1, offset, next)
    }
}

/// Whether `offset` falls in a section opened by a gap heading and not yet closed by a heading at
/// the same or a higher level.
pub open spec fn in_gap_spec(hs: Seq<Heading>, offset: int) -> bool {
    gap_from(hs, 0, offset, None) is Some
}

/// Exec form of [`in_gap_spec`].
pub fn in_gap_section(headings: &[Heading], offset: usize) -> (r: bool)
    ensures
        r == in_gap_spec(headings@, offset as int),
{
    let mut gap_level: Option<usize> = None;
    let mut i: usize = 0;
    while i < headings.len() && headings[i].start <= offset
        invariant
            i <= headings.len(),
            gap_from(headings@, 0, offset as int, None) == gap_from(
                headings@,
                i as int,
                offset as int,
                gap_level,
            ),
        decreases headings.len() - i,
    {
        let h = headings[i];
        match gap_level {
            Some(g) => {
                if h.level <= g {
                    gap_level = None;
                }
            },
            None => {},
        }
        if h.gap {
            gap_level = Some(h.level);
        }
        i += 1;
    }
    gap_level.is_some()
}

// ---------------------------------------------------------------------------------------------
// Extraction
// ---------------------------------------------------------------------------------------------

impl View for WikiLink {
    type V = (Seq<char>, int, bool);

    open spec fn view(&self) -> (Seq<char>, int, bool) {
        (self.target@, self.line as int, self.under_gap_heading)
    }
}

/// The links found among `spans[..n]`: those outside `skip`, whose stripped target is
/// non-empty, with their 1-based line and gap context.
pub open spec fn links_from_spans(
    b: Seq<u8>,
    spans: Seq<Span>,
    n: int,
    skip: Seq<Zone>,
    heads: Seq<Heading>,
    start_line: int,
) -> Seq<(Seq<char>, int, bool)>
    decreases n,
{
    if n <= 0 {
        Seq::empty()
    } else {
        let prev = links_from_spans(b, spans, n - 1, skip, heads, start_line);
        let (open, s, e) = spans[n - 1];
        if in_zones(skip, open as int) {
            prev
        } else {
            match strip_target_spec(decode_utf8(b.subrange(s as int, e as int))) {
                None => prev,
                Some(t) => prev.push(
                    (t, start_line + count_newlines(b, open as int), in_gap_spec(heads, open as int)),
                ),
            }
        }
    }
}

/// Every wikilink of `body`, in order: raw `[[...]]` pairs outside code and `%%` comments whose
/// target survives stripping, each with its line (`body_start_line` for the first body line) and
/// whether it sits in a gap section.
pub open spec fn extract_spec(body: Seq<char>, body_start_line: int) -> Seq<(Seq<char>, int, bool)> {
    links_in(body, markdown_events(body), body_start_line)
}

/// The wikilinks of `body` given its markdown `events`: the code zones and headings come from
/// the events, the `[[...]]` pairs and comment zones from the bytes.
pub open spec fn links_in(body: Seq<char>, events: Seq<MdEventV>, body_start_line: int) -> Seq<
    (Seq<char>, int, bool),
> {
    let b = encode_utf8(body);
    let (code, heads) = structure_spec(events);
    let skip = code + comment_zones_spec(b, code);
    let spans = raw_spans(b);
    links_from_spans(b, spans, spans.len() as int, skip, heads, body_start_line)
}

/// Extract every `[[target]]` in `body`, skipping code and comment zones, with 1-based line
/// numbers (offset by `body_start_line`) and gap-section context.
pub fn extract(body: &str, body_start_line: usize) -> (out: Vec<WikiLink>)
    requires
        body_start_line + encode_utf8(body@).len() <= usize::MAX,
    ensures
        out@.map_values(|w: WikiLink| w@) == extract_spec(body@, body_start_line as int),
{
    let events = md_events(body);
    extract_from_events(body, body_start_line, events.as_slice())
}

/// [`extract`] on the markdown `events` of `body` (as `pulldown_cmark` reports them).
pub fn extract_from_events(body: &str, body_start_line: usize, events: &[MdEvent]) -> (out: Vec<
    WikiLink,
>)
    requires
        body_start_line + encode_utf8(body@).len() <= usize::MAX,
    ensures
        out@.map_values(|w: WikiLink| w@) == links_in(
            body@,
            events@.map_values(|e: MdEvent| e@),
            body_start_line as int,
        ),
{
    let b = body.as_bytes();
    let ghost bs = encode_utf8(body@);
    assert(b@ == bs);
    proof {
        encode_utf8_valid_utf8(body@);
    }
    let (code, heads) = structure(events);
    let comments = comment_zones_bytes(b, code.as_slice());
    let mut skip = code;
    let mut comments = comments;
    skip.append(&mut comments);
    let spans = raw_spans_exec(b);
    let ghost ctx_skip = skip@;
    let mut links: Vec<WikiLink> = Vec::new();
    let mut i: usize = 0;
    while i < spans.len()
        invariant
            i <= spans.len(),
            b@ == bs,
            vstd::utf8::valid_utf8(bs),
            bs == encode_utf8(body@),
            body_start_line + bs.len() <= usize::MAX,
            spans@ == raw_spans(bs),
            forall|k: int|
                0 <= k < spans@.len() ==> {
                    let (o, s, e) = #[trigger] spans@[k];
                    o + 2 == s && s <= e && e + 2 <= bs.len() && bs[o as int] == 91u8 && bs[o
                        + 1] == 91u8 && bs[e as int] == 93u8 && bs[e + 1] == 93u8
                },
            links@.map_values(|w: WikiLink| w@) == links_from_spans(
                bs,
                spans@,
                i as int,
                skip@,
                heads@,
                body_start_line as int,
            ),
        decreases spans.len() - i,
    {
        let (open, s, e) = spans[i];
        let ghost prev = links@;
        if !any_zone_contains(skip.as_slice(), open) {
            proof {
                lemma_ascii_boundaries(bs, s - 1);
                lemma_ascii_boundaries(bs, e as int);
            }
            let inner = slice_bytes(body, s, e);
            match strip_target(inner.as_str()) {
                None => {},
                Some(target) => {
                    let nl = count_newlines_exec(b, open);
                    proof {
                        lemma_count_newlines_bound(bs, open as int);
                    }
                    let under = in_gap_section(heads.as_slice(), open);
                    links.push(WikiLink { target, line: body_start_line + nl, under_gap_heading: under });
                    assert(links@.map_values(|w: WikiLink| w@) =~= prev.map_values(
                        |w: WikiLink| w@,
                    ).push(links@[prev.len() as int]@));
                },
            }
        }
        i += 1;
    }
    links
}

/// Raw scan for `[[...]]` pairs: `(byte offset of the [[, inner text)`. The inner text must not
/// span a newline (wikilinks are single-line).
pub fn raw_wikilinks(body: &str) -> (out: Vec<(usize, String)>)
    ensures
        out@.len() == raw_spans(encode_utf8(body@)).len(),
        forall|i: int|
            0 <= i < out@.len() ==> {
                let (o, s, e) = #[trigger] raw_spans(encode_utf8(body@))[i];
                out@[i].0 == o && out@[i].1@ == decode_utf8(
                    encode_utf8(body@).subrange(s as int, e as int),
                )
            },
{
    let b = body.as_bytes();
    let ghost bs = encode_utf8(body@);
    proof {
        encode_utf8_valid_utf8(body@);
    }
    let spans = raw_spans_exec(b);
    let mut out: Vec<(usize, String)> = Vec::new();
    let mut i: usize = 0;
    while i < spans.len()
        invariant
            i <= spans.len(),
            b@ == bs,
            bs == encode_utf8(body@),
            vstd::utf8::valid_utf8(bs),
            spans@ == raw_spans(bs),
            forall|k: int|
                0 <= k < spans@.len() ==> {
                    let (o, s, e) = #[trigger] spans@[k];
                    o + 2 == s && s <= e && e + 2 <= bs.len() && bs[o as int] == 91u8 && bs[o
                        + 1] == 91u8 && bs[e as int] == 93u8 && bs[e + 1] == 93u8
                },
            out@.len() == i,
            forall|k: int|
                0 <= k < i ==> {
                    let (o, s, e) = #[trigger] spans@[k];
                    out@[k].0 == o && out@[k].1@ == decode_utf8(bs.subrange(s as int, e as int))
                },
        decreases spans.len() - i,
    {
        let (open, s, e) = spans[i];
        proof {
            lemma_ascii_boundaries(bs, s - 1);
            lemma_ascii_boundaries(bs, e as int);
        }
        let inner = slice_bytes(body, s, e);
        out.push((open, inner));
        i += 1;
    }
    out
}

/// Byte ranges of Obsidian `%%...%%` comments, given the code zones to ignore `%%` in.
pub fn comment_zones(body: &str, code_zones: &[Zone]) -> (out: Vec<Zone>)
    ensures
        out@ == comment_zones_spec(encode_utf8(body@), code_zones@),
{
    comment_zones_bytes(body.as_bytes(), code_zones)
}

} // verus!

verus! {

// ---------------------------------------------------------------------------------------------
// File path references
// ---------------------------------------------------------------------------------------------

/// `p` without trailing `/` and `/.` segments (they do not change which file a path names).
pub open spec fn strip_trailing_segments(p: Seq<char>) -> Seq<char>
    decreases p.len(),
{
    if p.len() > 0 && p.last() == '/' {
        strip_trailing_segments(p.drop_last())
    } else if p.len() >= 2 && p.last() == '.' && p[p.len() - 2] == '/' {
        strip_trailing_segments(p.take(p.len() - 2))
    } else {
        p
    }
}

/// `Path::file_name` of a relative path: its last normal component, if any.
pub open spec fn file_name_spec(p: Seq<char>) -> Option<Seq<char>> {
    let last = crate::graph::filename_spec(strip_trailing_segments(p));
    if last.len() == 0 || last == seq!['.'] || last == seq!['.', '.'] {
        None
    } else {
        Some(last)
    }
}

/// Index of the last `.` in `s` (or -1).
pub open spec fn last_dot(s: Seq<char>) -> int
    decreases s.len(),
{
    if s.len() == 0 {
        -1
    } else if s.last() == '.' {
        s.len() - 1
    } else {
        last_dot(s.drop_last())
    }
}

/// `Path::extension` of a file name: the text after its last `.`, provided the text before it is
/// not empty.
pub open spec fn extension_spec(name: Seq<char>) -> Option<Seq<char>> {
    let k = last_dot(name);
    if k <= 0 {
        None
    } else {
        Some(name.skip(k + 1))
    }
}

/// Whether `ext` is `md` ignoring ASCII case.
pub open spec fn is_md_ext(ext: Seq<char>) -> bool {
    ext.len() == 2 && (ext[0] == 'm' || ext[0] == 'M') && (ext[1] == 'd' || ext[1] == 'D')
}

/// Whether `path` is a plain relative `.md` file reference worth stat-ing: a `.md` extension, and
/// not a site-absolute (`/…`) or home (`~/…`) path, a URL, a glob/placeholder, or percent-encoded.
pub open spec fn is_relative_md_ref_spec(path: Seq<char>) -> bool {
    &&& path.len() > 0
    &&& match file_name_spec(path) {
        Some(name) => match extension_spec(name) {
            Some(ext) => is_md_ext(ext),
            None => false,
        },
        None => false,
    }
    &&& path[0] != '/'
    &&& path[0] != '~'
    &&& !contains_seq(path, seq![':', '/', '/'])
    &&& !path.contains('%')
    &&& !path.contains('*')
    &&& !path.contains('<')
    &&& !path.contains('>')
}

proof fn lemma_last_dot(s: Seq<char>, k: int)
    requires
        -1 <= k < s.len(),
        forall|j: int| k < j < s.len() ==> #[trigger] s[j] != '.',
        k == -1 || s[k] == '.',
    ensures
        last_dot(s) == k,
    decreases s.len(),
{
    if s.len() > 0 && k < s.len() - 1 {
        lemma_last_dot(s.drop_last(), k);
    }
}

fn last_dot_exec(s: &[char]) -> (k: Option<usize>)
    ensures
        match k {
            Some(i) => last_dot(s@) == i && i < s.len(),
            None => last_dot(s@) == -1,
        },
{
    let mut j = s.len();
    while j > 0 && s[j - 1] != '.'
        invariant
            j <= s.len(),
            forall|i: int| j <= i < s.len() ==> #[trigger] s@[i] != '.',
        decreases j,
    {
        j -= 1;
    }
    proof {
        lemma_last_dot(s@, j - 1);
    }
    if j == 0 {
        None
    } else {
        Some(j - 1)
    }
}

fn strip_trailing_exec(s: &[char]) -> (n: usize)
    ensures
        n <= s.len(),
        s@.take(n as int) == strip_trailing_segments(s@),
{
    let mut n = s.len();
    assert(s@.take(n as int) =~= s@);
    loop
        invariant
            n <= s.len(),
            strip_trailing_segments(s@.take(n as int)) == strip_trailing_segments(s@),
        decreases n,
    {
        let ghost t = s@.take(n as int);
        if n > 0 && s[n - 1] == '/' {
            assert(t.drop_last() =~= s@.take(n - 1));
            n -= 1;
        } else if n >= 2 && s[n - 1] == '.' && s[n - 2] == '/' {
            assert(t.take(t.len() - 2) =~= s@.take(n - 2));
            n -= 2;
        } else {
            return n;
        }
    }
}

fn contains_char(s: &[char], c: char) -> (r: bool)
    ensures
        r == s@.contains(c),
{
    let mut i: usize = 0;
    while i < s.len()
        invariant
            i <= s.len(),
            forall|j: int| 0 <= j < i ==> #[trigger] s@[j] != c,
        decreases s.len() - i,
    {
        if s[i] == c {
            return true;
        }
        i += 1;
    }
    false
}

/// Exec form of [`is_relative_md_ref_spec`].
pub fn is_relative_md_ref(path: &[char]) -> (r: bool)
    ensures
        r == is_relative_md_ref_spec(path@),
{
    if path.len() == 0 {
        return false;
    }
    let n = strip_trailing_exec(path);
    let stripped = slice_subrange(path, 0, n);
    assert(stripped@ =~= path@.take(n as int));
    let start = crate::graph::filename_start_of(stripped);
    let name = slice_subrange(stripped, start, stripped.len());
    assert(name@ =~= stripped@.skip(start as int));
    let dot = ['.'];
    let dotdot = ['.', '.'];
    assert(dot@ =~= seq!['.']);
    assert(dotdot@ =~= seq!['.', '.']);
    if name.len() == 0 || crate::text::chars_eq(name, &dot) || crate::text::chars_eq(
        name,
        &dotdot,
    ) {
        return false;
    }
    let ext_ok = match last_dot_exec(name) {
        None => false,
        Some(k) => {
            if k == 0 {
                false
            } else {
                let ext = slice_subrange(name, k + 1, name.len());
                assert(ext@ =~= name@.skip(k + 1));
                ext.len() == 2 && (ext[0] == 'm' || ext[0] == 'M') && (ext[1] == 'd' || ext[1]
                    == 'D')
            }
        },
    };
    let url = [':', '/', '/'];
    assert(url@ =~= seq![':', '/', '/']);
    ext_ok && path[0] != '/' && path[0] != '~' && !chars_contains(path, &url) && !contains_char(
        path,
        '%',
    ) && !contains_char(path, '*') && !contains_char(path, '<') && !contains_char(path, '>')
}

/// The reference a markdown link destination makes, if it is a plain relative `.md` file: the
/// destination up to its first `#` or `?`, trimmed.
pub open spec fn file_link_spec(dest: Seq<char>) -> Option<Seq<char>> {
    let path = trim(before_first(before_first(dest, '#'), '?'));
    if is_relative_md_ref_spec(path) {
        Some(path)
    } else {
        None
    }
}

/// The reference a backticked token makes, if it is a relative vault `.md` path containing a
/// separator (so a bare `foo.md` mentioned in prose is not mistaken for a path).
pub open spec fn backtick_path_spec(text: Seq<char>) -> Option<Seq<char>> {
    let t = trim(text);
    if t.contains('/') && is_relative_md_ref_spec(t) {
        Some(t)
    } else {
        None
    }
}

/// Exec form of [`file_link_spec`].
pub fn file_link(dest: &str) -> (out: Option<String>)
    ensures
        match file_link_spec(dest@) {
            Some(p) => out is Some && out->0@ == p,
            None => out is None,
        },
{
    let v = chars_of(dest);
    let s = v.as_slice();
    let a = first_index(s, s.len(), '#');
    assert(s@.take(s@.len() as int) =~= s@);
    let b = first_index(s, a, '?');
    let head = slice_subrange(s, 0, b);
    assert(head@ =~= s@.take(b as int));
    let (lo, hi) = trim_bounds(head);
    let path = slice_subrange(head, lo, hi);
    if is_relative_md_ref(path) {
        Some(string_of_range(head, lo, hi))
    } else {
        None
    }
}

/// Exec form of [`backtick_path_spec`].
pub fn backtick_path(text: &str) -> (out: Option<String>)
    ensures
        match backtick_path_spec(text@) {
            Some(p) => out is Some && out->0@ == p,
            None => out is None,
        },
{
    let v = chars_of(text);
    let s = v.as_slice();
    let (lo, hi) = trim_bounds(s);
    let t = slice_subrange(s, lo, hi);
    if contains_char(t, '/') && is_relative_md_ref(t) {
        Some(string_of_range(s, lo, hi))
    } else {
        None
    }
}

impl View for PathRef {
    type V = (Seq<char>, int, bool);

    open spec fn view(&self) -> (Seq<char>, int, bool) {
        (self.target@, self.line as int, self.code)
    }
}

/// The path references among the first `n` events, in order.
pub open spec fn path_refs_upto(
    events: Seq<MdEventV>,
    n: int,
    b: Seq<u8>,
    start_line: int,
) -> Seq<(Seq<char>, int, bool)>
    decreases n,
{
    if n <= 0 {
        Seq::empty()
    } else {
        let prev = path_refs_upto(events, n - 1, b, start_line);
        match events[n - 1] {
            MdEventV::LinkStart(st, dest) => match file_link_spec(dest) {
                Some(t) => prev.push((t, start_line + count_newlines(b, st as int), false)),
                None => prev,
            },
            MdEventV::Code(st, _, text) => match backtick_path_spec(text) {
                Some(t) => prev.push((t, start_line + count_newlines(b, st as int), true)),
                None => prev,
            },
            _ => prev,
        }
    }
}

/// Every non-wikilink file reference of `body`: markdown `[text](dest)` links (note-relative)
/// and backticked `*.md` path tokens (vault-root-relative), with 1-based lines.
pub open spec fn path_refs_spec(body: Seq<char>, start_line: int) -> Seq<(Seq<char>, int, bool)> {
    path_refs_in(body, markdown_events(body), start_line)
}

/// The file references of `body` given its markdown `events`.
pub open spec fn path_refs_in(body: Seq<char>, events: Seq<MdEventV>, start_line: int) -> Seq<
    (Seq<char>, int, bool),
> {
    path_refs_upto(events, events.len() as int, encode_utf8(body), start_line)
}

/// Extract non-wikilink file references: markdown `[text](dest)` links and backticked `*.md`
/// path tokens. HTTP(S) / mailto / anchor links and percent-encoded paths are skipped.
pub fn extract_path_refs(body: &str, body_start_line: usize) -> (out: Vec<PathRef>)
    requires
        body_start_line + encode_utf8(body@).len() <= usize::MAX,
    ensures
        out@.map_values(|r: PathRef| r@) == path_refs_spec(body@, body_start_line as int),
{
    let events = md_events(body);
    extract_path_refs_from_events(body, body_start_line, events.as_slice())
}

/// [`extract_path_refs`] on the markdown `events` of `body`, whose offsets lie in the body.
pub fn extract_path_refs_from_events(body: &str, body_start_line: usize, events: &[MdEvent]) -> (out:
    Vec<PathRef>)
    requires
        body_start_line + encode_utf8(body@).len() <= usize::MAX,
        forall|i: int|
            0 <= i < events@.len() ==> event_in_bounds(
                #[trigger] events@[i]@,
                encode_utf8(body@).len() as int,
            ),
    ensures
        out@.map_values(|r: PathRef| r@) == path_refs_in(
            body@,
            events@.map_values(|e: MdEvent| e@),
            body_start_line as int,
        ),
{
    let b = body.as_bytes();
    let ghost ev = events@.map_values(|e: MdEvent| e@);
    let mut refs: Vec<PathRef> = Vec::new();
    let mut i: usize = 0;
    while i < events.len()
        invariant
            i <= events.len(),
            b@ == encode_utf8(body@),
            ev == events@.map_values(|e: MdEvent| e@),
            body_start_line + b@.len() <= usize::MAX,
            forall|k: int|
                0 <= k < events@.len() ==> event_in_bounds(#[trigger] events@[k]@, b@.len() as int),
            refs@.map_values(|r: PathRef| r@) == path_refs_upto(
                ev,
                i as int,
                b@,
                body_start_line as int,
            ),
        decreases events.len() - i,
    {
        assert(ev[i as int] == events@[i as int]@);
        assert(event_in_bounds(events@[i as int]@, b@.len() as int));
        let ghost prev = refs@;
        let found = match &events[i] {
            MdEvent::LinkStart(st, dest) => match file_link(dest.as_str()) {
                Some(t) => Some((t, *st, false)),
                None => None,
            },
            MdEvent::Code(st, _, text) => match backtick_path(text.as_str()) {
                Some(t) => Some((t, *st, true)),
                None => None,
            },
            _ => None,
        };
        match found {
            Some((target, st, code)) => {
                let nl = count_newlines_exec(b, st);
                proof {
                    lemma_count_newlines_bound(b@, st as int);
                }
                refs.push(PathRef { target, line: body_start_line + nl, code });
                assert(refs@.map_values(|r: PathRef| r@) =~= prev.map_values(|r: PathRef| r@).push(
                    refs@[prev.len() as int]@,
                ));
            },
            None => {},
        }
        i += 1;
    }
    refs
}

} // verus!

verus! {

// ---------------------------------------------------------------------------------------------
// Planned names (gap-section list items)
// ---------------------------------------------------------------------------------------------

/// The text kept by [`strip_parens`] and the open-paren depth after reading `s`.
pub open spec fn paren_state(s: Seq<char>) -> (Seq<char>, nat)
    decreases s.len(),
{
    if s.len() == 0 {
        (Seq::empty(), 0)
    } else {
        let (out, d) = paren_state(s.drop_last());
        let c = s.last();
        if c == '(' || c == '（' {
            (out, d + 1)
        } else if c == ')' || c == '）' {
            (
                out,
                if d > 0 {
                    (d - 1) as nat
                } else {
                    0
                },
            )
        } else if d == 0 {
            (out.push(c), d)
        } else {
            (out, d)
        }
    }
}

/// `s` without its parenthesized annotations (ASCII and full-width; an unmatched `)` is ignored).
pub open spec fn strip_parens_spec(s: Seq<char>) -> Seq<char> {
    paren_state(s).0
}

/// The pieces of `s` between occurrences of `c`.
pub open spec fn split_on(s: Seq<char>, c: char) -> Seq<Seq<char>>
    decreases s.len(),
{
    if s.len() == 0 {
        seq![Seq::empty()]
    } else {
        let prev = split_on(s.drop_last(), c);
        if s.last() == c {
            prev.push(Seq::empty())
        } else {
            prev.update(prev.len() - 1, prev.last().push(s.last()))
        }
    }
}

/// The first position `i >= start` where `pat` occurs in `s`.
pub open spec fn find_from(s: Seq<char>, pat: Seq<char>, start: int) -> Option<int>
    decreases s.len() + 1 - start,
{
    if start < 0 || start > s.len() || start + pat.len() > s.len() {
        None
    } else if crate::text::matches_at(s, pat, start) {
        Some(start)
    } else {
        find_from(s, pat, start + 1)
    }
}

/// The pieces of `s[start..]` between non-overlapping occurrences of the non-empty `pat`, left
/// to right (what `str::split` with a string pattern yields).
pub open spec fn split_seq_from(s: Seq<char>, pat: Seq<char>, start: int) -> Seq<Seq<char>>
    decreases s.len() - start,
{
    match find_from(s, pat, start) {
        Some(i) => if pat.len() > 0 && start <= i && i + pat.len() <= s.len() {
            seq![s.subrange(start, i)] + split_seq_from(s, pat, i + pat.len())
        } else {
            seq![s.skip(start)]
        },
        None => seq![s.skip(start)],
    }
}

/// Every piece of `ps`, each split on `pat`, in order.
pub open spec fn split_all(ps: Seq<Seq<char>>, pat: Seq<char>) -> Seq<Seq<char>>
    decreases ps.len(),
{
    if ps.len() == 0 {
        Seq::empty()
    } else {
        split_all(ps.drop_last(), pat) + split_seq_from(ps.last(), pat, 0)
    }
}

/// The trimmed pieces of `ps` that are not empty.
pub open spec fn trimmed_nonempty(ps: Seq<Seq<char>>) -> Seq<Seq<char>>
    decreases ps.len(),
{
    if ps.len() == 0 {
        Seq::empty()
    } else {
        let prev = trimmed_nonempty(ps.drop_last());
        let t = trim(ps.last());
        if t.len() > 0 {
            prev.push(t)
        } else {
            prev
        }
    }
}

/// The concept names of one gap-list entry: annotations dropped, split on `、` and ` / `,
/// trimmed, empty pieces dropped.
pub open spec fn planned_names_of(entry: Seq<char>) -> Seq<Seq<char>> {
    trimmed_nonempty(split_all(split_on(strip_parens_spec(entry), '、'), seq![' ', '/', ' ']))
}

/// Remove parenthesized annotations (ASCII and full-width) from a gap-list entry.
pub fn strip_parens(s: &str) -> (out: String)
    ensures
        out@ == strip_parens_spec(s@),
{
    let v = chars_of(s);
    let mut out: Vec<char> = Vec::new();
    let mut depth: usize = 0;
    let mut i: usize = 0;
    assert(v@.take(0) =~= Seq::<char>::empty());
    while i < v.len()
        invariant
            i <= v@.len(),
            v@ == s@,
            depth <= i,
            paren_state(v@.take(i as int)) == (out@, depth as nat),
        decreases v.len() - i,
    {
        assert(v@.take(i + 1).drop_last() =~= v@.take(i as int));
        let c = v[i];
        if c == '(' || c == '（' {
            depth += 1;
        } else if c == ')' || c == '）' {
            if depth > 0 {
                depth -= 1;
            }
        } else if depth == 0 {
            out.push(c);
        }
        i += 1;
    }
    assert(v@.take(v@.len() as int) =~= v@);
    crate::text::string_of(out.as_slice())
}

/// The pieces of `s` between occurrences of `c`.
fn split_on_char(s: &str, c: char) -> (out: Vec<String>)
    ensures
        crate::text::string_views(out@) == split_on(s@, c),
{
    let v = chars_of(s);
    let mut parts: Vec<String> = Vec::new();
    let mut cur: Vec<char> = Vec::new();
    let mut i: usize = 0;
    assert(v@.take(0) =~= Seq::<char>::empty());
    while i < v.len()
        invariant
            i <= v.len(),
            v@ == s@,
            crate::text::string_views(parts@).push(cur@) == split_on(v@.take(i as int), c),
        decreases v.len() - i,
    {
        let ghost prev_parts = crate::text::string_views(parts@);
        let ghost prev_cur = cur@;
        assert(v@.take(i + 1).drop_last() =~= v@.take(i as int));
        if v[i] == c {
            let piece = crate::text::string_of(cur.as_slice());
            parts.push(piece);
            cur = Vec::new();
            assert(crate::text::string_views(parts@) =~= prev_parts.push(prev_cur));
            assert(crate::text::string_views(parts@).push(cur@) =~= split_on(v@.take(i + 1), c));
        } else {
            cur.push(v[i]);
            assert(crate::text::string_views(parts@).push(cur@) =~= prev_parts.push(prev_cur).update(
                prev_parts.len() as int,
                prev_cur.push(v@[i as int]),
            ));
        }
        i += 1;
    }
    let ghost prev_parts = crate::text::string_views(parts@);
    let last = crate::text::string_of(cur.as_slice());
    parts.push(last);
    assert(v@.take(v@.len() as int) =~= v@);
    assert(crate::text::string_views(parts@) =~= prev_parts.push(cur@));
    parts
}

/// The first position `i >= start` where `p` occurs in `v`.
fn find_chars_from(v: &[char], p: &[char], start: usize) -> (r: Option<usize>)
    requires
        start <= v@.len(),
        p@.len() > 0,
    ensures
        match find_from(v@, p@, start as int) {
            Some(i) => r == Some(i as usize),
            None => r is None,
        },
{
    let mut i: usize = start;
    while i < v.len() && p.len() <= v.len() - i
        invariant
            start <= i,
            i <= v@.len(),
            p@.len() > 0,
            find_from(v@, p@, start as int) == find_from(v@, p@, i as int),
        decreases v.len() - i,
    {
        if crate::text::chars_match_at(v, p, i) {
            return Some(i);
        }
        i += 1;
    }
    None
}

proof fn lemma_find_from_bounds(s: Seq<char>, pat: Seq<char>, start: int)
    ensures
        match find_from(s, pat, start) {
            Some(i) => start <= i && i + pat.len() <= s.len(),
            None => true,
        },
    decreases s.len() + 1 - start,
{
    if !(start < 0 || start > s.len() || start + pat.len() > s.len()) && !crate::text::matches_at(
        s,
        pat,
        start,
    ) {
        lemma_find_from_bounds(s, pat, start + 1);
    }
}

/// Append the pieces of `s` between non-overlapping occurrences of `p` (non-empty) to `out`.
fn push_split_seq(s: &str, p: &[char], out: &mut Vec<String>)
    requires
        p@.len() > 0,
    ensures
        crate::text::string_views(final(out)@) == crate::text::string_views(old(out)@)
            + split_seq_from(s@, p@, 0),
{
    let v = chars_of(s);
    let ghost base = crate::text::string_views(out@);
    let mut start: usize = 0;
    loop
        invariant
            start <= v@.len(),
            v@ == s@,
            p@.len() > 0,
            base == crate::text::string_views(old(out)@),
            crate::text::string_views(out@) + split_seq_from(v@, p@, start as int) == base
                + split_seq_from(v@, p@, 0),
        decreases v.len() - start,
    {
        proof {
            lemma_find_from_bounds(v@, p@, start as int);
        }
        let ghost before = crate::text::string_views(out@);
        match find_chars_from(v.as_slice(), p, start) {
            Some(i) => {
                let piece = string_of_range(v.as_slice(), start, i);
                out.push(piece);
                assert(crate::text::string_views(out@) =~= before.push(v@.subrange(
                    start as int,
                    i as int,
                )));
                assert(crate::text::string_views(out@) + split_seq_from(v@, p@, (i + p.len()) as int)
                    =~= before + split_seq_from(v@, p@, start as int));
                start = i + p.len();
            },
            None => {
                let piece = string_of_range(v.as_slice(), start, v.len());
                out.push(piece);
                assert(v@.subrange(start as int, v@.len() as int) =~= v@.skip(start as int));
                assert(crate::text::string_views(out@) =~= before + split_seq_from(
                    v@,
                    p@,
                    start as int,
                ));
                return ;
            },
        }
    }
}

/// Split one gap-list entry into concept names: drop `(...)` / `（...）` annotations, then split
/// on the enumeration comma `、` and ` / `.
pub fn push_planned_names(entry: &str, out: &mut Vec<String>)
    ensures
        crate::text::string_views(final(out)@) == crate::text::string_views(old(out)@)
            + planned_names_of(entry@),
{
    let stripped = strip_parens(entry);
    let commas = split_on_char(stripped.as_str(), '、');
    let sep = [' ', '/', ' '];
    assert(sep@ =~= seq![' ', '/', ' ']);
    let mut pieces: Vec<String> = Vec::new();
    let ghost cv = crate::text::string_views(commas@);
    let mut i: usize = 0;
    assert(cv.take(0) =~= Seq::<Seq<char>>::empty());
    while i < commas.len()
        invariant
            i <= commas@.len(),
            cv == crate::text::string_views(commas@),
            sep@ == seq![' ', '/', ' '],
            crate::text::string_views(pieces@) == split_all(cv.take(i as int), sep@),
        decreases commas.len() - i,
    {
        assert(cv.take(i + 1).drop_last() =~= cv.take(i as int));
        push_split_seq(commas[i].as_str(), &sep, &mut pieces);
        i += 1;
    }
    assert(cv.take(commas@.len() as int) =~= cv);
    let ghost base = crate::text::string_views(out@);
    let ghost pv = crate::text::string_views(pieces@);
    let mut k: usize = 0;
    assert(pv.take(0) =~= Seq::<Seq<char>>::empty());
    while k < pieces.len()
        invariant
            k <= pieces@.len(),
            pv == crate::text::string_views(pieces@),
            crate::text::string_views(out@) == base + trimmed_nonempty(pv.take(k as int)),
        decreases pieces.len() - k,
    {
        assert(pv.take(k + 1).drop_last() =~= pv.take(k as int));
        let name = crate::text::trim_str(pieces[k].as_str());
        if name.as_str().unicode_len() > 0 {
            let ghost before = crate::text::string_views(out@);
            out.push(name);
            assert(crate::text::string_views(out@) =~= before.push(trim(pv[k as int])));
        }
        k += 1;
    }
    assert(pv.take(pieces@.len() as int) =~= pv);
}

} // verus!

verus! {

/// The planned-names scan state: the list item being read (if any) and the names so far.
pub struct PlanState {
    pub item: Option<Seq<char>>,
    pub names: Seq<Seq<char>>,
}

/// The names with the pending item's names appended.
pub open spec fn flush(st: PlanState) -> Seq<Seq<char>> {
    match st.item {
        Some(x) => st.names + planned_names_of(x),
        None => st.names,
    }
}

/// Whether a (left-trimmed) line is a list item: `- `, `* ` or `+ `.
pub open spec fn is_item_line(t: Seq<char>) -> bool {
    t.len() >= 2 && (t[0] == '-' || t[0] == '*' || t[0] == '+') && t[1] == ' '
}

/// One line of the scan. In a gap section a list item starts a new entry (flushing the previous
/// one) and an indented non-item line continues it; any other line ends the entry.
pub open spec fn plan_step(st: PlanState, raw: Seq<char>, in_gap: bool) -> PlanState {
    let line = crate::note::trim_end_crlf(raw);
    let trimmed = crate::text::trim_start(line);
    let is_item = is_item_line(trimmed);
    let is_cont = st.item is Some && line.len() > 0 && (line[0] == ' ' || line[0] == '\t')
        && trimmed.len() > 0 && !is_item;
    if in_gap && is_item {
        PlanState { item: Some(trim(trimmed.skip(2))), names: flush(st) }
    } else if in_gap && is_cont {
        PlanState { item: Some(st.item->0 + seq![' '] + trimmed), names: st.names }
    } else {
        PlanState { item: None, names: flush(st) }
    }
}

/// One past the end of the line starting at byte `pos` (after its `\n`, or the end of `b`).
pub open spec fn next_line_end(b: Seq<u8>, pos: int) -> int
    decreases b.len() - pos,
{
    if pos < 0 || pos >= b.len() {
        b.len() as int
    } else if b[pos] == 10 {
        pos + 1
    } else {
        next_line_end(b, pos + 1)
    }
}

proof fn lemma_next_line_end(b: Seq<u8>, pos: int)
    requires
        0 <= pos < b.len(),
    ensures
        pos < next_line_end(b, pos) <= b.len(),
        next_line_end(b, pos) == b.len() || b[next_line_end(b, pos) - 1] == 10,
        forall|k: int| pos <= k < next_line_end(b, pos) - 1 ==> b[k] != 10,
    decreases b.len() - pos,
{
    if b[pos] == 10 {
    } else if pos + 1 >= b.len() {
        assert(next_line_end(b, pos + 1) == b.len());
    } else {
        lemma_next_line_end(b, pos + 1);
    }
}

/// Scan the lines of `b` from byte `pos` (a line start).
pub open spec fn plan_from(
    b: Seq<u8>,
    code: Seq<Zone>,
    heads: Seq<Heading>,
    pos: int,
    st: PlanState,
) -> PlanState
    decreases b.len() - pos,
{
    if pos < 0 || pos >= b.len() {
        st
    } else {
        let e = next_line_end(b, pos);
        let raw = decode_utf8(b.subrange(pos, e));
        let in_gap = in_gap_spec(heads, pos) && !in_zones(code, pos);
        if e <= pos || e > b.len() {
            st
        } else {
            plan_from(b, code, heads, e, plan_step(st, raw, in_gap))
        }
    }
}

/// The planned concept names `body` lists in its gap sections, in order.
pub open spec fn planned_names_spec(body: Seq<char>) -> Seq<Seq<char>> {
    planned_names_in(body, markdown_events(body))
}

/// The planned names of `body` given its markdown `events`.
pub open spec fn planned_names_in(body: Seq<char>, events: Seq<MdEventV>) -> Seq<Seq<char>> {
    let b = encode_utf8(body);
    let (code, heads) = structure_spec(events);
    flush(plan_from(b, code, heads, 0, PlanState { item: None, names: Seq::empty() }))
}

/// The line of `v` without its trailing `\r`/`\n` (`v[..end]`) and, trimmed at the start,
/// `v[start..end]`.
fn line_bounds(v: &[char]) -> (r: (usize, usize))
    ensures
        r.0 <= r.1 <= v@.len(),
        crate::note::trim_end_crlf(v@) == v@.take(r.1 as int),
        crate::text::trim_start(v@.take(r.1 as int)) == v@.subrange(r.0 as int, r.1 as int),
{
    let mut end: usize = v.len();
    assert(v@.take(end as int) =~= v@);
    while end > 0 && (v[end - 1] == '\r' || v[end - 1] == '\n')
        invariant
            end <= v@.len(),
            crate::note::trim_end_crlf(v@) == crate::note::trim_end_crlf(v@.take(end as int)),
        decreases end,
    {
        assert(v@.take(end as int).drop_last() =~= v@.take(end - 1));
        end -= 1;
    }
    let ghost line = v@.take(end as int);
    assert(crate::note::trim_end_crlf(line) == line);
    let mut start: usize = 0;
    while start < end && crate::text::is_whitespace(v[start])
        invariant
            start <= end <= v@.len(),
            line == v@.take(end as int),
            forall|j: int| 0 <= j < start ==> crate::text::is_ws(#[trigger] line[j]),
        decreases end - start,
    {
        start += 1;
    }
    proof {
        crate::text::lemma_trim_start_skip(line, start as int);
        let rest = line.skip(start as int);
        if rest.len() > 0 {
            assert(rest[0] == v@[start as int]);
        }
        assert(crate::text::trim_start(rest) == rest);
        assert(rest =~= v@.subrange(start as int, end as int));
    }
    (start, end)
}

/// Close the pending entry: its names join `names`.
fn flush_item(item: &mut Option<String>, names: &mut Vec<String>)
    ensures
        *final(item) is None,
        crate::text::string_views(final(names)@) == flush(
            PlanState {
                item: crate::model::opt_chars(*old(item)),
                names: crate::text::string_views(old(names)@),
            },
        ),
{
    if let Some(prev) = item.take() {
        push_planned_names(prev.as_str(), names);
    } else {
        assert(crate::text::string_views(names@) =~= crate::text::string_views(names@));
    }
}

/// Apply one line to the scan state.
fn plan_line(item: &mut Option<String>, names: &mut Vec<String>, raw: &str, in_gap: bool)
    ensures
        ({
            let st = plan_step(
                PlanState {
                    item: crate::model::opt_chars(*old(item)),
                    names: crate::text::string_views(old(names)@),
                },
                raw@,
                in_gap,
            );
            crate::model::opt_chars(*final(item)) == st.item && crate::text::string_views(
                final(names)@,
            ) == st.names
        }),
{
    let v = chars_of(raw);
    let (start, end) = line_bounds(v.as_slice());
    let ghost line = v@.take(end as int);
    let ghost trimmed = v@.subrange(start as int, end as int);
    let is_item = end - start >= 2 && (v[start] == '-' || v[start] == '*' || v[start] == '+')
        && v[start + 1] == ' ';
    assert(is_item == is_item_line(trimmed));
    let is_cont = item.is_some() && end > 0 && (v[0] == ' ' || v[0] == '\t') && start < end
        && !is_item;
    if in_gap && is_item {
        flush_item(item, names);
        let rest = string_of_range(v.as_slice(), start + 2, end);
        assert(rest@ =~= trimmed.skip(2));
        *item = Some(crate::text::trim_str(rest.as_str()));
    } else if in_gap && is_cont {
        let tail = string_of_range(v.as_slice(), start, end);
        match item {
            Some(acc) => {
                crate::text::push_char(acc, ' ');
                acc.append(tail.as_str());
            },
            None => {},
        }
    } else {
        flush_item(item, names);
    }
}

/// Extract the planned concept names a gap section lists as plain-text list items. These are
/// tracked forward-references, not broken links. One entry may carry several names separated by
/// `、` or ` / `, with `(...)` notes; a list item may continue on indented following lines.
pub fn extract_planned_names(body: &str) -> (out: Vec<String>)
    ensures
        crate::text::string_views(out@) == planned_names_spec(body@),
{
    let events = md_events(body);
    extract_planned_names_from_events(body, events.as_slice())
}

/// [`extract_planned_names`] on the markdown `events` of `body`.
pub fn extract_planned_names_from_events(body: &str, events: &[MdEvent]) -> (out: Vec<String>)
    ensures
        crate::text::string_views(out@) == planned_names_in(
            body@,
            events@.map_values(|e: MdEvent| e@),
        ),
{
    let b = body.as_bytes();
    let ghost bs = encode_utf8(body@);
    assert(b@ == bs);
    proof {
        encode_utf8_valid_utf8(body@);
        vstd::utf8::is_char_boundary_start_end_of_seq(bs);
    }
    let (code, heads) = structure(events);
    let ghost init = PlanState { item: None, names: Seq::empty() };
    let mut item: Option<String> = None;
    let mut names: Vec<String> = Vec::new();
    let mut pos: usize = 0;
    assert(crate::text::string_views(names@) =~= Seq::<Seq<char>>::empty());
    while pos < b.len()
        invariant
            pos <= bs.len(),
            b@ == bs,
            bs == encode_utf8(body@),
            vstd::utf8::valid_utf8(bs),
            vstd::utf8::is_char_boundary(bs, pos as int),
            (code@, heads@) == structure_spec(events@.map_values(|e: MdEvent| e@)),
            plan_from(bs, code@, heads@, pos as int, PlanState {
                item: crate::model::opt_chars(item),
                names: crate::text::string_views(names@),
            }) == plan_from(bs, code@, heads@, 0, init),
        decreases b.len() - pos,
    {
        let mut e: usize = pos;
        while e < b.len() && b[e] != 10
            invariant
                pos <= e <= bs.len(),
                b@ == bs,
                next_line_end(bs, pos as int) == next_line_end(bs, e as int),
            decreases b.len() - e,
        {
            e += 1;
        }
        if e < b.len() {
            proof {
                lemma_ascii_boundaries(bs, e as int);
            }
            e += 1;
        }
        proof {
            lemma_next_line_end(bs, pos as int);
            vstd::utf8::is_char_boundary_start_end_of_seq(bs);
        }
        assert(e == next_line_end(bs, pos as int));
        assert(vstd::utf8::is_char_boundary(bs, e as int));
        let raw = slice_bytes(body, pos, e);
        let in_gap = in_gap_section(heads.as_slice(), pos) && !any_zone_contains(code.as_slice(), pos);
        plan_line(&mut item, &mut names, raw.as_str(), in_gap);
        pos = e;
    }
    if let Some(prev) = item {
        push_planned_names(prev.as_str(), &mut names);
    }
    names
}

} // verus!
