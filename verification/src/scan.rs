//! Byte-level scanning of a markdown body: `[[...]]` pairs, Obsidian `%%` comment zones, newline
//! counts, and half-open byte zones. Offsets are UTF-8 byte offsets, the same unit the markdown
//! tokenizer reports; the delimiters are ASCII, so they never fall inside a multi-byte character.

use vstd::prelude::*;

verus! {

/// A half-open byte range `[start, end)`.
pub type Zone = (usize, usize);

/// Whether `x` lies in some zone of `zones`.
pub open spec fn in_zones(zones: Seq<Zone>, x: int) -> bool {
    exists|i: int| 0 <= i < zones.len() && #[trigger] zones[i].0 <= x && x < zones[i].1
}

/// Exec check of [`in_zones`].
pub fn any_zone_contains(zones: &[Zone], x: usize) -> (r: bool)
    ensures
        r == in_zones(zones@, x as int),
{
    let mut i: usize = 0;
    while i < zones.len()
        invariant
            i <= zones.len(),
            forall|j: int| 0 <= j < i ==> !(#[trigger] zones@[j].0 <= x && x < zones@[j].1),
        decreases zones.len() - i,
    {
        if zones[i].0 <= x && x < zones[i].1 {
            return true;
        }
        i += 1;
    }
    false
}

/// The first position `j >= from` with `b[j] == x` and `b[j + 1] == y`.
pub open spec fn find_pair(b: Seq<u8>, x: u8, y: u8, from: int) -> Option<int>
    decreases b.len() - from,
{
    if from < 0 || from + 2 > b.len() {
        None
    } else if b[from] == x && b[from + 1] == y {
        Some(from)
    } else {
        find_pair(b, x, y, from + 1)
    }
}

pub proof fn lemma_find_pair_bounds(b: Seq<u8>, x: u8, y: u8, from: int)
    ensures
        match find_pair(b, x, y, from) {
            Some(j) => from <= j && j + 2 <= b.len() && b[j] == x && b[j + 1] == y,
            None => true,
        },
    decreases b.len() - from,
{
    if 0 <= from && from + 2 <= b.len() && !(b[from] == x && b[from + 1] == y) {
        lemma_find_pair_bounds(b, x, y, from + 1);
    }
}

/// Exec form of [`find_pair`].
pub fn find_pair_exec(b: &[u8], x: u8, y: u8, from: usize) -> (r: Option<usize>)
    ensures
        match find_pair(b@, x, y, from as int) {
            Some(j) => r == Some(j as usize),
            None => r is None,
        },
{
    let mut j = from;
    while j < b.len() && j + 1 < b.len()
        invariant
            from <= j,
            find_pair(b@, x, y, from as int) == find_pair(b@, x, y, j as int),
        decreases b.len() - j,
    {
        if b[j] == x && b[j + 1] == y {
            return Some(j);
        }
        j += 1;
    }
    None
}

/// Whether `b[lo..hi]` holds a newline.
pub open spec fn has_newline(b: Seq<u8>, lo: int, hi: int) -> bool {
    exists|k: int| lo <= k < hi && #[trigger] b[k] == 10u8
}

fn has_newline_exec(b: &[u8], lo: usize, hi: usize) -> (r: bool)
    requires
        lo <= hi <= b.len(),
    ensures
        r == has_newline(b@, lo as int, hi as int),
{
    let mut k = lo;
    while k < hi
        invariant
            lo <= k <= hi <= b.len(),
            forall|j: int| lo <= j < k ==> #[trigger] b@[j] != 10u8,
        decreases hi - k,
    {
        if b[k] == 10u8 {
            return true;
        }
        k += 1;
    }
    false
}

/// A raw `[[...]]` occurrence: byte offset of the `[[`, and the inner text's byte range.
pub type Span = (usize, usize, usize);

/// Every `[[...]]` pair at or after `from`: the next `[[`, then the first `]]` after it. A pair
/// whose inner text spans a newline is not a wikilink; an unclosed `[[` ends the scan.
pub open spec fn raw_spans_from(b: Seq<u8>, from: int) -> Seq<Span>
    decreases b.len() - from,
    when 0 <= from
{
    match find_pair(b, 91u8, 91u8, from) {
        None => Seq::empty(),
        Some(open) => {
            proof {
                lemma_find_pair_bounds(b, 91u8, 91u8, from);
                lemma_find_pair_bounds(b, 93u8, 93u8, open + 2);
            }
            match find_pair(b, 93u8, 93u8, open + 2) {
                None => Seq::empty(),
                Some(close) => {
                    let rest = raw_spans_from(b, close + 2);
                    if has_newline(b, open + 2, close) {
                        rest
                    } else {
                        seq![(open as usize, (open + 2) as usize, close as usize)] + rest
                    }
                },
            }
        },
    }
}

/// Every `[[...]]` pair in `b`, in order.
pub open spec fn raw_spans(b: Seq<u8>) -> Seq<Span> {
    raw_spans_from(b, 0)
}

/// Exec form of [`raw_spans`].
pub fn raw_spans_exec(b: &[u8]) -> (out: Vec<Span>)
    ensures
        out@ == raw_spans(b@),
        forall|i: int|
            0 <= i < out@.len() ==> {
                let (o, s, e) = #[trigger] out@[i];
                o + 2 == s && s <= e && e + 2 <= b@.len() && b@[o as int] == 91u8 && b@[o + 1]
                    == 91u8 && b@[e as int] == 93u8 && b@[e + 1] == 93u8
            },
{
    let mut out: Vec<Span> = Vec::new();
    let mut i: usize = 0;
    loop
        invariant
            i <= b.len(),
            raw_spans(b@) == out@ + raw_spans_from(b@, i as int),
            forall|k: int|
                0 <= k < out@.len() ==> {
                    let (o, s, e) = #[trigger] out@[k];
                    o + 2 == s && s <= e && e + 2 <= b@.len() && b@[o as int] == 91u8 && b@[o
                        + 1] == 91u8 && b@[e as int] == 93u8 && b@[e + 1] == 93u8
                },
        decreases b.len() - i,
    {
        proof {
            lemma_find_pair_bounds(b@, 91u8, 91u8, i as int);
        }
        let open = match find_pair_exec(b, 91u8, 91u8, i) {
            None => {
                assert(raw_spans_from(b@, i as int) =~= Seq::<Span>::empty());
                assert(out@ + Seq::<Span>::empty() =~= out@);
                return out;
            },
            Some(o) => o,
        };
        proof {
            lemma_find_pair_bounds(b@, 93u8, 93u8, open + 2);
        }
        let close = match find_pair_exec(b, 93u8, 93u8, open + 2) {
            None => {
                assert(raw_spans_from(b@, i as int) =~= Seq::<Span>::empty());
                assert(out@ + Seq::<Span>::empty() =~= out@);
                return out;
            },
            Some(c) => c,
        };
        if !has_newline_exec(b, open + 2, close) {
            let ghost prev = out@;
            out.push((open, open + 2, close));
            assert(prev + (seq![(open, (open + 2) as usize, close)] + raw_spans_from(
                b@,
                close + 2,
            )) =~= out@ + raw_spans_from(b@, close + 2));
        }
        i = close + 2;
    }
}

/// Non-overlapping `%%` positions at or after `from`, left to right.
pub open spec fn percent_marks_from(b: Seq<u8>, from: int) -> Seq<int>
    decreases b.len() - from,
    when 0 <= from
{
    match find_pair(b, 37u8, 37u8, from) {
        None => Seq::empty(),
        Some(j) => {
            proof {
                lemma_find_pair_bounds(b, 37u8, 37u8, from);
            }
            seq![j] + percent_marks_from(b, j + 2)
        },
    }
}

/// `marks` without those inside a zone, keeping order.
pub open spec fn outside_zones(marks: Seq<int>, zones: Seq<Zone>) -> Seq<int>
    decreases marks.len(),
{
    if marks.len() == 0 {
        marks
    } else if in_zones(zones, marks.last()) {
        outside_zones(marks.drop_last(), zones)
    } else {
        outside_zones(marks.drop_last(), zones).push(marks.last())
    }
}

/// Consecutive marks paired into `[first, second + 2)` zones; an unpaired trailing mark is dropped.
pub open spec fn pair_marks(marks: Seq<int>) -> Seq<Zone> {
    Seq::new(
        marks.len() / 2,
        |i: int| (marks[2 * i] as usize, (marks[2 * i + 1] + 2) as usize),
    )
}

/// Byte ranges of Obsidian `%%...%%` comments. `%%` inside code is ignored first (a stray `%%` in
/// a code sample must not shift the pairing of real comments); the remaining `%%` are paired in
/// order and an unpaired trailing one is dropped.
pub open spec fn comment_zones_spec(b: Seq<u8>, code: Seq<Zone>) -> Seq<Zone> {
    pair_marks(outside_zones(percent_marks_from(b, 0), code))
}

/// Exec form of [`comment_zones_spec`].
pub fn comment_zones_bytes(b: &[u8], code: &[Zone]) -> (out: Vec<Zone>)
    ensures
        out@ == comment_zones_spec(b@, code@),
{
    // Collect the `%%` marks outside code.
    let mut marks: Vec<usize> = Vec::new();
    let mut i: usize = 0;
    let ghost all = percent_marks_from(b@, 0);
    let ghost mut seen: Seq<int> = Seq::empty();
    loop
        invariant
            i <= b.len(),
            all == percent_marks_from(b@, 0),
            all == seen + percent_marks_from(b@, i as int),
            marks@.map_values(|m: usize| m as int) == outside_zones(seen, code@),
            forall|k: int| 0 <= k < marks@.len() ==> #[trigger] marks@[k] + 2 <= b@.len(),
        ensures
            all == seen,
            marks@.map_values(|m: usize| m as int) == outside_zones(seen, code@),
            forall|k: int| 0 <= k < marks@.len() ==> #[trigger] marks@[k] + 2 <= b@.len(),
        decreases b.len() - i,
    {
        proof {
            lemma_find_pair_bounds(b@, 37u8, 37u8, i as int);
        }
        match find_pair_exec(b, 37u8, 37u8, i) {
            None => {
                assert(seen + percent_marks_from(b@, i as int) =~= seen);
                break ;
            },
            Some(j) => {
                let inside = any_zone_contains(code, j);
                proof {
                    let s2 = seen.push(j as int);
                    assert(s2.drop_last() =~= seen);
                    assert(seen + (seq![j as int] + percent_marks_from(b@, j + 2)) =~= s2
                        + percent_marks_from(b@, j + 2));
                    seen = s2;
                }
                if !inside {
                    marks.push(j);
                    assert(marks@.map_values(|m: usize| m as int) =~= outside_zones(
                        seen.drop_last(),
                        code@,
                    ).push(j as int));
                }
                i = j + 2;
            },
        }
    }
    // Pair them up.
    let ghost ms = outside_zones(all, code@);
    assert(marks@.map_values(|m: usize| m as int) == ms);
    let mut out: Vec<Zone> = Vec::new();
    let mut p: usize = 0;
    while p + 1 < marks.len()
        invariant
            marks@.map_values(|m: usize| m as int) == ms,
            p % 2 == 0,
            p <= marks.len(),
            out@ == pair_marks(ms).take(p as int / 2),
            forall|k: int| 0 <= k < marks@.len() ==> #[trigger] marks@[k] + 2 <= b@.len(),
        decreases marks.len() - p,
    {
        let m1 = marks[p + 1];
        assert(m1 + 2 <= b.len());
        assert(marks@[p + 1] as int == ms[p + 1]);
        assert(marks@[p as int] as int == ms[p as int]);
        out.push((marks[p], m1 + 2));
        p += 2;
        assert(out@ =~= pair_marks(ms).take(p as int / 2));
    }
    assert(pair_marks(ms).take(p as int / 2) =~= pair_marks(ms));
    out
}

/// Number of newlines in `b[..n]`.
pub open spec fn count_newlines(b: Seq<u8>, n: int) -> int
    decreases n,
{
    if n <= 0 {
        0
    } else if b[n - 1] == 10u8 {
        count_newlines(b, n - 1) + 1
    } else {
        count_newlines(b, n - 1)
    }
}

pub proof fn lemma_count_newlines_bound(b: Seq<u8>, n: int)
    requires
        0 <= n,
    ensures
        0 <= count_newlines(b, n) <= n,
    decreases n,
{
    if n > 0 {
        lemma_count_newlines_bound(b, n - 1);
    }
}

/// Exec form of [`count_newlines`].
pub fn count_newlines_exec(b: &[u8], n: usize) -> (r: usize)
    requires
        n <= b.len(),
    ensures
        r == count_newlines(b@, n as int),
{
    let mut c: usize = 0;
    let mut k: usize = 0;
    while k < n
        invariant
            k <= n <= b.len(),
            c == count_newlines(b@, k as int),
            c <= k,
        decreases n - k,
    {
        if b[k] == 10u8 {
            c += 1;
        }
        k += 1;
    }
    c
}

} // verus!
