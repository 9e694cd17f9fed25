//! Character-level text utilities shared by the parsers and the resolver: conversions between
//! `&str`, `String` and `Vec<char>`, Unicode whitespace trimming, lexicographic order, and the two
//! Unicode transformations the resolver relies on (NFC and lowercasing).

use unicode_normalization::UnicodeNormalization;
use vstd::prelude::*;

verus! {

// ---------------------------------------------------------------------------------------------
// Conversions
// ---------------------------------------------------------------------------------------------

/// The characters of `s`, in order.
pub fn chars_of(s: &str) -> (out: Vec<char>)
    ensures
        out@ == s@,
{
    let mut out: Vec<char> = Vec::new();
    for c in it: s.chars()
        invariant
            it.seq() == s@,
            out@ == it.seq().take(it.index() as int),
    {
        out.push(c);
    }
    out
}

/// `String::push`: appends one character.
#[verifier::external_body]
pub(crate) fn push_char(s: &mut String, c: char)
    ensures
        final(s)@ == old(s)@.push(c),
{
    s.push(c);
}

/// A `String` holding exactly the characters of `v`.
pub fn string_of(v: &[char]) -> (out: String)
    ensures
        out@ == v@,
{
    let mut out = String::new();
    let mut i: usize = 0;
    while i < v.len()
        invariant
            i <= v.len(),
            out@ == v@.take(i as int),
        decreases v.len() - i,
    {
        push_char(&mut out, v[i]);
        i += 1;
        assert(v@.take(i as int) == v@.take(i - 1).push(v@[i - 1]));
    }
    assert(v@.take(v.len() as int) == v@);
    out
}

/// A `String` holding the characters `v[from..to]`.
pub fn string_of_range(v: &[char], from: usize, to: usize) -> (out: String)
    requires
        from <= to <= v.len(),
    ensures
        out@ == v@.subrange(from as int, to as int),
{
    let mut out = String::new();
    let mut i: usize = from;
    while i < to
        invariant
            from <= i <= to <= v.len(),
            out@ == v@.subrange(from as int, i as int),
        decreases to - i,
    {
        push_char(&mut out, v[i]);
        i += 1;
        assert(v@.subrange(from as int, i as int) == v@.subrange(from as int, i - 1).push(
            v@[i - 1],
        ));
    }
    out
}

/// A `String` copy of `s`.
pub fn owned(s: &str) -> (out: String)
    ensures
        out@ == s@,
{
    s.to_owned()
}

/// A `String` that is `a` followed by `b`.
pub fn concat(a: &str, b: &str) -> (out: String)
    ensures
        out@ == a@ + b@,
{
    let mut out = a.to_owned();
    out.append(b);
    out
}

/// A `String` that is `a`, `b`, `c` in order.
pub fn concat3(a: &str, b: &str, c: &str) -> (out: String)
    ensures
        out@ == a@ + b@ + c@,
{
    let mut out = a.to_owned();
    out.append(b);
    out.append(c);
    out
}

/// Whether two strings hold the same characters.
pub fn str_eq(a: &str, b: &str) -> (r: bool)
    ensures
        r == (a@ == b@),
{
    let x = chars_of(a);
    let y = chars_of(b);
    chars_eq(x.as_slice(), y.as_slice())
}

/// Whether two character slices are equal.
pub fn chars_eq(x: &[char], y: &[char]) -> (r: bool)
    ensures
        r == (x@ == y@),
{
    if x.len() != y.len() {
        return false;
    }
    let mut i: usize = 0;
    while i < x.len()
        invariant
            x.len() == y.len(),
            i <= x.len(),
            x@.take(i as int) == y@.take(i as int),
        decreases x.len() - i,
    {
        if x[i] != y[i] {
            assert(x@[i as int] != y@[i as int]);
            return false;
        }
        i += 1;
        assert(x@.take(i as int) == x@.take(i - 1).push(x@[i - 1]));
        assert(y@.take(i as int) == y@.take(i - 1).push(y@[i - 1]));
    }
    assert(x@.take(x.len() as int) == x@);
    assert(y@.take(y.len() as int) == y@);
    true
}

// ---------------------------------------------------------------------------------------------
// Decimal numbers
// ---------------------------------------------------------------------------------------------

/// The ASCII digit for `d < 10`.
pub open spec fn digit_char(d: nat) -> char {
    (48 + d) as char
}

/// The decimal rendering of `n` (what `format!("{n}")` prints).
pub open spec fn decimal(n: nat) -> Seq<char>
    decreases n,
{
    if n < 10 {
        seq![digit_char(n)]
    } else {
        decimal(n / 10).push(digit_char(n % 10))
    }
}

/// `n` in decimal.
pub fn decimal_string(n: usize) -> (out: String)
    ensures
        out@ == decimal(n as nat),
{
    let mut v = n;
    let mut acc: Vec<char> = Vec::new();
    while v >= 10
        invariant
            decimal(n as nat) == decimal(v as nat) + acc@,
        decreases v,
    {
        let d = v % 10;
        let c = ((48 + d) as u8) as char;
        assert(c == digit_char(d as nat));
        let ghost old_acc = acc@;
        acc.insert(0, c);
        assert(decimal(v as nat) == decimal((v / 10) as nat).push(digit_char((v % 10) as nat)));
        assert(decimal((v / 10) as nat) + acc@ =~= decimal((v / 10) as nat).push(c) + old_acc);
        v = v / 10;
    }
    let c = ((48 + v) as u8) as char;
    acc.insert(0, c);
    assert(acc@ =~= seq![c] + (acc@.subrange(1, acc@.len() as int)));
    assert(decimal(v as nat) + acc@.subrange(1, acc@.len() as int) =~= acc@);
    string_of(acc.as_slice())
}

// ---------------------------------------------------------------------------------------------
// Prefixes, suffixes, search
// ---------------------------------------------------------------------------------------------

/// Whether `s` starts with `p`.
pub open spec fn has_prefix(s: Seq<char>, p: Seq<char>) -> bool {
    p.len() <= s.len() && s.take(p.len() as int) == p
}

/// Whether `s` ends with `p`.
pub open spec fn has_suffix(s: Seq<char>, p: Seq<char>) -> bool {
    p.len() <= s.len() && s.skip(s.len() - p.len()) == p
}

/// Whether `s[at..]` starts with `p`.
pub open spec fn matches_at(s: Seq<char>, p: Seq<char>, at: int) -> bool {
    0 <= at && at + p.len() <= s.len() && s.subrange(at, at + p.len()) == p
}

/// Whether `p` occurs somewhere in `s`.
pub open spec fn contains_seq(s: Seq<char>, p: Seq<char>) -> bool {
    exists|at: int| matches_at(s, p, at)
}

/// Exec check of [`matches_at`].
pub fn chars_match_at(s: &[char], p: &[char], at: usize) -> (r: bool)
    ensures
        r == matches_at(s@, p@, at as int),
{
    if at > s.len() || p.len() > s.len() - at {
        return false;
    }
    let mut i: usize = 0;
    while i < p.len()
        invariant
            at + p.len() <= s.len(),
            i <= p.len(),
            forall|j: int| 0 <= j < i ==> s@[at + j] == p@[j],
        decreases p.len() - i,
    {
        if s[at + i] != p[i] {
            assert(s@.subrange(at as int, at + p.len())[i as int] != p@[i as int]);
            return false;
        }
        i += 1;
    }
    assert(s@.subrange(at as int, at + p.len()) =~= p@);
    true
}

/// Exec check of [`has_prefix`].
pub fn chars_starts_with(s: &[char], p: &[char]) -> (r: bool)
    ensures
        r == has_prefix(s@, p@),
{
    let r = chars_match_at(s, p, 0);
    assert(p@.len() <= s@.len() ==> s@.subrange(0, p@.len() as int) == s@.take(p@.len() as int));
    r
}

/// Exec check of [`has_suffix`].
pub fn chars_ends_with(s: &[char], p: &[char]) -> (r: bool)
    ensures
        r == has_suffix(s@, p@),
{
    if p.len() > s.len() {
        return false;
    }
    let at = s.len() - p.len();
    let r = chars_match_at(s, p, at);
    assert(s@.subrange(at as int, s@.len() as int) == s@.skip(at as int));
    r
}

/// Exec check of [`contains_seq`].
pub fn chars_contains(s: &[char], p: &[char]) -> (r: bool)
    ensures
        r == contains_seq(s@, p@),
{
    let mut at: usize = 0;
    loop
        invariant
            at <= s.len(),
            forall|k: int| 0 <= k < at ==> !matches_at(s@, p@, k),
        ensures
            forall|k: int| 0 <= k <= s.len() ==> !matches_at(s@, p@, k),
        decreases s.len() - at,
    {
        if chars_match_at(s, p, at) {
            return true;
        }
        if at == s.len() {
            break;
        }
        at += 1;
    }
    assert forall|k: int| !matches_at(s@, p@, k) by {
        if 0 <= k <= s.len() {
        }
    }
    false
}

/// Whether `s` starts with `p` (strings).
pub fn str_starts_with(s: &str, p: &str) -> (r: bool)
    ensures
        r == has_prefix(s@, p@),
{
    let a = chars_of(s);
    let b = chars_of(p);
    chars_starts_with(a.as_slice(), b.as_slice())
}

/// Whether `s` contains `p` (strings).
pub fn str_contains(s: &str, p: &str) -> (r: bool)
    ensures
        r == contains_seq(s@, p@),
{
    let a = chars_of(s);
    let b = chars_of(p);
    chars_contains(a.as_slice(), b.as_slice())
}

// ---------------------------------------------------------------------------------------------
// Whitespace and trimming
// ---------------------------------------------------------------------------------------------

/// Unicode `White_Space` (what `char::is_whitespace` and `str::trim` use).
pub open spec fn is_ws(c: char) -> bool {
    ||| ('\t' <= c && c <= '\r')
    ||| c == ' '
    ||| c == '\u{85}'
    ||| c == '\u{a0}'
    ||| c == '\u{1680}'
    ||| ('\u{2000}' <= c && c <= '\u{200a}')
    ||| c == '\u{2028}'
    ||| c == '\u{2029}'
    ||| c == '\u{202f}'
    ||| c == '\u{205f}'
    ||| c == '\u{3000}'
}

/// Exec check of [`is_ws`].
pub fn is_whitespace(c: char) -> (r: bool)
    ensures
        r == is_ws(c),
{
    ('\t' <= c && c <= '\r') || c == ' ' || c == '\u{85}' || c == '\u{a0}' || c == '\u{1680}'
        || ('\u{2000}' <= c && c <= '\u{200a}') || c == '\u{2028}' || c == '\u{2029}' || c
        == '\u{202f}' || c == '\u{205f}' || c == '\u{3000}'
}

/// `s` without its leading whitespace.
pub open spec fn trim_start(s: Seq<char>) -> Seq<char>
    decreases s.len(),
{
    if s.len() > 0 && is_ws(s[0]) {
        trim_start(s.drop_first())
    } else {
        s
    }
}

/// `s` without its trailing whitespace.
pub open spec fn trim_end(s: Seq<char>) -> Seq<char>
    decreases s.len(),
{
    if s.len() > 0 && is_ws(s.last()) {
        trim_end(s.drop_last())
    } else {
        s
    }
}

/// `s` without leading and trailing whitespace (`str::trim`).
pub open spec fn trim(s: Seq<char>) -> Seq<char> {
    trim_end(trim_start(s))
}

pub proof fn lemma_trim_start_skip(s: Seq<char>, i: int)
    requires
        0 <= i <= s.len(),
        forall|j: int| 0 <= j < i ==> is_ws(#[trigger] s[j]),
    ensures
        trim_start(s) == trim_start(s.skip(i)),
    decreases i,
{
    if i > 0 {
        assert(s.drop_first().skip(i - 1) =~= s.skip(i));
        lemma_trim_start_skip(s.drop_first(), i - 1);
    } else {
        assert(s.skip(0) =~= s);
    }
}

proof fn lemma_trim_end_take(s: Seq<char>, i: int)
    requires
        0 <= i <= s.len(),
        forall|j: int| i <= j < s.len() ==> is_ws(#[trigger] s[j]),
    ensures
        trim_end(s) == trim_end(s.take(i)),
    decreases s.len() - i,
{
    if i < s.len() {
        assert(s.drop_last().take(i) =~= s.take(i));
        lemma_trim_end_take(s.drop_last(), i);
    } else {
        assert(s.take(i) =~= s);
    }
}

/// The index range `[lo, hi)` of `v` that survives trimming.
pub fn trim_bounds(v: &[char]) -> (r: (usize, usize))
    ensures
        r.0 <= r.1 <= v.len(),
        v@.subrange(r.0 as int, r.1 as int) == trim(v@),
{
    let mut lo: usize = 0;
    while lo < v.len() && is_whitespace(v[lo])
        invariant
            lo <= v.len(),
            forall|j: int| 0 <= j < lo ==> is_ws(#[trigger] v@[j]),
        decreases v.len() - lo,
    {
        lo += 1;
    }
    proof {
        lemma_trim_start_skip(v@, lo as int);
    }
    let ghost rest = v@.skip(lo as int);
    assert(trim_start(rest) == rest);
    let mut hi: usize = v.len();
    while hi > lo && is_whitespace(v[hi - 1])
        invariant
            lo <= hi <= v.len(),
            forall|j: int| hi <= j < v.len() ==> is_ws(#[trigger] v@[j]),
        decreases hi,
    {
        hi -= 1;
    }
    proof {
        let k = hi - lo;
        assert forall|j: int| k <= j < rest.len() implies is_ws(#[trigger] rest[j]) by {
            assert(rest[j] == v@[lo + j]);
        }
        lemma_trim_end_take(rest, k as int);
        assert(rest.take(k as int) =~= v@.subrange(lo as int, hi as int));
        if hi > lo {
            assert(!is_ws(rest.take(k as int).last()));
        }
    }
    (lo, hi)
}

/// `str::trim` into an owned `String`.
pub fn trim_str(s: &str) -> (out: String)
    ensures
        out@ == trim(s@),
{
    let v = chars_of(s);
    let (lo, hi) = trim_bounds(v.as_slice());
    string_of_range(v.as_slice(), lo, hi)
}

// ---------------------------------------------------------------------------------------------
// Lexicographic order (code-point order; equal to `String`'s byte order under UTF-8)
// ---------------------------------------------------------------------------------------------

/// Strict lexicographic order on character sequences.
pub open spec fn seq_lt(a: Seq<char>, b: Seq<char>) -> bool
    decreases a.len(),
{
    if a.len() == 0 {
        b.len() > 0
    } else if b.len() == 0 {
        false
    } else if a[0] != b[0] {
        a[0] < b[0]
    } else {
        seq_lt(a.drop_first(), b.drop_first())
    }
}

/// Non-strict lexicographic order.
pub open spec fn seq_le(a: Seq<char>, b: Seq<char>) -> bool {
    seq_lt(a, b) || a == b
}

pub proof fn lemma_seq_lt_irreflexive(a: Seq<char>)
    ensures
        !seq_lt(a, a),
    decreases a.len(),
{
    if a.len() > 0 {
        lemma_seq_lt_irreflexive(a.drop_first());
    }
}

pub proof fn lemma_seq_lt_trans(a: Seq<char>, b: Seq<char>, c: Seq<char>)
    requires
        seq_lt(a, b),
        seq_lt(b, c),
    ensures
        seq_lt(a, c),
    decreases a.len(),
{
    if a.len() > 0 && b.len() > 0 && c.len() > 0 {
        if a[0] == b[0] && b[0] == c[0] {
            lemma_seq_lt_trans(a.drop_first(), b.drop_first(), c.drop_first());
        }
    }
}

pub proof fn lemma_seq_lt_total(a: Seq<char>, b: Seq<char>)
    ensures
        seq_lt(a, b) || seq_lt(b, a) || a == b,
    decreases a.len(),
{
    if a.len() > 0 && b.len() > 0 {
        if a[0] == b[0] {
            lemma_seq_lt_total(a.drop_first(), b.drop_first());
            if a.drop_first() == b.drop_first() {
                assert(a =~= seq![a[0]] + a.drop_first());
                assert(b =~= seq![b[0]] + b.drop_first());
            }
        }
    } else if a.len() == 0 && b.len() == 0 {
        assert(a =~= b);
    }
}

pub proof fn lemma_seq_lt_asym(a: Seq<char>, b: Seq<char>)
    ensures
        !(seq_lt(a, b) && seq_lt(b, a)),
{
    if seq_lt(a, b) && seq_lt(b, a) {
        lemma_seq_lt_trans(a, b, a);
        lemma_seq_lt_irreflexive(a);
    }
}

/// Exec check of [`seq_lt`] on character slices.
pub fn chars_lt(a: &[char], b: &[char]) -> (r: bool)
    ensures
        r == seq_lt(a@, b@),
{
    let mut i: usize = 0;
    assert(a@.skip(0) =~= a@ && b@.skip(0) =~= b@);
    while i < a.len() && i < b.len() && a[i] == b[i]
        invariant
            i <= a.len(),
            i <= b.len(),
            seq_lt(a@, b@) == seq_lt(a@.skip(i as int), b@.skip(i as int)),
        decreases a.len() - i,
    {
        proof {
            assert(a@.skip(i as int).drop_first() =~= a@.skip(i + 1));
            assert(b@.skip(i as int).drop_first() =~= b@.skip(i + 1));
        }
        i += 1;
    }
    if i == a.len() {
        i < b.len()
    } else if i == b.len() {
        false
    } else {
        assert(a@.skip(i as int)[0] == a@[i as int]);
        assert(b@.skip(i as int)[0] == b@[i as int]);
        a[i] < b[i]
    }
}

/// Exec check of [`seq_lt`] on strings.
pub fn str_lt(a: &str, b: &str) -> (r: bool)
    ensures
        r == seq_lt(a@, b@),
{
    let x = chars_of(a);
    let y = chars_of(b);
    chars_lt(x.as_slice(), y.as_slice())
}

/// Non-decreasing in code-point lexicographic order.
pub open spec fn sorted_le(s: Seq<Seq<char>>) -> bool {
    forall|i: int, j: int| 0 <= i < j < s.len() ==> !seq_lt(#[trigger] s[j], #[trigger] s[i])
}

/// The character views of a list of strings.
pub open spec fn string_views(v: Seq<String>) -> Seq<Seq<char>> {
    v.map_values(|s: String| s@)
}

proof fn lemma_le_trans(a: Seq<char>, b: Seq<char>, c: Seq<char>)
    ensures
        !seq_lt(b, a) && !seq_lt(c, b) ==> !seq_lt(c, a),
        seq_lt(a, b) ==> !seq_lt(b, a),
{
    lemma_seq_lt_asym(a, b);
    lemma_seq_lt_total(a, b);
    lemma_seq_lt_total(b, c);
    if seq_lt(c, a) {
        if seq_lt(a, b) {
            lemma_seq_lt_trans(c, a, b);
        }
        if seq_lt(b, c) {
            lemma_seq_lt_trans(b, c, a);
        }
    }
}

/// `v` sorted in code-point order (a permutation of it).
pub fn sort_strings(v: Vec<String>) -> (out: Vec<String>)
    ensures
        sorted_le(string_views(out@)),
        string_views(out@).to_multiset() == string_views(v@).to_multiset(),
{
    let mut rest = v;
    let ghost all = string_views(rest@);
    let mut sorted: Vec<String> = Vec::new();
    proof {
        broadcast use vstd::seq_lib::group_to_multiset_ensures;
        broadcast use vstd::multiset::group_multiset_axioms;
        broadcast use vstd::multiset::lemma_multiset_empty_len;

        assert(string_views(sorted@).to_multiset().len() == 0);
        assert(string_views(sorted@).to_multiset() =~= vstd::multiset::Multiset::empty());
        assert(string_views(rest@).to_multiset().add(string_views(sorted@).to_multiset())
            =~= all.to_multiset());
    }
    while rest.len() > 0
        invariant
            sorted_le(string_views(sorted@)),
            string_views(rest@).to_multiset().add(string_views(sorted@).to_multiset())
                == all.to_multiset(),
        decreases rest.len(),
    {
        let ghost before = rest@;
        let x = rest.pop().unwrap();
        proof {
            assert(string_views(before) =~= string_views(rest@).push(x@));
            vstd::seq_lib::to_multiset_build(string_views(rest@), x@);
        }
        let mut p: usize = 0;
        while p < sorted.len() && str_lt(sorted[p].as_str(), x.as_str())
            invariant
                p <= sorted.len(),
                forall|k: int| 0 <= k < p ==> seq_lt(#[trigger] string_views(sorted@)[k], x@),
            decreases sorted.len() - p,
        {
            p += 1;
        }
        let ghost s0 = string_views(sorted@);
        sorted.insert(p, x);
        proof {
            broadcast use vstd::multiset::group_multiset_axioms;

            let s = string_views(sorted@);
            assert(s =~= s0.insert(p as int, x@));
            vstd::seq_lib::to_multiset_insert(s0, p as int, x@);
            assert(string_views(rest@).to_multiset().add(s.to_multiset()) =~= all.to_multiset());
            assert forall|i: int, j: int| 0 <= i < j < s.len() implies !seq_lt(
                #[trigger] s[j],
                #[trigger] s[i],
            ) by {
                if j < p {
                    assert(s[i] == s0[i] && s[j] == s0[j]);
                } else if j == p {
                    assert(s[i] == s0[i]);
                    lemma_le_trans(s0[i], x@, x@);
                } else if i == p {
                    assert(s[j] == s0[j - 1]);
                    if j - 1 > p {
                        assert(!seq_lt(s0[j - 1], s0[p as int]));
                    }
                    lemma_le_trans(x@, s0[p as int], s0[j - 1]);
                } else if i < p {
                    assert(s[i] == s0[i] && s[j] == s0[j - 1]);
                } else {
                    assert(s[i] == s0[i - 1] && s[j] == s0[j - 1]);
                }
            }
        }
    }
    proof {
        broadcast use vstd::seq_lib::group_to_multiset_ensures;
        broadcast use vstd::multiset::group_multiset_axioms;
        broadcast use vstd::multiset::lemma_multiset_empty_len;

        assert(string_views(rest@).to_multiset().len() == 0);
        assert(string_views(rest@).to_multiset() =~= vstd::multiset::Multiset::empty());
        assert(string_views(sorted@).to_multiset() =~= all.to_multiset());
    }
    sorted
}

// ---------------------------------------------------------------------------------------------
// Unicode transformations (outside code)
// ---------------------------------------------------------------------------------------------

/// What `unicode_normalization`'s `nfc()` yields for a character sequence (canonical
/// decomposition followed by canonical composition).
pub uninterp spec fn nfc_of(s: Seq<char>) -> Seq<char>;

/// What `str::to_lowercase` yields for a character sequence (the Unicode lowercase mapping).
pub uninterp spec fn lowercase_of(s: Seq<char>) -> Seq<char>;

/// Calls `UnicodeNormalization::nfc` on `s` and collects the characters. The contract claims only
/// that the result is a function of the input characters; the normalization tables are not stated.
#[verifier::external_body]
pub(crate) fn nfc(s: &str) -> (out: String)
    ensures
        out@ == nfc_of(s@),
{
    s.nfc().collect()
}

/// Calls `str::to_lowercase`. The contract claims only that the result is a function of the input
/// characters; the Unicode case tables are not stated.
#[verifier::external_body]
pub(crate) fn to_lowercase(s: &str) -> (out: String)
    ensures
        out@ == lowercase_of(s@),
{
    s.to_lowercase()
}

} // verus!
