//! Core types: `Note` (a corpus node), `Finding` (a diagnostic), `Severity`, and the stable
//! finding fingerprint. These define the shape of the output contract.

use vstd::prelude::*;

verus! {

/// Severity of one diagnostic. Mirrors the 0/1/2 exit-code model.
#[derive(Debug, Clone, Copy, PartialEq, Eq, PartialOrd, Ord, Hash, Structural)]
pub enum Severity {
    /// Listed gaps, forward-references, formatting hints: never gates.
    Info,
    /// Unlisted broken links, collisions: advisory (some may gate).
    Warn,
    /// Schema/enum violations: gates.
    Error,
}

/// The lowercase name of a severity (its rendering in every output format).
pub open spec fn severity_label(s: Severity) -> Seq<char> {
    match s {
        Severity::Info => seq!['i', 'n', 'f', 'o'],
        Severity::Warn => seq!['w', 'a', 'r', 'n'],
        Severity::Error => seq!['e', 'r', 'r', 'o', 'r'],
    }
}

impl Severity {
    /// Position in the order `Info < Warn < Error`.
    pub open spec fn rank(self) -> int {
        match self {
            Severity::Info => 0,
            Severity::Warn => 1,
            Severity::Error => 2,
        }
    }

    /// Exec form of [`Severity::rank`].
    pub fn level(&self) -> (r: u8)
        ensures
            r == self.rank(),
    {
        match self {
            Severity::Info => 0,
            Severity::Warn => 1,
            Severity::Error => 2,
        }
    }

    /// Whether `self` is at least `other` in the order `Info < Warn < Error`.
    pub fn at_least(&self, other: &Severity) -> (r: bool)
        ensures
            r == (self.rank() >= other.rank()),
    {
        self.level() >= other.level()
    }

    /// The lowercase name (`info` / `warn` / `error`).
    pub fn as_str(&self) -> (r: &'static str)
        ensures
            r@ == severity_label(*self),
    {
        match self {
            Severity::Info => {
                proof {
                    reveal_strlit("info");
                }
                "info"
            },
            Severity::Warn => {
                proof {
                    reveal_strlit("warn");
                }
                "warn"
            },
            Severity::Error => {
                proof {
                    reveal_strlit("error");
                }
                "error"
            },
        }
    }
}

/// One frontmatter value, as the checks read it.
#[derive(Debug, Clone)]
pub enum FmValue {
    /// A string scalar.
    Str(String),
    /// A sequence; only its string items are kept.
    List(Vec<String>),
    /// An explicit null (`key:` with no value, `~`, `null`).
    Null,
    /// Any other value (number, boolean, mapping, alias).
    Other,
}

impl FmValue {
    /// The string scalar, if this is one.
    pub fn as_scalar(&self) -> (r: Option<&String>)
        ensures
            match self {
                FmValue::Str(s) => r == Some(s),
                _ => r is None,
            },
    {
        match self {
            FmValue::Str(s) => Some(s),
            _ => None,
        }
    }

    /// Whether the value counts as "filled in" for a required field.
    pub open spec fn present(&self) -> bool {
        match self {
            FmValue::Str(s) => s@.len() > 0,
            FmValue::List(v) => v@.len() > 0,
            FmValue::Null => false,
            FmValue::Other => true,
        }
    }

    /// Exec form of [`FmValue::present`].
    pub fn is_present(&self) -> (r: bool)
        ensures
            r == self.present(),
    {
        match self {
            FmValue::Str(s) => s.as_str().unicode_len() > 0,
            FmValue::List(v) => v.len() > 0,
            FmValue::Null => false,
            FmValue::Other => true,
        }
    }
}

/// A `[[target|display]]` link in a body.
#[derive(Debug, Clone)]
pub struct WikiLink {
    /// The target text inside `[[...]]` after stripping `#`/`|`/`^`.
    pub target: String,
    /// 1-based line where the link appears.
    pub line: usize,
    /// Whether it sits under a heading whose text contains a gap marker (a planned
    /// forward-reference).
    pub under_gap_heading: bool,
}

/// A non-wikilink file reference: a markdown `[text](dest)` link (note-relative) or a backticked
/// `*.md` path token (vault-root-relative).
#[derive(Debug, Clone)]
pub struct PathRef {
    pub target: String,
    /// 1-based line.
    pub line: usize,
    /// True for a backticked token, false for a markdown link.
    pub code: bool,
}

/// A corpus node (one note). The symbol table and link graph are built on these.
#[derive(Debug, Clone)]
pub struct Note {
    /// Vault-relative path (normalized, forward-slash).
    pub path: String,
    pub title: Option<String>,
    /// English title (lesson notes).
    pub title_en: Option<String>,
    pub aliases: Vec<String>,
    pub note_type: Option<String>,
    pub domain: Option<String>,
    pub status: Option<String>,
    /// `source_kind` frontmatter (e.g. `curriculum-gap` marks a planned, not-yet-written lesson).
    pub source_kind: Option<String>,
    pub topics: Vec<String>,
    pub slug: Option<String>,
    /// Raw values of the provenance / relation fields (not yet resolved).
    pub based_on: Vec<String>,
    pub related: Vec<String>,
    /// Supersession links (lesson-only).
    pub evolution_predecessor: Option<String>,
    pub evolution_successors: Vec<String>,
    /// Wikilinks appearing in the body (raw text, not yet resolved).
    pub wikilinks: Vec<WikiLink>,
    /// Markdown-link and backticked path references in the body.
    pub path_refs: Vec<PathRef>,
    /// Every top-level frontmatter entry, in document order.
    pub frontmatter: Vec<(String, FmValue)>,
    /// True when the file has no frontmatter (a raw transcript).
    pub no_frontmatter: bool,
}

/// One diagnostic. One per line (JSONL); the field shape is the output contract.
#[derive(Debug, Clone)]
pub struct Finding {
    pub rule_id: String,
    pub severity: Severity,
    /// The source file that carries this finding.
    pub path: String,
    pub line: Option<usize>,
    pub field: Option<String>,
    pub message: String,
    pub evidence: String,
    pub suggested_action: String,
    /// Points back to the governing source of the rule.
    pub source_rule: String,
    /// The original link text (structured, so no prose parsing is needed).
    pub target: Option<String>,
    /// The path it resolved to; `None` means unresolved.
    pub resolved_to: Option<String>,
    /// All member paths of a collision.
    pub collision_members: Vec<String>,
    /// Stable fingerprint: hash(rule_id + path + target), not tied to line numbers.
    pub fingerprint: String,
}

/// The line a finding sorts by (`0` when it has none).
pub open spec fn line_key(f: Finding) -> int {
    match f.line {
        Some(l) => l as int,
        None => 0,
    }
}

impl Finding {
    /// Deterministic total-order sort key: path -> line -> rule_id.
    pub fn sort_key(&self) -> (r: (&str, usize, &str))
        ensures
            r.0@ == self.path@,
            r.1 == line_key(*self),
            r.2@ == self.rule_id@,
    {
        let line = match self.line {
            Some(l) => l,
            None => 0,
        };
        (self.path.as_str(), line, self.rule_id.as_str())
    }
}

// ---------------------------------------------------------------------------------------------
// Fingerprint: FNV-1a over (rule_id, path, target), each followed by a 0x1f separator.
// ---------------------------------------------------------------------------------------------

pub const FNV_OFFSET: u64 = 0xcbf2_9ce4_8422_2325;

pub const FNV_PRIME: u64 = 0x0000_0100_0000_01b3;

/// One FNV-1a step.
pub open spec fn fnv_step(h: u64, b: u8) -> u64 {
    vstd::wrapping::u64_specs::wrapping_mul(h ^ (b as u64), FNV_PRIME)
}

/// FNV-1a of `bytes` starting from state `h`.
pub open spec fn fnv_bytes(h: u64, bytes: Seq<u8>) -> u64
    decreases bytes.len(),
{
    if bytes.len() == 0 {
        h
    } else {
        fnv_step(fnv_bytes(h, bytes.drop_last()), bytes.last())
    }
}

/// FNV-1a of one field followed by the separator.
pub open spec fn fnv_field(h: u64, s: Seq<char>) -> u64 {
    fnv_step(fnv_bytes(h, vstd::utf8::encode_utf8(s)), 0x1f)
}

/// The 64-bit hash behind a fingerprint.
pub open spec fn fingerprint_hash(rule_id: Seq<char>, path: Seq<char>, target: Seq<char>) -> u64 {
    fnv_field(fnv_field(fnv_field(FNV_OFFSET, rule_id), path), target)
}

/// Lowercase hex digit.
pub open spec fn hex_char(d: u64) -> char {
    if d < 10 {
        (48 + d) as char
    } else {
        (97 + d - 10) as char
    }
}

/// `format!("{h:016x}")`: 16 lowercase hex digits, most significant first.
pub open spec fn hex16(h: u64) -> Seq<char> {
    Seq::new(16, |i: int| hex_char((h >> (4 * (15 - i)) as u64) & 0xf))
}

/// The fingerprint string of a finding.
pub open spec fn fingerprint_spec(rule_id: Seq<char>, path: Seq<char>, target: Seq<char>) -> Seq<
    char,
> {
    hex16(fingerprint_hash(rule_id, path, target))
}

fn fnv_feed(h: u64, s: &str) -> (r: u64)
    ensures
        r == fnv_field(h, s@),
{
    let bytes = s.as_bytes();
    let ghost bs = bytes@;
    let mut hash = h;
    let mut i: usize = 0;
    while i < bytes.len()
        invariant
            bs == bytes@,
            i <= bytes.len(),
            hash == fnv_bytes(h, bs.take(i as int)),
        decreases bytes.len() - i,
    {
        assert(bs.take(i + 1).drop_last() =~= bs.take(i as int));
        hash = (hash ^ (bytes[i] as u64)).wrapping_mul(FNV_PRIME);
        i += 1;
    }
    assert(bs.take(bytes.len() as int) =~= bs);
    (hash ^ 0x1fu64).wrapping_mul(FNV_PRIME)
}

fn hex_digit(d: u64) -> (c: char)
    requires
        d < 16,
    ensures
        c == hex_char(d),
{
    if d < 10 {
        ((48 + d) as u8) as char
    } else {
        ((97 + d - 10) as u8) as char
    }
}

/// Stable fingerprint for a finding: FNV-1a over (rule_id, path, target), hex-encoded.
/// Deterministic across runs and machines and not tied to line numbers, so a consumer can set-diff
/// two stateless scans to find a branch's delta.
pub fn fingerprint(rule_id: &str, path: &str, target: &str) -> (out: String)
    ensures
        out@ == fingerprint_spec(rule_id@, path@, target@),
{
    let h = fnv_feed(fnv_feed(fnv_feed(FNV_OFFSET, rule_id), path), target);
    let mut digits: Vec<char> = Vec::new();
    let mut i: u64 = 0;
    while i < 16
        invariant
            i <= 16,
            digits@ == hex16(h).take(i as int),
        decreases 16 - i,
    {
        let shift: u64 = 4 * (15 - i);
        let d = (h >> shift) & 0xf;
        assert(d < 16) by (bit_vector)
            requires
                d == (h >> shift) & 0xf,
        ;
        digits.push(hex_digit(d));
        i += 1;
        assert(digits@ =~= hex16(h).take(i as int));
    }
    assert(hex16(h).take(16) =~= hex16(h));
    crate::text::string_of(digits.as_slice())
}

} // verus!

verus! {

/// [`Finding`] with its strings as character sequences.
pub struct FindingV {
    pub rule_id: Seq<char>,
    pub severity: Severity,
    pub path: Seq<char>,
    pub line: Option<usize>,
    pub field: Option<Seq<char>>,
    pub message: Seq<char>,
    pub evidence: Seq<char>,
    pub suggested_action: Seq<char>,
    pub source_rule: Seq<char>,
    pub target: Option<Seq<char>>,
    pub resolved_to: Option<Seq<char>>,
    pub collision_members: Seq<Seq<char>>,
    pub fingerprint: Seq<char>,
}

/// Character view of an optional string.
pub open spec fn opt_chars(o: Option<String>) -> Option<Seq<char>> {
    match o {
        Some(s) => Some(s@),
        None => None,
    }
}

impl View for Finding {
    type V = FindingV;

    open spec fn view(&self) -> FindingV {
        FindingV {
            rule_id: self.rule_id@,
            severity: self.severity,
            path: self.path@,
            line: self.line,
            field: opt_chars(self.field),
            message: self.message@,
            evidence: self.evidence@,
            suggested_action: self.suggested_action@,
            source_rule: self.source_rule@,
            target: opt_chars(self.target),
            resolved_to: opt_chars(self.resolved_to),
            collision_members: self.collision_members@.map_values(|s: String| s@),
            fingerprint: self.fingerprint@,
        }
    }
}

/// Character views of a list of findings.
pub open spec fn findings_view(v: Seq<Finding>) -> Seq<FindingV> {
    v.map_values(|f: Finding| f@)
}

} // verus!
