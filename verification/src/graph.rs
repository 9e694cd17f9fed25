//! Symbol table and resolver.
//!
//! Resolution keys are a note's filename and aliases, normalized to trim + NFC + lowercase
//! (Obsidian is case-insensitive and NFC-matches CJK). The frontmatter title is deliberately not a
//! key: Obsidian does not resolve wikilinks by title. A name shared by several files is reported as
//! ambiguous, never guessed.

use vstd::prelude::*;

use crate::model::Note;
use crate::text::{
    chars_of, has_suffix, lemma_seq_lt_total, lemma_seq_lt_trans, lowercase_of, nfc, nfc_of, owned,
    seq_lt, str_eq, str_lt, string_of_range, to_lowercase, trim, trim_str,
};

verus! {

// ---------------------------------------------------------------------------------------------
// Names
// ---------------------------------------------------------------------------------------------

/// The resolution form of a name: trimmed, NFC-normalized, lowercased.
pub open spec fn normalize_spec(name: Seq<char>) -> Seq<char> {
    lowercase_of(nfc_of(trim(name)))
}

/// Normalize a name for resolution: trim, NFC, lowercase. The resolver and lookups share this.
pub fn normalize(name: &str) -> (out: String)
    ensures
        out@ == normalize_spec(name@),
{
    let trimmed = trim_str(name);
    let composed = nfc(trimmed.as_str());
    to_lowercase(composed.as_str())
}

/// The part of `p` after its last `/` (all of `p` when it has none).
pub open spec fn filename_spec(p: Seq<char>) -> Seq<char>
    decreases p.len(),
{
    if p.len() == 0 {
        p
    } else if p.last() == '/' {
        Seq::empty()
    } else {
        filename_spec(p.drop_last()).push(p.last())
    }
}

/// The markdown extension.
pub open spec fn md_ext() -> Seq<char> {
    seq!['.', 'm', 'd']
}

/// `s` without a trailing `.md`.
pub open spec fn strip_md(s: Seq<char>) -> Seq<char> {
    if has_suffix(s, md_ext()) {
        s.take(s.len() - 3)
    } else {
        s
    }
}

/// Filename without directory or `.md`.
pub open spec fn filename_stem_spec(p: Seq<char>) -> Seq<char> {
    strip_md(filename_spec(p))
}

/// Vault-relative path without the `.md` extension.
pub open spec fn path_stem_spec(p: Seq<char>) -> Seq<char> {
    strip_md(p)
}

proof fn lemma_filename_split(p: Seq<char>, j: int)
    requires
        0 <= j <= p.len(),
        forall|i: int| j <= i < p.len() ==> #[trigger] p[i] != '/',
    ensures
        filename_spec(p) == filename_spec(p.take(j)) + p.skip(j),
    decreases p.len() - j,
{
    if j < p.len() {
        lemma_filename_split(p.drop_last(), j);
        assert(p.drop_last().take(j) =~= p.take(j));
        assert(p.skip(j) =~= p.drop_last().skip(j).push(p.last()));
    } else {
        assert(p.take(j) =~= p);
    }
}

/// Index where the filename of `v` starts (one past the last `/`, or 0).
pub fn filename_start_of(v: &[char]) -> (j: usize)
    ensures
        j <= v.len(),
        v@.skip(j as int) == filename_spec(v@),
{
    filename_start(v)
}

fn filename_start(v: &[char]) -> (j: usize)
    ensures
        j <= v.len(),
        v@.skip(j as int) == filename_spec(v@),
{
    let mut j = v.len();
    while j > 0 && v[j - 1] != '/'
        invariant
            j <= v.len(),
            forall|i: int| j <= i < v.len() ==> #[trigger] v@[i] != '/',
        decreases j,
    {
        j -= 1;
    }
    proof {
        lemma_filename_split(v@, j as int);
        if j > 0 {
            assert(v@.take(j as int).last() == '/');
        }
        assert(filename_spec(v@.take(j as int)) =~= Seq::<char>::empty());
        assert(Seq::<char>::empty() + v@.skip(j as int) =~= v@.skip(j as int));
    }
    j
}

/// Length of `v[from..]` once a trailing `.md` is dropped.
fn md_stripped_end(v: &[char], from: usize) -> (e: usize)
    requires
        from <= v.len(),
    ensures
        from <= e <= v.len(),
        v@.subrange(from as int, e as int) == strip_md(v@.skip(from as int)),
{
    let ext = ['.', 'm', 'd'];
    let tail_len = v.len() - from;
    let ghost tail = v@.skip(from as int);
    if tail_len >= 3 && v[v.len() - 3] == ext[0] && v[v.len() - 2] == ext[1] && v[v.len() - 1]
        == ext[2] {
        assert(tail.skip(tail.len() - 3) =~= md_ext());
        assert(v@.subrange(from as int, v.len() - 3) =~= tail.take(tail.len() - 3));
        v.len() - 3
    } else {
        proof {
            if has_suffix(tail, md_ext()) {
                assert(tail.skip(tail.len() - 3)[0] == v@[v.len() - 3]);
                assert(tail.skip(tail.len() - 3)[1] == v@[v.len() - 2]);
                assert(tail.skip(tail.len() - 3)[2] == v@[v.len() - 1]);
            }
        }
        assert(v@.subrange(from as int, v.len() as int) =~= tail);
        v.len()
    }
}

/// Full filename including extension.
pub fn filename(path: &str) -> (out: String)
    ensures
        out@ == filename_spec(path@),
{
    let v = chars_of(path);
    let j = filename_start(v.as_slice());
    assert(v@.subrange(j as int, v@.len() as int) =~= v@.skip(j as int));
    string_of_range(v.as_slice(), j, v.len())
}

/// Filename without directory or `.md`.
pub fn filename_stem(path: &str) -> (out: String)
    ensures
        out@ == filename_stem_spec(path@),
{
    let v = chars_of(path);
    let j = filename_start(v.as_slice());
    let e = md_stripped_end(v.as_slice(), j);
    string_of_range(v.as_slice(), j, e)
}

/// Vault-relative path without the `.md` extension.
pub fn path_stem(path: &str) -> (out: String)
    ensures
        out@ == path_stem_spec(path@),
{
    let v = chars_of(path);
    let e = md_stripped_end(v.as_slice(), 0);
    assert(v@.skip(0) =~= v@);
    string_of_range(v.as_slice(), 0, e)
}

/// The names Obsidian resolves a markdown note by: filename and vault-relative path, each with
/// and without the `.md` extension.
pub open spec fn note_key_names(path: Seq<char>) -> Seq<Seq<char>> {
    seq![filename_stem_spec(path), filename_spec(path), path_stem_spec(path), path]
}

/// The names Obsidian resolves a non-markdown file by: filename and path, keeping the extension.
pub open spec fn resource_key_names(path: Seq<char>) -> Seq<Seq<char>> {
    seq![filename_spec(path), path]
}

/// The character views of a list of strings.
pub open spec fn views(v: Seq<String>) -> Seq<Seq<char>> {
    v.map_values(|s: String| s@)
}

/// Every name a note is keyed by: its path-derived names, then its aliases. The title is not one.
pub open spec fn all_note_names(n: Note) -> Seq<Seq<char>> {
    note_key_names(n.path@) + views(n.aliases@)
}

/// Whether `names` holds a name whose normal form is the (non-empty) key `k`.
pub open spec fn names_expose(names: Seq<Seq<char>>, k: Seq<char>) -> bool {
    k.len() > 0 && exists|i: int| 0 <= i < names.len() && normalize_spec(#[trigger] names[i]) == k
}

/// The paths that expose the normalized key `k`, over notes and non-md resources.
pub open spec fn exposing_paths(notes: Seq<Note>, resources: Seq<String>, k: Seq<char>) -> Set<
    Seq<char>,
> {
    Set::new(
        |p: Seq<char>|
            (exists|i: int|
                0 <= i < notes.len() && #[trigger] notes[i].path@ == p && names_expose(
                    all_note_names(notes[i]),
                    k,
                )) || (exists|j: int|
                0 <= j < resources.len() && #[trigger] resources[j]@ == p && names_expose(
                    resource_key_names(resources[j]@),
                    k,
                )),
    )
}

/// Strictly increasing (hence duplicate-free) in code-point lexicographic order.
pub open spec fn sorted_strict(s: Seq<Seq<char>>) -> bool {
    forall|i: int, j: int| 0 <= i < j < s.len() ==> seq_lt(#[trigger] s[i], #[trigger] s[j])
}

// ---------------------------------------------------------------------------------------------
// Symbol table
// ---------------------------------------------------------------------------------------------

/// Outcome of resolving one wikilink target.
#[derive(Debug, Clone, Copy, PartialEq, Eq)]
pub enum Resolution<'a> {
    /// Resolved to exactly one file (its vault-relative path).
    One(&'a str),
    /// The name maps to several files — ambiguous, reported rather than guessed.
    Ambiguous(&'a [String]),
    /// No file exposes this name.
    Unresolved,
}

/// Maps every resolvable name (normalized) to the file paths that expose it, as parallel vectors
/// of keys and member lists. Key-value tables here are vectors searched by key, not `HashMap`/`BTreeMap`: vstd specifies
/// those maps only for keys it gives a key model (`obeys_key_model`, `obeys_cmp`), which covers
/// integers and `bool` but not `String`, so a map keyed by names or paths could not be reasoned
/// about.
#[derive(Debug)]
pub struct SymbolTable {
    keys: Vec<String>,
    members: Vec<Vec<String>>,
}

/// The member list stored for key `k` in a (keys, members) pair, empty when `k` is absent.
pub open spec fn entry_of(keys: Seq<String>, members: Seq<Vec<String>>, k: Seq<char>) -> Seq<
    Seq<char>,
> {
    if exists|i: int| 0 <= i < keys.len() && #[trigger] keys[i]@ == k {
        views(members[choose|i: int| 0 <= i < keys.len() && #[trigger] keys[i]@ == k]@)
    } else {
        Seq::empty()
    }
}

/// Well-formedness of a (keys, members) pair: keys distinct and non-empty, member lists
/// non-empty and strictly sorted.
pub open spec fn table_wf(keys: Seq<String>, members: Seq<Vec<String>>) -> bool {
    &&& keys.len() == members.len()
    &&& forall|i: int, j: int| 0 <= i < j < keys.len() ==> #[trigger] keys[i]@ != #[trigger] keys[j]@
    &&& forall|i: int| 0 <= i < keys.len() ==> (#[trigger] keys[i])@.len() > 0
    &&& forall|i: int|
        0 <= i < members.len() ==> (#[trigger] members[i])@.len() > 0 && sorted_strict(
            views(members[i]@),
        )
}

pub(crate) proof fn lemma_entry_at(keys: Seq<String>, members: Seq<Vec<String>>, i: int)
    requires
        table_wf(keys, members),
        0 <= i < keys.len(),
    ensures
        entry_of(keys, members, keys[i]@) == views(members[i]@),
{
    let k = keys[i]@;
    let c = choose|c: int| 0 <= c < keys.len() && #[trigger] keys[c]@ == k;
    if c != i {
        if c < i {
            assert(keys[c]@ != keys[i]@);
        } else {
            assert(keys[i]@ != keys[c]@);
        }
    }
}

impl SymbolTable {
    #[verifier::type_invariant]
    spec fn inv(self) -> bool {
        table_wf(self.keys@, self.members@)
    }

    /// The sorted, duplicate-free paths that expose the normalized key `k` (empty if none).
    pub closed spec fn members_of(self, k: Seq<char>) -> Seq<Seq<char>> {
        entry_of(self.keys@, self.members@, k)
    }

    /// Build from notes plus non-md resources. A note is keyed by every name Obsidian resolves
    /// it by (filename and vault-relative path, each with and without `.md`) plus its aliases; the
    /// title is excluded. A resource is keyed by its filename and path, both keeping the extension.
    pub fn build(notes: &[Note], resources: &[String]) -> (t: SymbolTable)
        ensures
            forall|k: Seq<char>| #[trigger] t.members_of(k).to_set() == exposing_paths(
                notes@,
                resources@,
                k,
            ),
            forall|k: Seq<char>| sorted_strict(#[trigger] t.members_of(k)),
    {
        let mut keys: Vec<String> = Vec::new();
        let mut members: Vec<Vec<String>> = Vec::new();
        let ghost no_res: Seq<String> = Seq::empty();
        let mut i: usize = 0;
        while i < notes.len()
            invariant
                i <= notes.len(),
                table_wf(keys@, members@),
                forall|k: Seq<char>| #[trigger]
                    entry_of(keys@, members@, k).to_set() == exposing_paths(
                        notes@.take(i as int),
                        no_res,
                        k,
                    ),
            decreases notes.len() - i,
        {
            let note = &notes[i];
            let names = note_keys(note);
            let ghost before = keys@;
            let ghost before_m = members@;
            let mut m: usize = 0;
            while m < names.len()
                invariant
                    i < notes.len(),
                    *note == notes@[i as int],
                    views(names@) == all_note_names(*note),
                    m <= names.len(),
                    table_wf(keys@, members@),
                    forall|k: Seq<char>| #[trigger]
                        entry_of(keys@, members@, k).to_set() == if names_expose(
                            views(names@).take(m as int),
                            k,
                        ) {
                            exposing_paths(notes@.take(i as int), no_res, k).insert(note.path@)
                        } else {
                            exposing_paths(notes@.take(i as int), no_res, k)
                        },
                decreases names.len() - m,
            {
                self::add(&mut keys, &mut members, names[m].as_str(), note.path.as_str());
                proof {
                    let vs = views(names@);
                    assert forall|k: Seq<char>|
                        names_expose(vs.take(m + 1), k) == (names_expose(vs.take(m as int), k) || (
                        k.len() > 0 && normalize_spec(vs[m as int]) == k)) by {
                        if names_expose(vs.take(m + 1), k) {
                            let w = choose|w: int|
                                0 <= w < vs.take(m + 1).len() && normalize_spec(
                                    #[trigger] vs.take(m + 1)[w],
                                ) == k;
                            if w < m {
                                assert(vs.take(m as int)[w] == vs.take(m + 1)[w]);
                            }
                        }
                        if names_expose(vs.take(m as int), k) {
                            let w = choose|w: int|
                                0 <= w < vs.take(m as int).len() && normalize_spec(
                                    #[trigger] vs.take(m as int)[w],
                                ) == k;
                            assert(vs.take(m + 1)[w] == vs.take(m as int)[w]);
                        }
                        if k.len() > 0 && normalize_spec(vs[m as int]) == k {
                            assert(vs.take(m + 1)[m as int] == vs[m as int]);
                        }
                    }
                    assert forall|k: Seq<char>| #[trigger]
                        entry_of(keys@, members@, k).to_set() == if names_expose(
                            views(names@).take(m + 1),
                            k,
                        ) {
                            exposing_paths(notes@.take(i as int), no_res, k).insert(note.path@)
                        } else {
                            exposing_paths(notes@.take(i as int), no_res, k)
                        } by {
                        assert(names@[m as int]@ == vs[m as int]);
                    }
                }
                m += 1;
            }
            proof {
                assert(views(names@).take(names@.len() as int) == views(names@));
                let t1 = notes@.take(i + 1);
                let t0 = notes@.take(i as int);
                assert forall|k: Seq<char>| #[trigger]
                    entry_of(keys@, members@, k).to_set() == exposing_paths(t1, no_res, k) by {
                    let lhs = if names_expose(views(names@), k) {
                        exposing_paths(t0, no_res, k).insert(note.path@)
                    } else {
                        exposing_paths(t0, no_res, k)
                    };
                    assert forall|p: Seq<char>| lhs.contains(p) == exposing_paths(
                        t1,
                        no_res,
                        k,
                    ).contains(p) by {
                        if exists|w: int|
                            0 <= w < t0.len() && #[trigger] t0[w].path@ == p && names_expose(
                                all_note_names(t0[w]),
                                k,
                            ) {
                            let w = choose|w: int|
                                0 <= w < t0.len() && #[trigger] t0[w].path@ == p && names_expose(
                                    all_note_names(t0[w]),
                                    k,
                                );
                            assert(t1[w] == t0[w]);
                        }
                        if exists|w: int|
                            0 <= w < t1.len() && #[trigger] t1[w].path@ == p && names_expose(
                                all_note_names(t1[w]),
                                k,
                            ) {
                            let w = choose|w: int|
                                0 <= w < t1.len() && #[trigger] t1[w].path@ == p && names_expose(
                                    all_note_names(t1[w]),
                                    k,
                                );
                            if w < i {
                                assert(t0[w] == t1[w]);
                            } else {
                                assert(t1[w] == notes@[i as int]);
                            }
                        }
                        if names_expose(views(names@), k) && p == note.path@ {
                            assert(t1[i as int] == notes@[i as int]);
                        }
                    }
                    assert(lhs =~= exposing_paths(t1, no_res, k));
                }
            }
            i += 1;
        }
        assert(notes@.take(notes.len() as int) =~= notes@);
        let mut j: usize = 0;
        while j < resources.len()
            invariant
                j <= resources.len(),
                table_wf(keys@, members@),
                forall|k: Seq<char>| #[trigger]
                    entry_of(keys@, members@, k).to_set() == exposing_paths(
                        notes@,
                        resources@.take(j as int),
                        k,
                    ),
            decreases resources.len() - j,
        {
            let res = &resources[j];
            let f = filename(res.as_str());
            self::add(&mut keys, &mut members, f.as_str(), res.as_str());
            self::add(&mut keys, &mut members, res.as_str(), res.as_str());
            proof {
                let r1 = resources@.take(j + 1);
                let r0 = resources@.take(j as int);
                let rn = resource_key_names(res@);
                assert forall|k: Seq<char>| #[trigger]
                    entry_of(keys@, members@, k).to_set() == exposing_paths(notes@, r1, k) by {
                    let grew = k.len() > 0 && (normalize_spec(f@) == k || normalize_spec(res@)
                        == k);
                    assert(grew == names_expose(rn, k)) by {
                        if names_expose(rn, k) {
                            let w = choose|w: int|
                                0 <= w < rn.len() && normalize_spec(#[trigger] rn[w]) == k;
                            assert(w == 0 || w == 1);
                        }
                        if k.len() > 0 && normalize_spec(f@) == k {
                            assert(rn[0] == f@);
                        }
                        if k.len() > 0 && normalize_spec(res@) == k {
                            assert(rn[1] == res@);
                        }
                    }
                    let lhs = if grew {
                        exposing_paths(notes@, r0, k).insert(res@)
                    } else {
                        exposing_paths(notes@, r0, k)
                    };
                    assert forall|p: Seq<char>| lhs.contains(p) == exposing_paths(
                        notes@,
                        r1,
                        k,
                    ).contains(p) by {
                        if exposing_paths(notes@, r0, k).contains(p) {
                            if exists|w: int|
                                0 <= w < r0.len() && #[trigger] r0[w]@ == p && names_expose(
                                    resource_key_names(r0[w]@),
                                    k,
                                ) {
                                let w = choose|w: int|
                                    0 <= w < r0.len() && #[trigger] r0[w]@ == p && names_expose(
                                        resource_key_names(r0[w]@),
                                        k,
                                    );
                                assert(r1[w] == r0[w]);
                            }
                        }
                        if exposing_paths(notes@, r1, k).contains(p) {
                            if exists|w: int|
                                0 <= w < r1.len() && #[trigger] r1[w]@ == p && names_expose(
                                    resource_key_names(r1[w]@),
                                    k,
                                ) {
                                let w = choose|w: int|
                                    0 <= w < r1.len() && #[trigger] r1[w]@ == p && names_expose(
                                        resource_key_names(r1[w]@),
                                        k,
                                    );
                                if w < j {
                                    assert(r0[w] == r1[w]);
                                } else {
                                    assert(r1[w] == resources@[j as int]);
                                }
                            }
                        }
                        if grew && p == res@ {
                            assert(r1[j as int] == resources@[j as int]);
                        }
                    }
                    assert(lhs =~= exposing_paths(notes@, r1, k));
                }
            }
            j += 1;
        }
        assert(resources@.take(resources.len() as int) =~= resources@);
        let t = SymbolTable { keys, members };
        proof {
            use_type_invariant(&t);
            assert forall|k: Seq<char>| sorted_strict(#[trigger] t.members_of(k)) by {
                if exists|c: int| 0 <= c < t.keys@.len() && #[trigger] t.keys@[c]@ == k {
                    let c = choose|c: int| 0 <= c < t.keys@.len() && #[trigger] t.keys@[c]@ == k;
                    lemma_entry_at(t.keys@, t.members@, c);
                }
            }
        }
        t
    }

    /// Resolve a wikilink `target` (already stripped of `#`/`|`/`^`). Anchors are not verified:
    /// `[[X#heading]]` resolves as long as file `X` exists (the caller stripped the anchor).
    pub fn resolve(&self, target: &str) -> (r: Resolution<'_>)
        ensures
            ({
                let m = self.members_of(normalize_spec(target@));
                match r {
                    Resolution::Unresolved => m.len() == 0,
                    Resolution::One(p) => m.len() == 1 && p@ == m[0],
                    Resolution::Ambiguous(ms) => m.len() >= 2 && views(ms@) == m,
                }
            }),
    {
        proof {
            use_type_invariant(self);
        }
        let key = normalize(target);
        let mut i: usize = 0;
        while i < self.keys.len()
            invariant
                table_wf(self.keys@, self.members@),
                key@ == normalize_spec(target@),
                i <= self.keys.len(),
                forall|c: int| 0 <= c < i ==> #[trigger] self.keys@[c]@ != key@,
            decreases self.keys.len() - i,
        {
            if self.keys[i] == key {
                proof {
                    lemma_entry_at(self.keys@, self.members@, i as int);
                }
                let ms = &self.members[i];
                if ms.len() == 1 {
                    return Resolution::One(ms[0].as_str());
                } else {
                    let r = Resolution::Ambiguous(ms.as_slice());
                    assert(views(ms@) == self.members_of(key@));
                    return r;
                }
            }
            i += 1;
        }
        Resolution::Unresolved
    }
}

/// The names a note is keyed by, in the order of [`all_note_names`].
fn note_keys(note: &Note) -> (out: Vec<String>)
    ensures
        views(out@) == all_note_names(*note),
{
    let mut out: Vec<String> = Vec::new();
    out.push(filename_stem(note.path.as_str()));
    out.push(filename(note.path.as_str()));
    out.push(path_stem(note.path.as_str()));
    out.push(note.path.clone());
    let ghost head = views(out@);
    assert(head =~= note_key_names(note.path@));
    let mut a: usize = 0;
    while a < note.aliases.len()
        invariant
            a <= note.aliases.len(),
            views(out@) == head + views(note.aliases@).take(a as int),
        decreases note.aliases.len() - a,
    {
        let ghost prev = out@;
        out.push(note.aliases[a].clone());
        a += 1;
        assert(out@ == prev.push(note.aliases@[a - 1]));
        assert(views(out@) =~= views(prev).push(note.aliases@[a - 1]@));
        assert(views(note.aliases@).take(a as int) =~= views(note.aliases@).take(a - 1).push(
            note.aliases@[a - 1]@,
        ));
        assert(views(out@) =~= head + views(note.aliases@).take(a as int));
    }
    assert(views(note.aliases@).take(note.aliases.len() as int) =~= views(note.aliases@));
    out
}

/// Insert `path` into a strictly sorted list, keeping it strictly sorted (no duplicate).
fn insert_sorted(v: &mut Vec<String>, path: &str)
    requires
        sorted_strict(views(old(v)@)),
    ensures
        sorted_strict(views(final(v)@)),
        views(final(v)@).to_set() == views(old(v)@).to_set().insert(path@),
        final(v)@.len() > 0,
{
    let ghost old_v = views(v@);
    let mut i: usize = 0;
    while i < v.len() && str_lt(v[i].as_str(), path)
        invariant
            views(v@) == old_v,
            sorted_strict(old_v),
            i <= v.len(),
            forall|j: int| 0 <= j < i ==> seq_lt(#[trigger] old_v[j], path@),
        decreases v.len() - i,
    {
        i += 1;
    }
    if i < v.len() && str_eq(v[i].as_str(), path) {
        assert(views(v@).to_set() =~= old_v.to_set().insert(path@)) by {
            assert(old_v[i as int] == path@);
        }
        return;
    }
    proof {
        if i < v.len() {
            lemma_seq_lt_total(old_v[i as int], path@);
        }
    }
    v.insert(i, owned(path));
    proof {
        let nv = views(v@);
        assert(nv =~= old_v.insert(i as int, path@));
        assert forall|a: int, b: int| 0 <= a < b < nv.len() implies seq_lt(
            #[trigger] nv[a],
            #[trigger] nv[b],
        ) by {
            if b < i {
                assert(nv[a] == old_v[a] && nv[b] == old_v[b]);
            } else if b == i {
                assert(nv[a] == old_v[a]);
            } else if a == i {
                assert(nv[b] == old_v[b - 1]);
                if b - 1 > i {
                    assert(seq_lt(old_v[i as int], old_v[b - 1]));
                    lemma_seq_lt_trans(path@, old_v[i as int], old_v[b - 1]);
                }
            } else if a < i {
                assert(nv[a] == old_v[a] && nv[b] == old_v[b - 1]);
            } else {
                assert(nv[a] == old_v[a - 1] && nv[b] == old_v[b - 1]);
            }
        }
        assert(nv.to_set() =~= old_v.to_set().insert(path@)) by {
            assert forall|x: Seq<char>| nv.to_set().contains(x) implies old_v.to_set().insert(
                path@,
            ).contains(x) by {
                let w = choose|w: int| 0 <= w < nv.len() && nv[w] == x;
                if w < i {
                    assert(nv[w] == old_v[w]);
                } else if w > i {
                    assert(nv[w] == old_v[w - 1]);
                }
            }
            assert forall|x: Seq<char>| old_v.to_set().insert(path@).contains(x) implies nv.to_set().contains(
                x,
            ) by {
                if x == path@ {
                    assert(nv[i as int] == path@);
                } else {
                    let w = choose|w: int| 0 <= w < old_v.len() && old_v[w] == x;
                    if w < i {
                        assert(nv[w] == x);
                    } else {
                        assert(nv[w + 1] == x);
                    }
                }
            }
        }
    }
}

/// Insert `key` (normalized) -> `path`; skip empty keys, dedupe per path. A new key goes last,
/// so the keys stay in the order they were first seen.
pub(crate) fn add(keys: &mut Vec<String>, members: &mut Vec<Vec<String>>, key: &str, path: &str)
    requires
        table_wf(old(keys)@, old(members)@),
    ensures
        table_wf(final(keys)@, final(members)@),
        views(final(keys)@) == if normalize_spec(key@).len() > 0 && !views(old(keys)@).contains(
            normalize_spec(key@),
        ) {
            views(old(keys)@).push(normalize_spec(key@))
        } else {
            views(old(keys)@)
        },
        forall|k: Seq<char>| #[trigger]
            entry_of(final(keys)@, final(members)@, k).to_set() == if k.len() > 0
                && normalize_spec(key@) == k {
                entry_of(old(keys)@, old(members)@, k).to_set().insert(path@)
            } else {
                entry_of(old(keys)@, old(members)@, k).to_set()
            },
{
    let norm = normalize(key);
    if norm.as_str().unicode_len() == 0 {
        return;
    }
    let ghost ok = keys@;
    let ghost om = members@;
    let mut i: usize = 0;
    while i < keys.len()
        invariant
            keys@ == ok,
            members@ == om,
            table_wf(ok, om),
            i <= keys.len(),
            forall|c: int| 0 <= c < i ==> #[trigger] ok[c]@ != norm@,
            norm@ == normalize_spec(key@),
            norm@.len() > 0,
            ok == old(keys)@,
            om == old(members)@,
        decreases keys.len() - i,
    {
        if keys[i] == norm {
            let mut slot: Vec<String> = Vec::new();
            members.set_and_swap(i, &mut slot);
            let ghost taken = slot;
            assert(taken == om[i as int]);
            insert_sorted(&mut slot, path);
            let ghost filled = slot;
            members.set_and_swap(i, &mut slot);
            proof {
                assert(members@ == om.update(i as int, filled));
                assert forall|a: int| 0 <= a < members@.len() implies (#[trigger] members@[a])@.len()
                    > 0 && sorted_strict(views(members@[a]@)) by {
                    if a != i {
                        assert(members@[a] == om[a]);
                    }
                }
                assert(table_wf(keys@, members@));
                lemma_entry_at(ok, om, i as int);
                lemma_entry_at(keys@, members@, i as int);
                assert forall|k: Seq<char>| #[trigger]
                    entry_of(keys@, members@, k).to_set() == if k.len() > 0 && norm@ == k {
                        entry_of(ok, om, k).to_set().insert(path@)
                    } else {
                        entry_of(ok, om, k).to_set()
                    } by {
                    if k == norm@ {
                        assert(entry_of(keys@, members@, k) == views(filled@));
                        assert(entry_of(ok, om, k) == views(taken@));
                    } else {
                        if exists|c: int| 0 <= c < ok.len() && #[trigger] ok[c]@ == k {
                            let c = choose|c: int| 0 <= c < ok.len() && #[trigger] ok[c]@ == k;
                            lemma_entry_at(ok, om, c);
                            lemma_entry_at(keys@, members@, c);
                        }
                    }
                }
                assert(views(ok)[i as int] == norm@);
            }
            return;
        }
        i += 1;
    }
    let mut fresh: Vec<String> = Vec::new();
    fresh.push(owned(path));
    keys.push(norm);
    members.push(fresh);
    proof {
        let n = ok.len() as int;
        assert(!views(ok).contains(norm@)) by {
            if views(ok).contains(norm@) {
                let c = choose|c: int| 0 <= c < views(ok).len() && views(ok)[c] == norm@;
                assert(ok[c]@ != norm@);
            }
        }
        assert(views(keys@) =~= views(ok).push(norm@));
        assert forall|a: int, b: int| 0 <= a < b < keys@.len() implies #[trigger] keys@[a]@
            != #[trigger] keys@[b]@ by {
            if b == n {
                assert(ok[a]@ != norm@);
            } else {
                assert(ok[a]@ != ok[b]@);
            }
        }
        assert forall|a: int| 0 <= a < members@.len() implies (#[trigger] members@[a])@.len() > 0
            && sorted_strict(views(members@[a]@)) by {
            if a < n {
                assert(members@[a] == om[a]);
            }
        }
        assert(table_wf(keys@, members@));
        lemma_entry_at(keys@, members@, n);
        assert(views(members@[n]@) =~= seq![path@]);
        assert forall|k: Seq<char>| #[trigger]
            entry_of(keys@, members@, k).to_set() == if k.len() > 0 && norm@ == k {
                entry_of(ok, om, k).to_set().insert(path@)
            } else {
                entry_of(ok, om, k).to_set()
            } by {
            if k == norm@ {
                assert(!(exists|c: int| 0 <= c < ok.len() && #[trigger] ok[c]@ == k));
                assert(seq![path@][0] == path@);
                assert(seq![path@].to_set() =~= Set::<Seq<char>>::empty().insert(path@));
                assert(entry_of(ok, om, k).to_set() =~= Set::<Seq<char>>::empty());
            } else {
                if exists|c: int| 0 <= c < ok.len() && #[trigger] ok[c]@ == k {
                    let c = choose|c: int| 0 <= c < ok.len() && #[trigger] ok[c]@ == k;
                    lemma_entry_at(ok, om, c);
                    assert(keys@[c] == ok[c]);
                    lemma_entry_at(keys@, members@, c);
                } else {
                    assert(!(exists|c: int| 0 <= c < keys@.len() && #[trigger] keys@[c]@ == k)) by {
                        if exists|c: int| 0 <= c < keys@.len() && #[trigger] keys@[c]@ == k {
                            let c = choose|c: int| 0 <= c < keys@.len() && #[trigger] keys@[c]@ == k;
                            if c < n {
                                assert(keys@[c] == ok[c]);
                            }
                        }
                    }
                }
            }
        }
    }
}

// ---------------------------------------------------------------------------------------------
// Graph
// ---------------------------------------------------------------------------------------------

/// The link graph: notes plus the resolver built over them.
#[derive(Debug)]
pub struct Graph {
    pub notes: Vec<Note>,
    pub symbols: SymbolTable,
}

impl Graph {
    /// Build the symbol table over `notes` and the non-md `resources`.
    pub fn build(notes: Vec<Note>, resources: &[String]) -> (g: Self)
        ensures
            g.notes@ == notes@,
            forall|k: Seq<char>| #[trigger] g.symbols.members_of(k).to_set() == exposing_paths(
                notes@,
                resources@,
                k,
            ),
            forall|k: Seq<char>| sorted_strict(#[trigger] g.symbols.members_of(k)),
    {
        let symbols = SymbolTable::build(notes.as_slice(), resources);
        Graph { notes, symbols }
    }
}

} // verus!
