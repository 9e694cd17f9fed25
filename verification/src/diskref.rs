//! `link.broken.path`: the one check that resolves against the filesystem, not the graph.
//!
//! The link rules only see `[[wikilinks]]` and frontmatter. Markdown `[text](path)` links and
//! backticked `path.md` tokens are structurally invisible to them, yet they rot too. This check
//! resolves them, with a load-bearing determinism boundary that protects the never-false-positive
//! invariant: a relative path that stays inside the root but has no file is a real dead link
//! (`Warn`); a path that escapes the root cannot be checked the same way on every machine, so it
//! is reported `Info` ("external, not stat'd") and never as broken.
//!
//! What is on disk is an input: [`stat_targets`] lists the vault-relative paths the check needs to
//! know about, the caller stats them, and [`check`] takes the ones that exist.

use vstd::prelude::*;

use crate::model::{fingerprint, fingerprint_spec, findings_view, Finding, FindingV, Note, PathRef, Severity};
use crate::report::{join_spec, join_strings, occurs};
use crate::schema::{split_path, split_slash};
use crate::text::{concat3, owned, str_eq, string_of_range, chars_of, string_views};

verus! {

// ---------------------------------------------------------------------------------------------
// Path resolution
// ---------------------------------------------------------------------------------------------

/// The non-empty segments of `parts`, in order.
pub open spec fn nonempty_parts(parts: Seq<Seq<char>>) -> Seq<Seq<char>>
    decreases parts.len(),
{
    if parts.len() == 0 {
        Seq::empty()
    } else if parts.last().len() == 0 {
        nonempty_parts(parts.drop_last())
    } else {
        nonempty_parts(parts.drop_last()).push(parts.last())
    }
}

/// One step of the walk: `""` and `.` stay, `..` climbs (failing above the root), a name descends.
pub open spec fn step_part(comps: Seq<Seq<char>>, part: Seq<char>) -> Option<Seq<Seq<char>>> {
    if part.len() == 0 || part == "."@ {
        Some(comps)
    } else if part == ".."@ {
        if comps.len() == 0 {
            None
        } else {
            Some(comps.drop_last())
        }
    } else {
        Some(comps.push(part))
    }
}

/// Walk `parts` from `start`; `None` once a `..` climbs above the root.
pub open spec fn walk_parts(start: Seq<Seq<char>>, parts: Seq<Seq<char>>) -> Option<Seq<Seq<char>>>
    decreases parts.len(),
{
    if parts.len() == 0 {
        Some(start)
    } else {
        match walk_parts(start, parts.drop_last()) {
            Some(c) => step_part(c, parts.last()),
            None => None,
        }
    }
}

/// `dest` resolved against `base_dir` (both vault-relative, `/`-separated), with `.` and `..`
/// collapsed; `None` when it escapes above the root.
pub open spec fn resolve_spec(base_dir: Seq<char>, dest: Seq<char>) -> Option<Seq<char>> {
    match walk_parts(nonempty_parts(split_slash(base_dir)), split_slash(dest)) {
        Some(c) => Some(join_spec(c, "/"@)),
        None => None,
    }
}

/// Resolve `dest` against `base_dir` (both vault-relative, `/`-separated), collapsing `.` and `..`.
/// Returns the normalized vault-relative path, or `None` if it escapes above the root.
pub fn resolve_within_root(base_dir: &str, dest: &str) -> (out: Option<String>)
    ensures
        crate::model::opt_chars(out) == resolve_spec(base_dir@, dest@),
{
    let base = split_path(base_dir);
    let ghost bv = string_views(base@);
    let mut comps: Vec<String> = Vec::new();
    let mut i: usize = 0;
    assert(bv.take(0) =~= Seq::<Seq<char>>::empty());
    while i < base.len()
        invariant
            i <= base@.len(),
            bv == string_views(base@),
            string_views(comps@) == nonempty_parts(bv.take(i as int)),
        decreases base.len() - i,
    {
        assert(bv.take(i + 1).drop_last() =~= bv.take(i as int));
        if base[i].as_str().unicode_len() > 0 {
            let ghost before = string_views(comps@);
            comps.push(base[i].clone());
            assert(string_views(comps@) =~= before.push(bv[i as int]));
        }
        i += 1;
    }
    assert(bv.take(base@.len() as int) =~= bv);
    let ghost start = string_views(comps@);
    let parts = split_path(dest);
    let ghost pv = string_views(parts@);
    let mut k: usize = 0;
    assert(pv.take(0) =~= Seq::<Seq<char>>::empty());
    proof {
        reveal_strlit(".");
        reveal_strlit("..");
    }
    while k < parts.len()
        invariant
            k <= parts@.len(),
            pv == string_views(parts@),
            pv == split_slash(dest@),
            start == nonempty_parts(split_slash(base_dir@)),
            walk_parts(start, pv.take(k as int)) == Some(string_views(comps@)),
        decreases parts.len() - k,
    {
        assert(pv.take(k + 1).drop_last() =~= pv.take(k as int));
        let part = parts[k].as_str();
        let ghost before = string_views(comps@);
        if part.unicode_len() == 0 || str_eq(part, ".") {
        } else if str_eq(part, "..") {
            if comps.len() == 0 {
                proof {
                    assert(pv[k as int] == ".."@);
                    assert(step_part(before, pv[k as int]) is None);
                    assert(walk_parts(start, pv.take(k + 1)) is None);
                    lemma_walk_none_stays(start, pv, k as int + 1);
                }
                assert(pv.take(parts@.len() as int) =~= pv);
                return None;
            }
            comps.pop();
            assert(string_views(comps@) =~= before.drop_last());
        } else {
            comps.push(parts[k].clone());
            assert(string_views(comps@) =~= before.push(pv[k as int]));
        }
        k += 1;
    }
    assert(pv.take(parts@.len() as int) =~= pv);
    Some(join_strings(&comps, "/"))
}

/// Once the walk has climbed above the root, it stays failed.
proof fn lemma_walk_none_stays(start: Seq<Seq<char>>, parts: Seq<Seq<char>>, k: int)
    requires
        0 <= k <= parts.len(),
        walk_parts(start, parts.take(k)) is None,
    ensures
        walk_parts(start, parts) is None,
    decreases parts.len() - k,
{
    if k < parts.len() {
        assert(parts.take(k + 1).drop_last() =~= parts.take(k));
        lemma_walk_none_stays(start, parts, k + 1);
    } else {
        assert(parts.take(k) =~= parts);
    }
}

/// The folder of a vault path: everything before its last `/` (nothing when there is none).
pub open spec fn dir_of(p: Seq<char>) -> Seq<char>
    decreases p.len(),
{
    if p.len() == 0 {
        Seq::empty()
    } else if p.last() == '/' {
        p.drop_last()
    } else {
        dir_of(p.drop_last())
    }
}

/// The folder of a vault path.
fn note_dir(p: &str) -> (out: String)
    ensures
        out@ == dir_of(p@),
{
    let v = chars_of(p);
    let mut j: usize = v.len();
    assert(v@.take(j as int) =~= v@);
    while j > 0 && v[j - 1] != '/'
        invariant
            j <= v@.len(),
            v@ == p@,
            dir_of(p@) == dir_of(v@.take(j as int)),
        decreases j,
    {
        assert(v@.take(j as int).drop_last() =~= v@.take(j - 1));
        j -= 1;
    }
    if j == 0 {
        assert(v@.take(0) =~= Seq::<char>::empty());
        String::new()
    } else {
        assert(v@.take(j as int).drop_last() =~= v@.take(j - 1));
        string_of_range(v.as_slice(), 0, j - 1)
    }
}

// ---------------------------------------------------------------------------------------------
// Findings
// ---------------------------------------------------------------------------------------------

/// A relative path that stays inside the vault but has no file (`Warn`).
pub open spec fn dead_spec(note: Note, pref: PathRef, resolved: Seq<char>) -> FindingV {
    FindingV {
        rule_id: "link.broken.path"@,
        severity: Severity::Warn,
        path: note.path@,
        line: Some(pref.line),
        field: None,
        message: "link to "@ + pref.target@ + " resolves to no file"@,
        evidence: resolved + " does not exist in the vault"@,
        suggested_action: "fix the path, restore the file, or remove the reference"@,
        source_rule: "vault-schema.toml#rules"@,
        target: Some(pref.target@),
        resolved_to: None,
        collision_members: Seq::empty(),
        fingerprint: fingerprint_spec("link.broken.path"@, note.path@, pref.target@),
    }
}

/// A path that escapes the vault root: reported but not stat'd, to stay deterministic (`Info`).
pub open spec fn external_spec(note: Note, pref: PathRef) -> FindingV {
    FindingV {
        rule_id: "link.broken.path"@,
        severity: Severity::Info,
        path: note.path@,
        line: Some(pref.line),
        field: None,
        message: "link to "@ + pref.target@ + " points outside the vault root"@,
        evidence: "external path, not stat'd (existence varies by environment)"@,
        suggested_action: "if it should be in the vault, fix the path; otherwise informational"@,
        source_rule: "vault-schema.toml#rules"@,
        target: Some(pref.target@),
        resolved_to: None,
        collision_members: Seq::empty(),
        fingerprint: fingerprint_spec("link.broken.path"@, note.path@, pref.target@),
    }
}

/// Whether the resolved path `r` is a file on disk.
pub open spec fn on_disk(disk: Seq<String>, r: Option<Seq<char>>) -> bool {
    match r {
        Some(p) => occurs(disk, p, disk.len() as int),
        None => false,
    }
}

/// The finding (if any) for one path reference. A backticked token is written vault-root-relative
/// and accepted if it exists either root-relative or note-relative; a markdown link is
/// note-relative.
pub open spec fn classify_spec(note: Note, pref: PathRef, disk: Seq<String>) -> Option<FindingV> {
    let dir = dir_of(note.path@);
    if pref.code {
        let root_rel = resolve_spec(Seq::empty(), pref.target@);
        let note_rel = resolve_spec(dir, pref.target@);
        if on_disk(disk, root_rel) || on_disk(disk, note_rel) {
            None
        } else {
            match root_rel {
                Some(r) => Some(dead_spec(note, pref, r)),
                None => None,
            }
        }
    } else {
        match resolve_spec(dir, pref.target@) {
            None => Some(external_spec(note, pref)),
            Some(r) => if on_disk(disk, Some(r)) {
                None
            } else {
                Some(dead_spec(note, pref, r))
            },
        }
    }
}

/// The findings of the first `m` path references of `note`.
pub open spec fn note_path_findings(note: Note, disk: Seq<String>, m: int) -> Seq<FindingV>
    decreases m,
{
    if m <= 0 {
        Seq::empty()
    } else {
        let prev = note_path_findings(note, disk, m - 1);
        match classify_spec(note, note.path_refs@[m - 1], disk) {
            Some(f) => prev.push(f),
            None => prev,
        }
    }
}

/// The path-reference findings of the first `k` notes, in note then reference order.
pub open spec fn path_check_spec(notes: Seq<Note>, disk: Seq<String>, k: int) -> Seq<FindingV>
    decreases k,
{
    if k <= 0 {
        Seq::empty()
    } else {
        path_check_spec(notes, disk, k - 1) + note_path_findings(
            notes[k - 1],
            disk,
            notes[k - 1].path_refs@.len() as int,
        )
    }
}

/// The resolved paths one reference needs stat'd: root- and note-relative for a backticked token,
/// note-relative for a markdown link (only those inside the root).
pub open spec fn ref_targets(note: Note, pref: PathRef) -> Seq<Seq<char>> {
    let dir = dir_of(note.path@);
    let note_rel = match resolve_spec(dir, pref.target@) {
        Some(r) => seq![r],
        None => Seq::empty(),
    };
    if pref.code {
        (match resolve_spec(Seq::empty(), pref.target@) {
            Some(r) => seq![r],
            None => Seq::empty(),
        }) + note_rel
    } else {
        note_rel
    }
}

/// The stat targets of the first `m` references of `note`.
pub open spec fn note_targets(note: Note, m: int) -> Seq<Seq<char>>
    decreases m,
{
    if m <= 0 {
        Seq::empty()
    } else {
        note_targets(note, m - 1) + ref_targets(note, note.path_refs@[m - 1])
    }
}

/// The stat targets of the first `k` notes.
pub open spec fn targets_spec(notes: Seq<Note>, k: int) -> Seq<Seq<char>>
    decreases k,
{
    if k <= 0 {
        Seq::empty()
    } else {
        targets_spec(notes, k - 1) + note_targets(notes[k - 1], notes[k - 1].path_refs@.len() as int)
    }
}

/// A relative path that stays inside the vault but has no file.
fn dead_in_root(note: &Note, pref: &PathRef, resolved: &str) -> (f: Finding)
    ensures
        f@ == dead_spec(*note, *pref, resolved@),
{
    let f = Finding {
        rule_id: owned("link.broken.path"),
        severity: Severity::Warn,
        path: note.path.clone(),
        line: Some(pref.line),
        field: None,
        message: concat3("link to ", pref.target.as_str(), " resolves to no file"),
        evidence: crate::text::concat(resolved, " does not exist in the vault"),
        suggested_action: owned("fix the path, restore the file, or remove the reference"),
        source_rule: owned("vault-schema.toml#rules"),
        target: Some(pref.target.clone()),
        resolved_to: None,
        collision_members: Vec::new(),
        fingerprint: fingerprint("link.broken.path", note.path.as_str(), pref.target.as_str()),
    };
    assert(f@.collision_members =~= Seq::<Seq<char>>::empty());
    f
}

/// A path that escapes the vault root.
fn external(note: &Note, pref: &PathRef) -> (f: Finding)
    ensures
        f@ == external_spec(*note, *pref),
{
    let f = Finding {
        rule_id: owned("link.broken.path"),
        severity: Severity::Info,
        path: note.path.clone(),
        line: Some(pref.line),
        field: None,
        message: concat3("link to ", pref.target.as_str(), " points outside the vault root"),
        evidence: owned("external path, not stat'd (existence varies by environment)"),
        suggested_action: owned(
            "if it should be in the vault, fix the path; otherwise informational",
        ),
        source_rule: owned("vault-schema.toml#rules"),
        target: Some(pref.target.clone()),
        resolved_to: None,
        collision_members: Vec::new(),
        fingerprint: fingerprint("link.broken.path", note.path.as_str(), pref.target.as_str()),
    };
    assert(f@.collision_members =~= Seq::<Seq<char>>::empty());
    f
}

/// Whether `p` is one of the files on disk.
fn in_disk(disk: &[String], p: &String) -> (b: bool)
    ensures
        b == occurs(disk@, p@, disk@.len() as int),
{
    let mut i: usize = 0;
    while i < disk.len()
        invariant
            i <= disk@.len(),
            !occurs(disk@, p@, i as int),
        decreases disk.len() - i,
    {
        if str_eq(disk[i].as_str(), p.as_str()) {
            assert(disk@[i as int]@ == p@);
            return true;
        }
        i += 1;
    }
    false
}

/// Whether `r` names a file on disk.
fn is_on_disk(disk: &[String], r: &Option<String>) -> (b: bool)
    ensures
        b == on_disk(disk@, crate::model::opt_chars(*r)),
{
    match r {
        Some(p) => in_disk(disk, p),
        None => false,
    }
}

/// The finding (if any) for one path reference of `note`.
fn classify(note: &Note, dir: &str, pref: &PathRef, disk: &[String]) -> (r: Option<Finding>)
    requires
        dir@ == dir_of(note.path@),
    ensures
        match classify_spec(*note, *pref, disk@) {
            Some(f) => r is Some && r->0@ == f,
            None => r is None,
        },
{
    if pref.code {
        let root_rel = resolve_within_root("", pref.target.as_str());
        proof {
            reveal_strlit("");
        }
        let note_rel = resolve_within_root(dir, pref.target.as_str());
        if is_on_disk(disk, &root_rel) || is_on_disk(disk, &note_rel) {
            return None;
        }
        match root_rel {
            Some(rr) => Some(dead_in_root(note, pref, rr.as_str())),
            None => None,
        }
    } else {
        let rel = resolve_within_root(dir, pref.target.as_str());
        match rel {
            None => Some(external(note, pref)),
            Some(r) => {
                let found = is_on_disk(disk, &Some(r.clone()));
                if found {
                    None
                } else {
                    Some(dead_in_root(note, pref, r.as_str()))
                }
            },
        }
    }
}

/// Check every note's path references against the files that exist (`disk`, vault-relative):
/// a reference that stays inside the root but names no file is dead (`Warn`); one that escapes
/// the root is external (`Info`).
pub fn check(notes: &[Note], disk: &[String]) -> (out: Vec<Finding>)
    ensures
        findings_view(out@) == path_check_spec(notes@, disk@, notes@.len() as int),
{
    let mut out: Vec<Finding> = Vec::new();
    let mut i: usize = 0;
    assert(findings_view(out@) =~= path_check_spec(notes@, disk@, 0));
    while i < notes.len()
        invariant
            i <= notes@.len(),
            findings_view(out@) == path_check_spec(notes@, disk@, i as int),
        decreases notes.len() - i,
    {
        let note = &notes[i];
        let dir = note_dir(note.path.as_str());
        let ghost base = findings_view(out@);
        let mut j: usize = 0;
        assert(base =~= base + note_path_findings(*note, disk@, 0));
        while j < note.path_refs.len()
            invariant
                j <= note.path_refs@.len(),
                dir@ == dir_of(note.path@),
                findings_view(out@) == base + note_path_findings(*note, disk@, j as int),
            decreases note.path_refs.len() - j,
        {
            let ghost prev = out@;
            match classify(note, dir.as_str(), &note.path_refs[j], disk) {
                Some(f) => {
                    out.push(f);
                    assert(findings_view(out@) =~= findings_view(prev).push(f@));
                },
                None => {},
            }
            j += 1;
            assert(findings_view(out@) =~= base + note_path_findings(*note, disk@, j as int));
        }
        i += 1;
        assert(findings_view(out@) =~= path_check_spec(notes@, disk@, i as int));
    }
    out
}

/// Every vault-relative path [`check`] needs to know exists or not, in check order (with
/// repeats): stat these and pass back the ones that exist.
pub fn stat_targets(notes: &[Note]) -> (out: Vec<String>)
    ensures
        string_views(out@) == targets_spec(notes@, notes@.len() as int),
{
    let mut out: Vec<String> = Vec::new();
    let mut i: usize = 0;
    assert(string_views(out@) =~= targets_spec(notes@, 0));
    while i < notes.len()
        invariant
            i <= notes@.len(),
            string_views(out@) == targets_spec(notes@, i as int),
        decreases notes.len() - i,
    {
        let note = &notes[i];
        let dir = note_dir(note.path.as_str());
        let ghost base = string_views(out@);
        let mut j: usize = 0;
        assert(base =~= base + note_targets(*note, 0));
        while j < note.path_refs.len()
            invariant
                j <= note.path_refs@.len(),
                dir@ == dir_of(note.path@),
                string_views(out@) == base + note_targets(*note, j as int),
            decreases note.path_refs.len() - j,
        {
            let pref = &note.path_refs[j];
            let ghost prev = string_views(out@);
            if pref.code {
                let root_rel = resolve_within_root("", pref.target.as_str());
                proof {
                    reveal_strlit("");
                }
                if let Some(r) = root_rel {
                    out.push(r);
                }
            }
            let ghost mid = string_views(out@);
            let note_rel = resolve_within_root(dir.as_str(), pref.target.as_str());
            if let Some(r) = note_rel {
                out.push(r);
            }
            assert(string_views(out@) =~= prev + ref_targets(*note, *pref));
            j += 1;
            assert(string_views(out@) =~= base + note_targets(*note, j as int));
        }
        i += 1;
        assert(string_views(out@) =~= targets_spec(notes@, i as int));
    }
    out
}

} // verus!
