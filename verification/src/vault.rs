//! The result of walking a vault tree: markdown files parsed into notes, other linkable files as
//! resources. Walking the disk is the caller's part; this module fixes the canonical path keys and
//! the deterministic order.
//!
//! Both lists feed the symbol table: Obsidian resolves `[[X.canvas]]` to a canvas/attachment on
//! disk, so a resolver that omits resources would report a resolvable link as broken.

use vstd::prelude::*;

use crate::model::Note;
use crate::ranked::{insert_ranked, sorted_ranked, Ranked};
use crate::text::{
    chars_of, lemma_seq_lt_total, lemma_seq_lt_trans, nfc, nfc_of, seq_le, seq_lt, sort_strings,
    sorted_le, str_eq, str_lt, string_of, string_views,
};

verus! {

/// Result of one walk: parsed markdown notes plus the relative paths of non-md linkable files.
#[derive(Debug, Clone)]
pub struct Walk {
    pub notes: Vec<Note>,
    /// Vault-relative paths of non-md linkable files (canvas, images, pdf, base, ...).
    pub resources: Vec<String>,
}

impl Ranked for Note {
    /// By path.
    open spec fn ranks_le(&self, other: &Self) -> bool {
        seq_le(self.path@, other.path@)
    }

    proof fn lemma_ranks_total(a: &Self, b: &Self) {
        lemma_seq_lt_total(a.path@, b.path@);
    }

    proof fn lemma_ranks_trans(a: &Self, b: &Self, c: &Self) {
        if seq_lt(a.path@, b.path@) && seq_lt(b.path@, c.path@) {
            lemma_seq_lt_trans(a.path@, b.path@, c.path@);
        }
    }

    fn ranks_before(&self, other: &Self) -> (r: bool) {
        str_lt(self.path.as_str(), other.path.as_str()) || str_eq(
            self.path.as_str(),
            other.path.as_str(),
        )
    }
}

impl Walk {
    /// The walk with both lists sorted by path, for deterministic output.
    pub fn sorted(notes: Vec<Note>, resources: Vec<String>) -> (w: Walk)
        ensures
            sorted_ranked(w.notes@),
            w.notes@.to_multiset() == notes@.to_multiset(),
            sorted_le(string_views(w.resources@)),
            string_views(w.resources@).to_multiset() == string_views(resources@).to_multiset(),
    {
        let mut rest = notes;
        let ghost all = rest@;
        let mut out: Vec<Note> = Vec::new();
        proof {
            broadcast use vstd::seq_lib::group_to_multiset_ensures;
            broadcast use vstd::multiset::group_multiset_axioms;

            assert(out@.to_multiset() =~= vstd::multiset::Multiset::empty());
            assert(rest@.to_multiset().add(out@.to_multiset()) =~= all.to_multiset());
        }
        while rest.len() > 0
            invariant
                sorted_ranked(out@),
                rest@.to_multiset().add(out@.to_multiset()) == all.to_multiset(),
            decreases rest.len(),
        {
            let ghost before = rest@;
            let ghost o0 = out@;
            let x = rest.remove(0);
            proof {
                assert(before =~= seq![x] + rest@);
                vstd::seq_lib::lemma_multiset_commutative(seq![x], rest@);
            }
            let p = insert_ranked(&mut out, x);
            proof {
                broadcast use vstd::multiset::group_multiset_axioms;
                broadcast use vstd::seq_lib::group_to_multiset_ensures;

                vstd::seq_lib::to_multiset_insert(o0, p as int, x);
                assert(rest@.to_multiset().add(out@.to_multiset()) =~= all.to_multiset());
            }
        }
        proof {
            broadcast use vstd::seq_lib::group_to_multiset_ensures;
            broadcast use vstd::multiset::group_multiset_axioms;
            broadcast use vstd::multiset::lemma_multiset_empty_len;

            assert(rest@.to_multiset().len() == 0);
            assert(rest@.to_multiset() =~= vstd::multiset::Multiset::empty());
            assert(out@.to_multiset() =~= all.to_multiset());
        }
        Walk { notes: out, resources: sort_strings(resources) }
    }
}

/// `s` with every `from` replaced by `/`.
pub open spec fn with_forward_slashes(s: Seq<char>, from: char) -> Seq<char> {
    s.map_values(|c: char| if c == from { '/' } else { c })
}

/// Vault-relative path as a forward-slash, NFC-normalized string (Obsidian's canonical form;
/// stable regardless of the filesystem storing names as NFD). `separator` is the platform's path
/// separator.
pub fn relative_key(rel: &str, separator: char) -> (out: String)
    ensures
        out@ == nfc_of(with_forward_slashes(rel@, separator)),
{
    let v = chars_of(rel);
    let mut w: Vec<char> = Vec::new();
    let mut i: usize = 0;
    while i < v.len()
        invariant
            i <= v@.len(),
            v@ == rel@,
            w@ == with_forward_slashes(v@.take(i as int), separator),
        decreases v.len() - i,
    {
        let c = v[i];
        w.push(if c == separator { '/' } else { c });
        i += 1;
        assert(w@ =~= with_forward_slashes(v@.take(i as int), separator));
    }
    assert(v@.take(v@.len() as int) =~= v@);
    let slashed = string_of(w.as_slice());
    nfc(slashed.as_str())
}

} // verus!
