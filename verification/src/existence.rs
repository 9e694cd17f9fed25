//! A deterministic "does a note for this name already exist?" oracle, for dedup-before-write.
//!
//! Deliberately wider than the resolver: a writer searches by filename, title, alias, or English
//! title, so all four are matched (the resolver excludes the title because Obsidian does not
//! resolve by it). Each hit reports which field matched. The error-cost is the opposite of the
//! resolver's: a false "no" makes an agent write a duplicate, so this over-recalls.

use vstd::prelude::*;
use vstd::seq_lib::{to_multiset_build, to_multiset_insert};

use crate::graph::{filename_stem, filename_stem_spec, normalize, normalize_spec, Graph};
use crate::model::Note;
use crate::text::{lemma_seq_lt_asym, lemma_seq_lt_irreflexive, lemma_seq_lt_total,
    lemma_seq_lt_trans, seq_lt, str_eq, str_lt};

verus! {

/// One note that exposes the queried name, and the field it matched on.
#[derive(Debug)]
pub struct Match {
    pub path: String,
    pub field: &'static str,
    pub value: String,
}

impl View for Match {
    type V = (Seq<char>, Seq<char>, Seq<char>);

    open spec fn view(&self) -> (Seq<char>, Seq<char>, Seq<char>) {
        (self.path@, self.field@, self.value@)
    }
}

/// The result of an existence query.
#[derive(Debug)]
pub struct Report {
    pub query: String,
    pub matches: Vec<Match>,
}

impl Report {
    /// Whether any note exposes the queried name.
    pub fn found(&self) -> (r: bool)
        ensures
            r == (self.matches@.len() > 0),
    {
        self.matches.len() > 0
    }
}

/// One hit when `value` normalizes to `key`.
pub open spec fn hit_if(path: Seq<char>, field: Seq<char>, value: Seq<char>, key: Seq<char>) -> Seq<
    (Seq<char>, Seq<char>, Seq<char>),
> {
    if normalize_spec(value) == key {
        seq![(path, field, value)]
    } else {
        Seq::empty()
    }
}

/// The alias hits among the first `m` aliases of `n`.
pub open spec fn alias_hits(n: Note, key: Seq<char>, m: int) -> Seq<(Seq<char>, Seq<char>, Seq<char>)>
    decreases m,
{
    if m <= 0 {
        Seq::empty()
    } else {
        alias_hits(n, key, m - 1) + hit_if(n.path@, "alias"@, n.aliases@[m - 1]@, key)
    }
}

/// Every field of `n` that exposes `key`: filename stem, title, aliases, English title.
pub open spec fn note_hits(n: Note, key: Seq<char>) -> Seq<(Seq<char>, Seq<char>, Seq<char>)> {
    hit_if(n.path@, "filename"@, filename_stem_spec(n.path@), key) + match n.title {
        Some(t) => hit_if(n.path@, "title"@, t@, key),
        None => Seq::empty(),
    } + alias_hits(n, key, n.aliases@.len() as int) + match n.title_en {
        Some(t) => hit_if(n.path@, "title_en"@, t@, key),
        None => Seq::empty(),
    }
}

/// The hits of the first `i` notes.
pub open spec fn hits_upto(notes: Seq<Note>, key: Seq<char>, i: int) -> Seq<
    (Seq<char>, Seq<char>, Seq<char>),
>
    decreases i,
{
    if i <= 0 {
        Seq::empty()
    } else {
        hits_upto(notes, key, i - 1) + note_hits(notes[i - 1], key)
    }
}

/// Order of matches: by path, then field name.
pub open spec fn match_lt(a: (Seq<char>, Seq<char>, Seq<char>), b: (Seq<char>, Seq<char>, Seq<char>)) -> bool {
    seq_lt(a.0, b.0) || (a.0 == b.0 && seq_lt(a.1, b.1))
}

/// Sorted by (path, field).
pub open spec fn matches_sorted(s: Seq<(Seq<char>, Seq<char>, Seq<char>)>) -> bool {
    forall|i: int, j: int| 0 <= i < j < s.len() ==> !match_lt(#[trigger] s[j], #[trigger] s[i])
}

/// Character views of matches.
pub open spec fn match_views(s: Seq<Match>) -> Seq<(Seq<char>, Seq<char>, Seq<char>)> {
    s.map_values(|m: Match| m@)
}

proof fn lemma_match_order(
    a: (Seq<char>, Seq<char>, Seq<char>),
    b: (Seq<char>, Seq<char>, Seq<char>),
    c: (Seq<char>, Seq<char>, Seq<char>),
)
    ensures
        match_lt(a, b) ==> !match_lt(b, a),
        !match_lt(b, a) && !match_lt(c, b) ==> !match_lt(c, a),
{
    lemma_seq_lt_irreflexive(a.0);
    lemma_seq_lt_asym(a.0, b.0);
    lemma_seq_lt_asym(a.1, b.1);
    lemma_seq_lt_total(a.0, b.0);
    lemma_seq_lt_total(b.0, c.0);
    lemma_seq_lt_total(a.1, b.1);
    lemma_seq_lt_total(b.1, c.1);
    if seq_lt(c.0, a.0) {
        if seq_lt(a.0, b.0) {
            lemma_seq_lt_trans(c.0, a.0, b.0);
        }
        if seq_lt(b.0, c.0) {
            lemma_seq_lt_trans(b.0, c.0, a.0);
        }
    }
    if c.0 == a.0 && seq_lt(c.1, a.1) {
        if seq_lt(a.1, b.1) {
            lemma_seq_lt_trans(c.1, a.1, b.1);
        }
        if seq_lt(b.1, c.1) {
            lemma_seq_lt_trans(b.1, c.1, a.1);
        }
        if seq_lt(b.0, c.0) && seq_lt(c.0, b.0) {
            lemma_seq_lt_asym(b.0, c.0);
        }
    }
    if seq_lt(c.0, b.0) && seq_lt(b.0, a.0) {
        lemma_seq_lt_trans(c.0, b.0, a.0);
    }
    if seq_lt(b.0, a.0) && seq_lt(a.0, b.0) {
        lemma_seq_lt_asym(a.0, b.0);
    }
    if seq_lt(c.1, b.1) && seq_lt(b.1, a.1) {
        lemma_seq_lt_trans(c.1, b.1, a.1);
    }
}

/// The matches of `s` on the same note and field as `x`, in order.
pub open spec fn match_class(
    s: Seq<(Seq<char>, Seq<char>, Seq<char>)>,
    x: (Seq<char>, Seq<char>, Seq<char>),
) -> Seq<(Seq<char>, Seq<char>, Seq<char>)> {
    s.filter(|m: (Seq<char>, Seq<char>, Seq<char>)| m.0 == x.0 && m.1 == x.1)
}

proof fn lemma_match_class_single(
    f: (Seq<char>, Seq<char>, Seq<char>),
    x: (Seq<char>, Seq<char>, Seq<char>),
)
    ensures
        match_class(seq![f], x) == if f.0 == x.0 && f.1 == x.1 {
            seq![f]
        } else {
            Seq::empty()
        },
{
    reveal_with_fuel(Seq::filter, 2);
    assert(seq![f].drop_last() =~= Seq::<(Seq<char>, Seq<char>, Seq<char>)>::empty());
    assert(seq![f].last() == f);
    if f.0 == x.0 && f.1 == x.1 {
        assert(Seq::<(Seq<char>, Seq<char>, Seq<char>)>::empty().push(f) =~= seq![f]);
    }
}

proof fn lemma_match_class_insert(
    s0: Seq<(Seq<char>, Seq<char>, Seq<char>)>,
    p: int,
    f: (Seq<char>, Seq<char>, Seq<char>),
    tail: Seq<(Seq<char>, Seq<char>, Seq<char>)>,
)
    requires
        0 <= p <= s0.len(),
        forall|k: int| 0 <= k < p ==> match_lt(#[trigger] s0[k], f),
        forall|x: (Seq<char>, Seq<char>, Seq<char>)| #[trigger] match_class(s0, x) == match_class(
            tail,
            x,
        ),
    ensures
        forall|x: (Seq<char>, Seq<char>, Seq<char>)| #[trigger] match_class(s0.insert(p, f), x)
            == match_class(seq![f] + tail, x),
{
    assert forall|x: (Seq<char>, Seq<char>, Seq<char>)| #[trigger] match_class(s0.insert(p, f), x)
        == match_class(seq![f] + tail, x) by {
        let pred = |m: (Seq<char>, Seq<char>, Seq<char>)| m.0 == x.0 && m.1 == x.1;
        let a = s0.take(p);
        let b = s0.skip(p);
        assert(s0.insert(p, f) =~= a + (seq![f] + b));
        assert(s0 =~= a + b);
        Seq::filter_distributes_over_add(a, seq![f] + b, pred);
        Seq::filter_distributes_over_add(seq![f], b, pred);
        Seq::filter_distributes_over_add(a, b, pred);
        Seq::filter_distributes_over_add(seq![f], tail, pred);
        lemma_match_class_single(f, x);
        assert(match_class(s0, x) == match_class(a, x) + match_class(b, x));
        assert(match_class(tail, x) == match_class(s0, x));
        if f.0 == x.0 && f.1 == x.1 {
            if a.filter(pred).len() > 0 {
                let g = a.filter(pred)[0];
                a.lemma_filter_pred(pred, 0);
                assert(a.filter(pred).contains(g));
                a.lemma_filter_contains_rev(pred, g);
                let k = choose|k: int| 0 <= k < a.len() && a[k] == g;
                assert(s0[k] == a[k]);
                assert(match_lt(s0[k], f));
                lemma_seq_lt_irreflexive(f.0);
                lemma_seq_lt_irreflexive(f.1);
            }
            assert(a.filter(pred) =~= Seq::<(Seq<char>, Seq<char>, Seq<char>)>::empty());
        }
        assert(match_class(a, x) + (match_class(seq![f], x) + match_class(b, x)) =~= match_class(
            seq![f],
            x,
        ) + (match_class(a, x) + match_class(b, x)));
    }
}

fn match_lt_exec(a: &Match, b: &Match) -> (r: bool)
    ensures
        r == match_lt(a@, b@),
{
    str_lt(a.path.as_str(), b.path.as_str()) || (str_eq(a.path.as_str(), b.path.as_str())
        && str_lt(a.field, b.field))
}

fn hit(note: &Note, field: &'static str, value: &str) -> (m: Match)
    ensures
        m@ == (note.path@, field@, value@),
{
    Match { path: note.path.clone(), field, value: value.to_owned() }
}

/// Append the hit when `value` normalizes to `key`.
fn push_if(out: &mut Vec<Match>, note: &Note, field: &'static str, value: &str, key: &String)
    ensures
        match_views(final(out)@) == match_views(old(out)@) + hit_if(note.path@, field@, value@, key@),
{
    let ghost before = match_views(out@);
    if normalize(value) == *key {
        out.push(hit(note, field, value));
        assert(match_views(out@) =~= before + hit_if(note.path@, field@, value@, key@));
    } else {
        assert(match_views(out@) =~= before + hit_if(note.path@, field@, value@, key@));
    }
}

/// Look `query` up across every note's filename, title, aliases, and English title. Matches come
/// sorted by (path, field).
pub fn lookup(graph: &Graph, query: &str) -> (r: Report)
    ensures
        r.query@ == query@,
        matches_sorted(match_views(r.matches@)),
        match_views(r.matches@).to_multiset() == hits_upto(
            graph.notes@,
            normalize_spec(query@),
            graph.notes@.len() as int,
        ).to_multiset(),
        forall|x: (Seq<char>, Seq<char>, Seq<char>)| #[trigger] match_class(
            match_views(r.matches@),
            x,
        ) == match_class(
            hits_upto(graph.notes@, normalize_spec(query@), graph.notes@.len() as int),
            x,
        ),
{
    let key = normalize(query);
    let mut found: Vec<Match> = Vec::new();
    let mut i: usize = 0;
    while i < graph.notes.len()
        invariant
            i <= graph.notes.len(),
            key@ == normalize_spec(query@),
            match_views(found@) == hits_upto(graph.notes@, key@, i as int),
        decreases graph.notes.len() - i,
    {
        let note = &graph.notes[i];
        let ghost before = match_views(found@);
        let stem = filename_stem(note.path.as_str());
        push_if(&mut found, note, "filename", stem.as_str(), &key);
        match &note.title {
            Some(t) => push_if(&mut found, note, "title", t.as_str(), &key),
            None => {},
        }
        let ghost mid = match_views(found@);
        let mut a: usize = 0;
        while a < note.aliases.len()
            invariant
                a <= note.aliases.len(),
                match_views(found@) == mid + alias_hits(*note, key@, a as int),
            decreases note.aliases.len() - a,
        {
            push_if(&mut found, note, "alias", note.aliases[a].as_str(), &key);
            a += 1;
            assert(match_views(found@) =~= mid + alias_hits(*note, key@, a as int));
        }
        match &note.title_en {
            Some(t) => push_if(&mut found, note, "title_en", t.as_str(), &key),
            None => {},
        }
        proof {
            reveal_strlit("filename");
            assert(match_views(found@) =~= hits_upto(graph.notes@, key@, i + 1));
        }
        i += 1;
    }
    // Sort by (path, field).
    let ghost all = match_views(found@);
    let mut sorted: Vec<Match> = Vec::new();
    proof {
        broadcast use vstd::seq_lib::group_to_multiset_ensures;
        broadcast use vstd::multiset::group_multiset_axioms;
        broadcast use vstd::multiset::lemma_multiset_empty_len;

        assert(match_views(sorted@).to_multiset().len() == 0);
        assert(match_views(sorted@).to_multiset() =~= vstd::multiset::Multiset::empty());
        assert(match_views(found@).to_multiset().add(match_views(sorted@).to_multiset())
            =~= all.to_multiset());
    }
    proof {
        assert(all.skip(all.len() as int) =~= Seq::<(Seq<char>, Seq<char>, Seq<char>)>::empty());
        assert(match_views(found@) =~= all.take(all.len() as int));
        assert forall|x: (Seq<char>, Seq<char>, Seq<char>)| #[trigger] match_class(
            match_views(sorted@),
            x,
        ) == match_class(all.skip(found@.len() as int), x) by {
            assert(match_views(sorted@) =~= Seq::<(Seq<char>, Seq<char>, Seq<char>)>::empty());
        }
    }
    while found.len() > 0
        invariant
            matches_sorted(match_views(sorted@)),
            match_views(found@).to_multiset().add(match_views(sorted@).to_multiset())
                == all.to_multiset(),
            found@.len() <= all.len(),
            match_views(found@) == all.take(found@.len() as int),
            forall|x: (Seq<char>, Seq<char>, Seq<char>)| #[trigger] match_class(
                match_views(sorted@),
                x,
            ) == match_class(all.skip(found@.len() as int), x),
        decreases found.len(),
    {
        let ghost before = found@;
        let ghost mlen = found@.len() as int;
        let m = found.pop().unwrap();
        proof {
            assert(match_views(before) =~= match_views(found@).push(m@));
            to_multiset_build(match_views(found@), m@);
            assert(match_views(before) == all.take(mlen));
            assert(match_views(before)[mlen - 1] == m@);
            assert(match_views(found@) =~= all.take(mlen - 1));
            assert(all.take(mlen)[mlen - 1] == all[mlen - 1]);
            assert(m@ == all[mlen - 1]);
            assert(all.skip(mlen - 1) =~= seq![m@] + all.skip(mlen));
        }
        let mut p: usize = 0;
        while p < sorted.len() && match_lt_exec(&sorted[p], &m)
            invariant
                p <= sorted.len(),
                forall|k: int| 0 <= k < p ==> match_lt(#[trigger] match_views(sorted@)[k], m@),
            decreases sorted.len() - p,
        {
            p += 1;
        }
        let ghost s0 = match_views(sorted@);
        sorted.insert(p, m);
        proof {
            broadcast use vstd::multiset::group_multiset_axioms;

            let s = match_views(sorted@);
            assert(s =~= s0.insert(p as int, m@));
            lemma_match_class_insert(s0, p as int, m@, all.skip(mlen));
            to_multiset_insert(s0, p as int, m@);
            assert(match_views(found@).to_multiset().add(s.to_multiset()) =~= all.to_multiset());
            assert forall|i: int, j: int| 0 <= i < j < s.len() implies !match_lt(
                #[trigger] s[j],
                #[trigger] s[i],
            ) by {
                if j < p {
                    assert(s[i] == s0[i] && s[j] == s0[j]);
                } else if j == p {
                    assert(s[i] == s0[i]);
                    lemma_match_order(s0[i], m@, m@);
                } else if i == p {
                    assert(s[j] == s0[j - 1]);
                    if j - 1 > p {
                        assert(!match_lt(s0[j - 1], s0[p as int]));
                    }
                    lemma_match_order(m@, s0[p as int], s0[j - 1]);
                } else if i < p {
                    assert(s[i] == s0[i] && s[j] == s0[j - 1]);
                } else {
                    assert(s[i] == s0[i - 1] && s[j] == s0[j - 1]);
                }
            }
        }
    }
    proof {
        broadcast use vstd::seq_lib::group_to_multiset_ensures;
        broadcast use vstd::multiset::group_multiset_axioms;
        broadcast use vstd::multiset::lemma_multiset_empty_len;

        assert(match_views(found@).to_multiset().len() == 0);
        assert(match_views(found@).to_multiset() =~= vstd::multiset::Multiset::empty());
        assert(match_views(sorted@).to_multiset() =~= all.to_multiset());
        assert(all.skip(0) =~= all);
    }
    Report { query: query.to_owned(), matches: sorted }
}

} // verus!
