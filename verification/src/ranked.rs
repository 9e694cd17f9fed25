//! A total preorder on report rows and a sorted insertion that keeps it.

use vstd::prelude::*;

verus! {

/// Values ordered by a total preorder `ranks_le` (`a` may come before `b`).
pub trait Ranked: Sized {
    spec fn ranks_le(&self, other: &Self) -> bool;

    proof fn lemma_ranks_total(a: &Self, b: &Self)
        ensures
            a.ranks_le(b) || b.ranks_le(a),
    ;

    proof fn lemma_ranks_trans(a: &Self, b: &Self, c: &Self)
        requires
            a.ranks_le(b),
            b.ranks_le(c),
        ensures
            a.ranks_le(c),
    ;

    /// Exec form of [`Ranked::ranks_le`].
    fn ranks_before(&self, other: &Self) -> (r: bool)
        ensures
            r == self.ranks_le(other),
    ;
}

/// Every element ranks at or before every later one.
pub open spec fn sorted_ranked<T: Ranked>(s: Seq<T>) -> bool {
    forall|i: int, j: int| #![trigger s[i], s[j]] 0 <= i < j < s.len() ==> s[i].ranks_le(&s[j])
}

/// Insert `x` after every element that ranks at or before it; the vector stays sorted.
pub fn insert_ranked<T: Ranked>(v: &mut Vec<T>, x: T) -> (p: usize)
    requires
        sorted_ranked(old(v)@),
    ensures
        p <= old(v)@.len(),
        final(v)@ == old(v)@.insert(p as int, x),
        sorted_ranked(final(v)@),
{
    let mut p: usize = 0;
    while p < v.len() && v[p].ranks_before(&x)
        invariant
            p <= v@.len(),
            forall|k: int| 0 <= k < p ==> (#[trigger] v@[k]).ranks_le(&x),
        decreases v.len() - p,
    {
        p += 1;
    }
    let ghost s0 = v@;
    v.insert(p, x);
    proof {
        let s = v@;
        if p < s0.len() {
            T::lemma_ranks_total(&s0[p as int], &x);
        }
        assert forall|i: int, j: int| #![trigger s[i], s[j]] 0 <= i < j < s.len() implies s[i].ranks_le(
            &s[j],
        ) by {
            if j < p {
                assert(s[i] == s0[i] && s[j] == s0[j]);
            } else if j == p {
                assert(s[i] == s0[i]);
            } else if i == p {
                assert(s[j] == s0[j - 1]);
                if j - 1 > p {
                    assert(s0[p as int].ranks_le(&s0[j - 1]));
                    T::lemma_ranks_trans(&x, &s0[p as int], &s0[j - 1]);
                }
            } else if i < p {
                assert(s[i] == s0[i] && s[j] == s0[j - 1]);
            } else {
                assert(s[i] == s0[i - 1] && s[j] == s0[j - 1]);
            }
        }
    }
    p
}

/// Whether `x`'s key occurs among the keys of `s`.
pub open spec fn has_key<T>(s: Seq<T>, key: spec_fn(T) -> Seq<char>, k: Seq<char>) -> bool {
    exists|i: int| 0 <= i < s.len() && key(#[trigger] s[i]) == k
}

/// The keys of `s` are pairwise distinct.
pub open spec fn distinct_keys<T>(s: Seq<T>, key: spec_fn(T) -> Seq<char>) -> bool {
    forall|i: int, j: int| #![trigger s[i], s[j]] 0 <= i < j < s.len() ==> key(s[i]) != key(s[j])
}

/// Two sorted lists with distinct keys, the same key set, and elements determined by their key
/// (up to `eqv`, which the order respects, and which ranks both ways only on equal keys) agree
/// element by element.
pub proof fn lemma_sorted_unique<T: Ranked>(
    a: Seq<T>,
    b: Seq<T>,
    key: spec_fn(T) -> Seq<char>,
    eqv: spec_fn(T, T) -> bool,
)
    requires
        sorted_ranked(a),
        sorted_ranked(b),
        distinct_keys(a, key),
        distinct_keys(b, key),
        forall|i: int| 0 <= i < a.len() ==> has_key(b, key, key(#[trigger] a[i])),
        forall|i: int| 0 <= i < b.len() ==> has_key(a, key, key(#[trigger] b[i])),
        forall|x: T, y: T| key(x) == key(y) && #[trigger] a.contains(x) && #[trigger] b.contains(y)
            ==> eqv(x, y),
        forall|x: T, y: T, z: T| #[trigger] eqv(x, y) && #[trigger] z.ranks_le(&x) ==> z.ranks_le(&y),
        forall|x: T, y: T, z: T| #[trigger] eqv(x, y) && #[trigger] x.ranks_le(&z) ==> y.ranks_le(&z),
        forall|x: T, y: T| #[trigger] x.ranks_le(&y) && #[trigger] y.ranks_le(&x) ==> key(x) == key(y),
    ensures
        a.len() == b.len(),
        forall|i: int| 0 <= i < a.len() ==> eqv(#[trigger] a[i], b[i]),
    decreases a.len() + b.len(),
{
    if a.len() == 0 || b.len() == 0 {
        if a.len() > 0 {
            assert(has_key(b, key, key(a[0])));
        }
        if b.len() > 0 {
            assert(has_key(a, key, key(b[0])));
        }
    } else {
        let a0 = a[0];
        let b0 = b[0];
        assert(has_key(b, key, key(a0)));
        let j = choose|j: int| 0 <= j < b.len() && key(#[trigger] b[j]) == key(a0);
        assert(b.contains(b[j]) && a.contains(a0));
        assert(eqv(a0, b[j]));
        assert(has_key(a, key, key(b0)));
        let i = choose|i: int| 0 <= i < a.len() && key(#[trigger] a[i]) == key(b0);
        assert(a.contains(a[i]) && b.contains(b0));
        assert(eqv(a[i], b0));
        T::lemma_ranks_total(&a0, &a0);
        T::lemma_ranks_total(&b0, &b0);
        // b0 ranks at or before b[j], which is a0's equal; a0 ranks at or before a[i], b0's equal.
        if j > 0 {
            assert(b0.ranks_le(&b[j]));
        }
        if i > 0 {
            assert(a0.ranks_le(&a[i]));
        }
        assert(a0.ranks_le(&b0));
        assert(b0.ranks_le(&a0));
        assert(key(a0) == key(b0));
        if j != 0 {
            assert(key(b[0]) != key(b[j]));
        }
        assert(eqv(a0, b0));
        let at = a.drop_first();
        let bt = b.drop_first();
        assert forall|p: int, q: int| #![trigger at[p], at[q]] 0 <= p < q < at.len() implies at[p].ranks_le(
            &at[q],
        ) by {
            assert(at[p] == a[p + 1] && at[q] == a[q + 1]);
        }
        assert forall|p: int, q: int| #![trigger bt[p], bt[q]] 0 <= p < q < bt.len() implies bt[p].ranks_le(
            &bt[q],
        ) by {
            assert(bt[p] == b[p + 1] && bt[q] == b[q + 1]);
        }
        assert forall|p: int, q: int| #![trigger at[p], at[q]] 0 <= p < q < at.len() implies key(at[p])
            != key(at[q]) by {
            assert(at[p] == a[p + 1] && at[q] == a[q + 1]);
        }
        assert forall|p: int, q: int| #![trigger bt[p], bt[q]] 0 <= p < q < bt.len() implies key(bt[p])
            != key(bt[q]) by {
            assert(bt[p] == b[p + 1] && bt[q] == b[q + 1]);
        }
        assert forall|p: int| 0 <= p < at.len() implies has_key(bt, key, key(#[trigger] at[p])) by {
            assert(at[p] == a[p + 1]);
            assert(key(a[p + 1]) != key(a[0]));
            assert(has_key(b, key, key(a[p + 1])));
            let q = choose|q: int| 0 <= q < b.len() && key(#[trigger] b[q]) == key(a[p + 1]);
            assert(q != 0);
            assert(bt[q - 1] == b[q]);
        }
        assert forall|p: int| 0 <= p < bt.len() implies has_key(at, key, key(#[trigger] bt[p])) by {
            assert(bt[p] == b[p + 1]);
            assert(key(b[p + 1]) != key(b[0]));
            assert(has_key(a, key, key(b[p + 1])));
            let q = choose|q: int| 0 <= q < a.len() && key(#[trigger] a[q]) == key(b[p + 1]);
            assert(q != 0);
            assert(at[q - 1] == a[q]);
        }
        assert forall|x: T, y: T| key(x) == key(y) && #[trigger] at.contains(x) && #[trigger] bt.contains(y)
            implies eqv(x, y) by {
            let p = choose|p: int| 0 <= p < at.len() && at[p] == x;
            let q = choose|q: int| 0 <= q < bt.len() && bt[q] == y;
            assert(a[p + 1] == x && b[q + 1] == y);
            assert(a.contains(x) && b.contains(y));
        }
        lemma_sorted_unique(at, bt, key, eqv);
        assert forall|p: int| 0 <= p < a.len() implies eqv(#[trigger] a[p], b[p]) by {
            if p > 0 {
                assert(a[p] == at[p - 1] && b[p] == bt[p - 1]);
            }
        }
    }
}

} // verus!
