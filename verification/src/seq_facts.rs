//! Small general lemmas about sequence filtering used by the registry and
//! the router proofs.

use vstd::prelude::*;

verus! {

/// An element is in a filtered sequence exactly when it is in the original
/// sequence and satisfies the predicate.
pub proof fn lemma_filter_contains_iff<A>(s: Seq<A>, pred: spec_fn(A) -> bool, x: A)
    ensures
        s.filter(pred).contains(x) <==> s.contains(x) && pred(x),
{
    if s.filter(pred).contains(x) {
        let i = choose|i: int| 0 <= i < s.filter(pred).len() && s.filter(pred)[i] == x;
        Seq::lemma_filter_pred(s, pred, i);
        Seq::lemma_filter_contains_rev(s, pred, x);
    }
    if s.contains(x) && pred(x) {
        let i = choose|i: int| 0 <= i < s.len() && s[i] == x;
        Seq::lemma_filter_contains(s, pred, i);
    }
}

/// Filtering preserves the absence of duplicates.
pub proof fn lemma_filter_no_duplicates<A>(s: Seq<A>, pred: spec_fn(A) -> bool)
    requires
        s.no_duplicates(),
    ensures
        s.filter(pred).no_duplicates(),
    decreases s.len(),
{
    reveal(Seq::filter);
    if s.len() > 0 {
        let rest = s.drop_last();
        assert(rest.no_duplicates());
        lemma_filter_no_duplicates(rest, pred);
        if pred(s.last()) {
            let f = rest.filter(pred);
            if f.contains(s.last()) {
                Seq::lemma_filter_contains_rev(rest, pred, s.last());
                let i = choose|i: int| 0 <= i < rest.len() && rest[i] == s.last();
                assert(s[i] == s.last());
                assert(s[i] != s[s.len() - 1]);
            }
            assert forall|i: int, j: int|
                0 <= i < f.push(s.last()).len() && 0 <= j < f.push(s.last()).len() && i != j
                implies f.push(s.last())[i] != f.push(s.last())[j] by {
                if i < f.len() && j < f.len() {
                    assert(f[i] != f[j]);
                } else if j == f.len() && i < f.len() {
                    if f[i] == s.last() {
                        assert(f.contains(s.last()));
                    }
                } else if i == f.len() && j < f.len() {
                    if f[j] == s.last() {
                        assert(f.contains(s.last()));
                    }
                }
            }
        }
    }
}

} // verus!
