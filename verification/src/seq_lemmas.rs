//! Facts about sequences that several modules share.

use vstd::prelude::*;

verus! {

/// Filtering a sequence that was extended by one element: the element is
/// appended to the filtered sequence exactly if it passes.
pub proof fn lemma_filter_push<A>(s: Seq<A>, x: A, pred: spec_fn(A) -> bool)
    ensures
        s.push(x).filter(pred) == if pred(x) {
            s.filter(pred).push(x)
        } else {
            s.filter(pred)
        },
{
    reveal(Seq::filter);
    assert(s.push(x).drop_last() =~= s);
    assert(s.push(x).last() == x);
}

/// The filtered sequence holds exactly the elements of the sequence that pass.
pub proof fn lemma_filter_contains_iff<A>(s: Seq<A>, pred: spec_fn(A) -> bool, x: A)
    ensures
        s.filter(pred).contains(x) <==> (s.contains(x) && pred(x)),
    decreases s.len(),
{
    reveal(Seq::filter);
    if s.len() > 0 {
        let init = s.drop_last();
        lemma_filter_contains_iff(init, pred, x);
        let sub = init.filter(pred);
        let out = s.filter(pred);
        if out.contains(x) {
            let j = choose|j: int| 0 <= j < out.len() && out[j] == x;
            if pred(s.last()) && j == out.len() - 1 {
                assert(s[s.len() - 1] == x);
            } else {
                assert(sub[j] == x);
                assert(sub.contains(x));
                let i = choose|i: int| 0 <= i < init.len() && init[i] == x;
                assert(s[i] == x);
            }
        }
        if s.contains(x) && pred(x) {
            let i = choose|i: int| 0 <= i < s.len() && s[i] == x;
            if i == s.len() - 1 {
                assert(out[out.len() - 1] == x);
            } else {
                assert(init[i] == x);
                assert(init.contains(x));
                let j = choose|j: int| 0 <= j < sub.len() && sub[j] == x;
                assert(out[j] == x);
            }
        }
    }
}

/// Filtering keeps a sequence whose elements all pass.
pub proof fn lemma_filter_all<A>(s: Seq<A>, pred: spec_fn(A) -> bool)
    requires
        forall|i: int| 0 <= i < s.len() ==> pred(#[trigger] s[i]),
    ensures
        s.filter(pred) == s,
    decreases s.len(),
{
    reveal(Seq::filter);
    if s.len() > 0 {
        lemma_filter_all(s.drop_last(), pred);
        assert(s.drop_last().push(s.last()) =~= s);
    }
}

/// Every element either passes a predicate or passes its negation: the two
/// filtered sequences together are as long as the sequence.
pub proof fn lemma_filter_split_len<A>(s: Seq<A>, pred: spec_fn(A) -> bool, neg: spec_fn(A) -> bool)
    requires
        forall|x: A| #[trigger] neg(x) == !pred(x),
    ensures
        s.filter(pred).len() + s.filter(neg).len() == s.len(),
    decreases s.len(),
{
    reveal(Seq::filter);
    if s.len() > 0 {
        lemma_filter_split_len(s.drop_last(), pred, neg);
        assert(neg(s.last()) == !pred(s.last()));
    }
}

/// Filtering twice by one predicate is filtering once.
pub proof fn lemma_filter_idempotent<A>(s: Seq<A>, pred: spec_fn(A) -> bool)
    ensures
        s.filter(pred).filter(pred) == s.filter(pred),
{
    let once = s.filter(pred);
    assert forall|i: int| 0 <= i < once.len() implies pred(#[trigger] once[i]) by {
        assert(once.contains(once[i]));
        lemma_filter_contains_iff(s, pred, once[i]);
    }
    lemma_filter_all(once, pred);
}

} // verus!
