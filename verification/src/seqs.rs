//! General facts about sequences used by the engine's proofs.
use vstd::prelude::*;

verus! {

/// The last `n` elements of `s`, or all of `s` when it has fewer.
pub open spec fn keep_last<A>(s: Seq<A>, n: nat) -> Seq<A> {
    if s.len() <= n {
        s
    } else {
        s.skip(s.len() - n)
    }
}

/// Filtering by a predicate that no element meets gives nothing.
pub proof fn lemma_filter_none<A>(s: Seq<A>, pred: spec_fn(A) -> bool)
    requires
        forall|i: int| 0 <= i < s.len() ==> !pred(#[trigger] s[i]),
    ensures
        s.filter(pred) == Seq::<A>::empty(),
    decreases s.len(),
{
    if s.len() > 0 {
        let p = s.drop_last();
        assert(s == p.push(s.last()));
        p.lemma_filter_push(s.last(), pred);
        lemma_filter_none(p, pred);
    }
}

/// Filtering by a predicate that every element meets keeps everything.
pub proof fn lemma_filter_all<A>(s: Seq<A>, pred: spec_fn(A) -> bool)
    requires
        forall|i: int| 0 <= i < s.len() ==> pred(#[trigger] s[i]),
    ensures
        s.filter(pred) == s,
    decreases s.len(),
{
    if s.len() > 0 {
        let p = s.drop_last();
        assert(s == p.push(s.last()));
        p.lemma_filter_push(s.last(), pred);
        lemma_filter_all(p, pred);
    }
}

/// Keeping the last `n` before adding an element keeps the same last `n`.
pub proof fn lemma_keep_last_push<A>(s: Seq<A>, x: A, n: nat)
    requires
        n > 0,
    ensures
        keep_last(keep_last(s, n).push(x), n) == keep_last(s.push(x), n),
{
    if s.len() > n {
        assert(keep_last(s, n).push(x).skip(1) =~= s.push(x).skip(s.len() + 1 - n));
    }
}

} // verus!
