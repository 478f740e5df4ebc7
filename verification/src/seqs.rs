//! Facts about filtering sequences whose elements are split by a predicate.
use vstd::prelude::*;

verus! {

/// Filtering keeps exactly a prefix when the predicate holds on that prefix and
/// fails on the rest.
pub proof fn lemma_filter_is_prefix<T>(s: Seq<T>, pred: spec_fn(T) -> bool, j: int)
    requires
        0 <= j <= s.len(),
        forall|k: int| 0 <= k < j ==> #[trigger] pred(s[k]),
        forall|k: int| j <= k < s.len() ==> !(#[trigger] pred(s[k])),
    ensures
        s.filter(pred) == s.take(j),
    decreases s.len(),
{
    reveal(Seq::filter);
    if s.len() == 0 {
        assert(s.take(j) =~= s);
    } else if j == s.len() {
        lemma_filter_is_prefix(s.drop_last(), pred, j - 1);
        assert(pred(s[s.len() - 1]));
        assert(s.drop_last().take(j - 1).push(s.last()) =~= s.take(j));
    } else {
        lemma_filter_is_prefix(s.drop_last(), pred, j);
        assert(!pred(s[s.len() - 1]));
        assert(s.drop_last().take(j) =~= s.take(j));
    }
}

/// Filtering keeps exactly a suffix when the predicate fails on the elements
/// before it and holds on the suffix.
pub proof fn lemma_filter_is_suffix<T>(s: Seq<T>, pred: spec_fn(T) -> bool, j: int)
    requires
        0 <= j <= s.len(),
        forall|k: int| 0 <= k < j ==> !(#[trigger] pred(s[k])),
        forall|k: int| j <= k < s.len() ==> #[trigger] pred(s[k]),
    ensures
        s.filter(pred) == s.skip(j),
    decreases s.len(),
{
    reveal(Seq::filter);
    if s.len() == 0 {
        assert(s.skip(j) =~= s);
    } else if j == s.len() {
        lemma_filter_is_suffix(s.drop_last(), pred, j - 1);
        assert(!pred(s[s.len() - 1]));
        assert(s.drop_last().skip(j - 1) =~= s.skip(j));
    } else {
        lemma_filter_is_suffix(s.drop_last(), pred, j);
        assert(pred(s[s.len() - 1]));
        assert(s.drop_last().skip(j).push(s.last()) =~= s.skip(j));
    }
}

} // verus!
