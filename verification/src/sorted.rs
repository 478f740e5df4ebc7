//! Facts about sequences ordered by a strict order.
use vstd::prelude::*;

verus! {

/// `s` is strictly increasing with respect to `lt`.
pub open spec fn strictly_sorted<T>(s: Seq<T>, lt: spec_fn(T, T) -> bool) -> bool {
    forall|i: int, j: int| 0 <= i < j < s.len() ==> #[trigger] lt(s[i], s[j])
}

/// `lt` is irreflexive and transitive.
pub open spec fn strict_order<T>(lt: spec_fn(T, T) -> bool) -> bool {
    &&& forall|a: T| !(#[trigger] lt(a, a))
    &&& forall|a: T, b: T, c: T| #[trigger] lt(a, b) && #[trigger] lt(b, c) ==> lt(a, c)
}

/// Two sequences that are strictly increasing under the same strict order and
/// hold the same elements are equal: the order of such a sequence is determined
/// by its elements alone.
pub proof fn lemma_strictly_sorted_unique<T>(x: Seq<T>, y: Seq<T>, lt: spec_fn(T, T) -> bool)
    requires
        strict_order(lt),
        strictly_sorted(x, lt),
        strictly_sorted(y, lt),
        x.to_set() == y.to_set(),
    ensures
        x == y,
    decreases x.len(),
{
    if x.len() == 0 {
        if y.len() > 0 {
            assert(y.to_set().contains(y[0]));
            assert(x.contains(y[0]));
        }
        assert(x =~= y);
    } else {
        assert(x.to_set().contains(x[0]));
        assert(y.contains(x[0]));
        let j = choose|j: int| 0 <= j < y.len() && y[j] == x[0];
        assert(y.to_set().contains(y[0]));
        assert(x.contains(y[0]));
        let i = choose|i: int| 0 <= i < x.len() && x[i] == y[0];
        if i > 0 {
            assert(lt(x[0], x[i]));
            if j > 0 {
                assert(lt(y[0], y[j]));
                assert(lt(x[0], x[0]));
            }
        }
        assert(x[0] == y[0]);
        let x1 = x.drop_first();
        let y1 = y.drop_first();
        assert forall|a: T| x1.to_set().contains(a) implies y1.to_set().contains(a) by {
            let k = choose|k: int| 0 <= k < x1.len() && x1[k] == a;
            assert(x[k + 1] == a);
            assert(lt(x[0], x[k + 1]));
            assert(x.to_set().contains(a));
            assert(y.contains(a));
            let m = choose|m: int| 0 <= m < y.len() && y[m] == a;
            if m == 0 {
                assert(lt(a, a));
            }
            assert(y1[m - 1] == a);
        }
        assert forall|a: T| y1.to_set().contains(a) implies x1.to_set().contains(a) by {
            let k = choose|k: int| 0 <= k < y1.len() && y1[k] == a;
            assert(y[k + 1] == a);
            assert(lt(y[0], y[k + 1]));
            assert(y.to_set().contains(a));
            assert(x.contains(a));
            let m = choose|m: int| 0 <= m < x.len() && x[m] == a;
            if m == 0 {
                assert(lt(a, a));
            }
            assert(x1[m - 1] == a);
        }
        assert(x1.to_set() =~= y1.to_set());
        assert forall|a: int, b: int| 0 <= a < b < x1.len() implies #[trigger] lt(x1[a], x1[b]) by {
            assert(lt(x[a + 1], x[b + 1]));
        }
        assert forall|a: int, b: int| 0 <= a < b < y1.len() implies #[trigger] lt(y1[a], y1[b]) by {
            assert(lt(y[a + 1], y[b + 1]));
        }
        lemma_strictly_sorted_unique(x1, y1, lt);
        assert forall|k: int| 0 <= k < x.len() implies x[k] == y[k] by {
            if k > 0 {
                assert(x[k] == x1[k - 1]);
                assert(y[k] == y1[k - 1]);
            }
        }
        assert(x =~= y);
    }
}

} // verus!
