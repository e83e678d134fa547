//! Order predicates over key sequences and sets, and the uniqueness of
//! strictly sorted sequences with a given element set.

use vstd::prelude::*;

verus! {

/// A sequence of keys is strictly increasing.
pub open spec fn sorted(s: Seq<i64>) -> bool {
    forall|i: int, j: int| 0 <= i < j < s.len() ==> s[i] < s[j]
}

/// Every key of the set lies strictly below the bound.
pub open spec fn below(s: Set<i64>, bound: i64) -> bool {
    forall|x: i64| s.contains(x) ==> x < bound
}

/// Every key of the set lies strictly above the bound.
pub open spec fn above(s: Set<i64>, bound: i64) -> bool {
    forall|x: i64| s.contains(x) ==> x > bound
}

/// Two strictly sorted sequences with the same element set are equal:
/// a tree's sorted read-out is determined by the set of its keys.
pub proof fn lemma_sorted_unique(a: Seq<i64>, b: Seq<i64>)
    requires
        sorted(a),
        sorted(b),
        a.to_set() == b.to_set(),
    ensures
        a == b,
    decreases a.len(),
{
    if a.len() == 0 {
        if b.len() > 0 {
            assert(b.to_set().contains(b[0]));
            assert(a.contains(b[0]));
        }
        assert(a =~= b);
    } else {
        assert(a.to_set().contains(a[0]));
        assert(b.contains(a[0]));
        assert(b.to_set().contains(b[0]));
        assert(a.contains(b[0]));
        let ia = choose|ia: int| 0 <= ia < a.len() && a[ia] == b[0];
        let ib = choose|ib: int| 0 <= ib < b.len() && b[ib] == a[0];
        assert(a[0] <= a[ia]);
        assert(b[0] <= b[ib]);
        assert(a[0] == b[0]);
        let at = a.drop_first();
        let bt = b.drop_first();
        assert(at.to_set() =~= bt.to_set()) by {
            assert forall|x: i64| at.contains(x) implies bt.contains(x) by {
                let i = choose|i: int| 0 <= i < at.len() && at[i] == x;
                assert(a[i + 1] == x);
                assert(x > a[0]);
                assert(a.to_set().contains(x));
                assert(b.contains(x));
                let j = choose|j: int| 0 <= j < b.len() && b[j] == x;
                assert(j != 0);
                assert(bt[j - 1] == x);
            }
            assert forall|x: i64| bt.contains(x) implies at.contains(x) by {
                let i = choose|i: int| 0 <= i < bt.len() && bt[i] == x;
                assert(b[i + 1] == x);
                assert(x > b[0]);
                assert(b.to_set().contains(x));
                assert(a.contains(x));
                let j = choose|j: int| 0 <= j < a.len() && a[j] == x;
                assert(j != 0);
                assert(at[j - 1] == x);
            }
        }
        assert(sorted(at));
        assert(sorted(bt));
        lemma_sorted_unique(at, bt);
        assert(a =~= b) by {
            assert(a == seq![a[0]] + at) by {
                assert(a =~= seq![a[0]] + at);
            }
            assert(b == seq![b[0]] + bt) by {
                assert(b =~= seq![b[0]] + bt);
            }
        }
    }
}

} // verus!
