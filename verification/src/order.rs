//! Ordering facts shared by the two tree variants: what it means for a
//! sequence of keys to be strictly ascending, what it means for it to list
//! exactly a given key set, and the uniqueness of such a listing.

use vstd::prelude::*;

verus! {

/// The sequence is strictly ascending: every element is smaller than each
/// element after it.
pub open spec fn strictly_sorted(s: Seq<i64>) -> bool {
    forall|i: int, j: int| 0 <= i < j < s.len() ==> s[i] < s[j]
}

/// The sequence lists exactly the elements of `ks`: every element of the
/// sequence lies in `ks`, and every element of `ks` occurs in the sequence.
pub open spec fn lists_exactly(s: Seq<i64>, ks: Set<i64>) -> bool {
    &&& forall|i: int| 0 <= i < s.len() ==> ks.contains(s[i])
    &&& forall|k: i64| ks.contains(k) ==> s.contains(k)
}

/// A strictly ascending sequence has no duplicates.
pub proof fn lemma_strictly_sorted_no_duplicates(s: Seq<i64>)
    requires
        strictly_sorted(s),
    ensures
        s.no_duplicates(),
{
}

/// There is only one strictly ascending listing of a key set: two strictly
/// ascending sequences that list exactly the same keys are equal.
pub proof fn lemma_sorted_unique(a: Seq<i64>, b: Seq<i64>, ks: Set<i64>)
    requires
        strictly_sorted(a),
        strictly_sorted(b),
        lists_exactly(a, ks),
        lists_exactly(b, ks),
    ensures
        a == b,
    decreases a.len(),
{
    if a.len() == 0 {
        if b.len() > 0 {
            assert(ks.contains(b[0]));
            assert(a.contains(b[0]));
        }
        assert(a =~= b);
    } else {
        assert(ks.contains(a[0]));
        assert(b.contains(a[0]));
        let bi = choose|bi: int| 0 <= bi < b.len() && b[bi] == a[0];
        assert(ks.contains(b[0]));
        assert(a.contains(b[0]));
        let aj = choose|aj: int| 0 <= aj < a.len() && a[aj] == b[0];
        assert(b[0] <= b[bi]);
        assert(a[0] <= a[aj]);
        assert(a[0] == b[0]);

        let a1 = a.drop_first();
        let b1 = b.drop_first();
        let ks1 = ks.remove(a[0]);
        assert(strictly_sorted(a1));
        assert(strictly_sorted(b1));
        assert forall|k: i64| ks1.contains(k) implies a1.contains(k) by {
            assert(a.contains(k));
            let j = choose|j: int| 0 <= j < a.len() && a[j] == k;
            assert(j != 0);
            assert(a1[j - 1] == k);
        }
        assert forall|k: i64| ks1.contains(k) implies b1.contains(k) by {
            assert(b.contains(k));
            let j = choose|j: int| 0 <= j < b.len() && b[j] == k;
            assert(j != 0);
            assert(b1[j - 1] == k);
        }
        assert(lists_exactly(a1, ks1));
        assert(lists_exactly(b1, ks1));
        lemma_sorted_unique(a1, b1, ks1);
        assert(a =~= b);
    }
}

} // verus!
