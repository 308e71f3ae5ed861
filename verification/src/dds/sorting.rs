//! Putting changes in the order of their instants.

use itertools::Itertools;
use vstd::prelude::*;

verus! {

/// The items stand in the order of their instants; equal instants may
/// follow each other.
pub open spec fn instants_ordered<T>(items: Seq<(u64, T)>) -> bool {
    forall|i: int, j: int| 0 <= i < j < items.len() ==> items[i].0 <= items[j].0
}

/// Each item's instant is later than that of the item before it.
pub open spec fn instants_strictly_ordered<T>(items: Seq<(u64, T)>) -> bool {
    forall|i: int, j: int| 0 <= i < j < items.len() ==> items[i].0 < items[j].0
}

/// The items of the instant `t`, in the order in which they stand.
pub open spec fn of_instant<T>(items: Seq<(u64, T)>, t: u64) -> Seq<(u64, T)> {
    items.filter(|e: (u64, T)| e.0 == t)
}

/// `Itertools::sorted_by_key` with the instant as the key: the same items,
/// in the ascending order of their instants. It sorts with
/// `slice::sort_by_key`, which is stable as std documents: the items of one
/// instant keep the order they came in.
#[verifier::external_body]
pub(crate) fn sorted_by_instant<T>(items: Vec<(u64, T)>) -> (sorted: Vec<(u64, T)>)
    ensures
        sorted@.to_multiset() == items@.to_multiset(),
        instants_ordered(sorted@),
        forall|t: u64| #[trigger] of_instant(sorted@, t) == of_instant(items@, t),
{
    items.into_iter().sorted_by_key(|item| item.0).collect()
}

/// Items whose instants all differ have one order by instant only: a list
/// in that order with the same items as a list in strict order is that list.
pub proof fn lemma_strict_order_is_unique<T>(sorted: Seq<(u64, T)>, strict: Seq<(u64, T)>)
    requires
        instants_ordered(sorted),
        instants_strictly_ordered(strict),
        sorted.to_multiset() == strict.to_multiset(),
    ensures
        sorted == strict,
    decreases sorted.len(), strict.len(),
{
    broadcast use vstd::multiset::group_multiset_axioms;
    broadcast use vstd::seq_lib::group_to_multiset_ensures;

    vstd::seq_lib::to_multiset_len(sorted);
    vstd::seq_lib::to_multiset_len(strict);
    if sorted.len() == 0 || strict.len() == 0 {
        assert(sorted =~= strict);
    } else {
        assert(sorted.to_multiset().contains(sorted[0]));
        assert(strict.to_multiset().contains(strict[0]));
        assert(sorted.contains(strict[0]));
        assert(strict.contains(sorted[0]));
        let i = choose|i: int| 0 <= i < sorted.len() && sorted[i] == strict[0];
        let j = choose|j: int| 0 <= j < strict.len() && strict[j] == sorted[0];
        assert(sorted[0].0 <= sorted[i].0);
        assert(strict[0].0 <= strict[j].0);
        assert(j == 0);
        assert(sorted[0] == strict[0]);
        assert(sorted.drop_first().to_multiset() =~= sorted.to_multiset().remove(sorted[0])) by {
            vstd::seq_lib::to_multiset_remove(sorted, 0);
            assert(sorted.remove(0) =~= sorted.drop_first());
        }
        assert(strict.drop_first().to_multiset() =~= strict.to_multiset().remove(strict[0])) by {
            vstd::seq_lib::to_multiset_remove(strict, 0);
            assert(strict.remove(0) =~= strict.drop_first());
        }
        let s1 = sorted.drop_first();
        let t1 = strict.drop_first();
        assert forall|a: int, b: int| 0 <= a < b < s1.len() implies s1[a].0 <= s1[b].0 by {
            assert(s1[a] == sorted[a + 1] && s1[b] == sorted[b + 1]);
        }
        assert forall|a: int, b: int| 0 <= a < b < t1.len() implies t1[a].0 < t1[b].0 by {
            assert(t1[a] == strict[a + 1] && t1[b] == strict[b + 1]);
        }
        lemma_strict_order_is_unique(s1, t1);
        assert(sorted =~= seq![sorted[0]] + s1);
        assert(strict =~= seq![strict[0]] + t1);
    }
}

} // verus!
