//! Lists that stand for maps: each entry has a key, and of two entries with
//! one key the later one counts.

use vstd::prelude::*;

verus! {

/// The map that a list stands for: each key with the value of the last entry
/// that has it.
pub open spec fn list_map<T, K, V>(list: Seq<T>, key: spec_fn(T) -> K, val: spec_fn(T) -> V) -> Map<
    K,
    V,
>
    decreases list.len(),
{
    if list.len() == 0 {
        Map::empty()
    } else {
        list_map(list.drop_last(), key, val).insert(key(list.last()), val(list.last()))
    }
}

/// The entry at `i` is the last with its key.
pub open spec fn is_last_match<T, K>(list: Seq<T>, key: spec_fn(T) -> K, i: int) -> bool {
    &&& 0 <= i < list.len()
    &&& forall|j: int| i < j < list.len() ==> key(#[trigger] list[j]) != key(list[i])
}

/// No entry has the key `k`.
pub open spec fn no_match<T, K>(list: Seq<T>, key: spec_fn(T) -> K, k: K) -> bool {
    forall|j: int| 0 <= j < list.len() ==> key(#[trigger] list[j]) != k
}

/// The last entry with a key gives the key's value.
pub proof fn lemma_last_match<T, K, V>(
    list: Seq<T>,
    key: spec_fn(T) -> K,
    val: spec_fn(T) -> V,
    i: int,
)
    requires
        is_last_match(list, key, i),
    ensures
        list_map(list, key, val).dom().contains(key(list[i])),
        list_map(list, key, val)[key(list[i])] == val(list[i]),
    decreases list.len(),
{
    if i < list.len() - 1 {
        let head = list.drop_last();
        assert(head[i] == list[i]);
        assert forall|j: int| i < j < head.len() implies key(#[trigger] head[j]) != key(head[i]) by {
            assert(head[j] == list[j]);
        }
        lemma_last_match(head, key, val, i);
        assert(key(list[list.len() - 1]) != key(list[i]));
    }
}

/// A key that no entry has is not in the map.
pub proof fn lemma_no_match<T, K, V>(list: Seq<T>, key: spec_fn(T) -> K, val: spec_fn(T) -> V, k: K)
    requires
        no_match(list, key, k),
    ensures
        !list_map(list, key, val).dom().contains(k),
    decreases list.len(),
{
    if list.len() > 0 {
        let head = list.drop_last();
        assert forall|j: int| 0 <= j < head.len() implies key(#[trigger] head[j]) != k by {
            assert(head[j] == list[j]);
        }
        lemma_no_match(head, key, val, k);
        assert(key(list[list.len() - 1]) != k);
    }
}

/// A key of the map is the key of some entry.
pub proof fn lemma_key_has_entry<T, K, V>(
    list: Seq<T>,
    key: spec_fn(T) -> K,
    val: spec_fn(T) -> V,
    k: K,
)
    requires
        list_map(list, key, val).dom().contains(k),
    ensures
        exists|i: int| is_last_match(list, key, i) && key(#[trigger] list[i]) == k,
{
    if no_match(list, key, k) {
        lemma_no_match(list, key, val, k);
    } else {
        let j0 = choose|j: int| 0 <= j < list.len() && key(#[trigger] list[j]) == k;
        lemma_has_last_match(list, key, k, j0);
    }
}

/// Where some entry has a key, some entry is the last with it.
pub proof fn lemma_has_last_match<T, K>(list: Seq<T>, key: spec_fn(T) -> K, k: K, j0: int)
    requires
        0 <= j0 < list.len(),
        key(list[j0]) == k,
    ensures
        exists|i: int| is_last_match(list, key, i) && key(#[trigger] list[i]) == k,
    decreases list.len() - j0,
{
    if exists|j: int| j0 < j < list.len() && key(#[trigger] list[j]) == k {
        let j = choose|j: int| j0 < j < list.len() && key(#[trigger] list[j]) == k;
        lemma_has_last_match(list, key, k, j);
    } else {
        assert(is_last_match(list, key, j0));
    }
}

/// Replacing the last entry of a key by another entry of that key replaces
/// the key's value.
pub proof fn lemma_update<T, K, V>(
    list: Seq<T>,
    key: spec_fn(T) -> K,
    val: spec_fn(T) -> V,
    i: int,
    entry: T,
)
    requires
        is_last_match(list, key, i),
        key(entry) == key(list[i]),
    ensures
        list_map(list.update(i, entry), key, val) == list_map(list, key, val).insert(
            key(entry),
            val(entry),
        ),
    decreases list.len(),
{
    let after = list.update(i, entry);
    let head = list.drop_last();
    if i == list.len() - 1 {
        assert(after.drop_last() =~= head);
        assert(list_map(after, key, val) =~= list_map(list, key, val).insert(
            key(entry),
            val(entry),
        ));
    } else {
        assert(head[i] == list[i]);
        assert forall|j: int| i < j < head.len() implies key(#[trigger] head[j]) != key(head[i]) by {
            assert(head[j] == list[j]);
        }
        lemma_update(head, key, val, i, entry);
        assert(after.drop_last() =~= head.update(i, entry));
        assert(after.last() == list.last());
        assert(key(list[list.len() - 1]) != key(list[i]));
        assert(list_map(after, key, val) =~= list_map(list, key, val).insert(
            key(entry),
            val(entry),
        ));
    }
}

/// The entries of a list whose key is not one of `gone`, in the list's
/// order.
pub open spec fn without_keys<T, K>(list: Seq<T>, key: spec_fn(T) -> K, gone: Set<K>) -> Seq<T>
    decreases list.len(),
{
    if list.len() == 0 {
        Seq::empty()
    } else if gone.contains(key(list.last())) {
        without_keys(list.drop_last(), key, gone)
    } else {
        without_keys(list.drop_last(), key, gone).push(list.last())
    }
}

/// Leaving out the entries of some keys takes those keys out of the map.
pub proof fn lemma_without_keys<T, K, V>(
    list: Seq<T>,
    key: spec_fn(T) -> K,
    val: spec_fn(T) -> V,
    gone: Set<K>,
)
    ensures
        list_map(without_keys(list, key, gone), key, val) == list_map(list, key, val).remove_keys(
            gone,
        ),
    decreases list.len(),
{
    if list.len() == 0 {
        assert(list_map(list, key, val).remove_keys(gone) =~= Map::<K, V>::empty());
    } else {
        let head = list.drop_last();
        lemma_without_keys(head, key, val, gone);
        let kept = without_keys(head, key, gone);
        if gone.contains(key(list.last())) {
            assert(list_map(kept, key, val) =~= list_map(list, key, val).remove_keys(gone));
        } else {
            assert(kept.push(list.last()).drop_last() =~= kept);
            assert(list_map(kept.push(list.last()), key, val) =~= list_map(
                list,
                key,
                val,
            ).remove_keys(gone));
        }
    }
}

/// Changing the value of every entry, and no key, changes every value of
/// the map in the same way.
pub proof fn lemma_mapped<T, K, V>(
    list: Seq<T>,
    mapped: Seq<T>,
    key: spec_fn(T) -> K,
    val: spec_fn(T) -> V,
    change: spec_fn(V) -> V,
)
    requires
        mapped.len() == list.len(),
        forall|i: int|
            0 <= i < list.len() ==> key(#[trigger] mapped[i]) == key(list[i]) && val(mapped[i])
                == change(val(list[i])),
    ensures
        list_map(mapped, key, val) == list_map(list, key, val).map_values(change),
    decreases list.len(),
{
    if list.len() == 0 {
        assert(list_map(mapped, key, val) =~= list_map(list, key, val).map_values(change));
    } else {
        let head = list.drop_last();
        let mapped_head = mapped.drop_last();
        assert forall|i: int| 0 <= i < head.len() implies key(#[trigger] mapped_head[i]) == key(
            head[i],
        ) && val(mapped_head[i]) == change(val(head[i])) by {
            assert(mapped_head[i] == mapped[i]);
            assert(head[i] == list[i]);
        }
        lemma_mapped(head, mapped_head, key, val, change);
        assert(key(mapped[mapped.len() - 1]) == key(list[list.len() - 1]));
        assert(list_map(mapped, key, val) =~= list_map(list, key, val).map_values(change));
    }
}

/// No two entries have one key.
pub open spec fn keys_differ<T, K>(list: Seq<T>, key: spec_fn(T) -> K) -> bool {
    forall|i: int, j: int| 0 <= i < j < list.len() ==> key(list[i]) != key(list[j])
}

/// What is left of a list without some keys are entries of the list, and no
/// two of them have one key where no two of the list have.
pub proof fn lemma_without_keys_part<T, K>(list: Seq<T>, key: spec_fn(T) -> K, gone: Set<K>)
    ensures
        forall|k: int|
            0 <= k < without_keys(list, key, gone).len() ==> list.contains(
                #[trigger] without_keys(list, key, gone)[k],
            ),
        keys_differ(list, key) ==> keys_differ(without_keys(list, key, gone), key),
        without_keys(list, key, gone).len() <= list.len(),
    decreases list.len(),
{
    if list.len() > 0 {
        let head = list.drop_last();
        let kept = without_keys(head, key, gone);
        let out = without_keys(list, key, gone);
        lemma_without_keys_part(head, key, gone);
        assert forall|k: int| 0 <= k < out.len() implies list.contains(#[trigger] out[k]) by {
            if k < kept.len() {
                assert(out[k] == kept[k]);
                let w = choose|w: int| 0 <= w < head.len() && head[w] == kept[k];
                assert(list[w] == kept[k]);
            } else {
                assert(list[list.len() - 1] == out[k]);
            }
        }
        if keys_differ(list, key) {
            assert forall|i: int, j: int| 0 <= i < j < head.len() implies key(head[i]) != key(
                head[j],
            ) by {
                assert(head[i] == list[i] && head[j] == list[j]);
            }
            assert forall|i: int, j: int| 0 <= i < j < out.len() implies key(out[i]) != key(
                out[j],
            ) by {
                if j < kept.len() {
                    assert(out[i] == kept[i] && out[j] == kept[j]);
                } else {
                    assert(out[i] == kept[i]);
                    let w = choose|w: int| 0 <= w < head.len() && head[w] == kept[i];
                    assert(list[w] == kept[i]);
                    assert(key(list[w]) != key(list[list.len() - 1]));
                }
            }
        }
    }
}

} // verus!
