//! What holds across calls: contents after a run of insertions, and the
//! uniqueness of the ascending order that every traversal yields.
use vstd::prelude::*;

verus! {

use crate::order::{total_order, lt, lemma_total_order};
use crate::node::ascending;
use crate::sort::sorted;
use vstd::multiset::Multiset;

/// The contents of a tree that held `s`, after `insert` was called with each of
/// `keys` in turn (each call adds its value to the contents).
pub open spec fn after_inserts<T>(s: Set<T>, keys: Seq<T>) -> Set<T>
    decreases keys.len(),
{
    if keys.len() == 0 {
        s
    } else {
        after_inserts(s, keys.drop_last()).insert(keys.last())
    }
}

/// Inserting any sequence of keys into an empty tree, in any order, leaves it
/// holding exactly those keys: a search finds each inserted key and no other.
pub proof fn lemma_inserted_keys_found<T>(keys: Seq<T>)
    ensures
        after_inserts(Set::<T>::empty(), keys) == keys.to_set(),
        forall|k: T| after_inserts(Set::<T>::empty(), keys).contains(k) <==> keys.contains(k),
    decreases keys.len(),
{
    if keys.len() > 0 {
        lemma_inserted_keys_found(keys.drop_last());
        assert(keys =~= keys.drop_last().push(keys.last()));
        broadcast use vstd::seq_lib::group_seq_properties;
        assert(keys.to_set() =~= keys.drop_last().to_set().insert(keys.last()));
    } else {
        assert(keys.to_set() =~= Set::<T>::empty());
    }
}

/// Inserting a key that is already held changes neither the contents, nor
/// their number, nor what any search finds.
pub proof fn lemma_duplicate_insert<T>(s: Set<T>, key: T)
    requires
        s.contains(key),
    ensures
        s.insert(key) == s,
        s.insert(key).len() == s.len(),
        forall|k: T| s.insert(key).contains(k) == s.contains(k),
{
    assert(s.insert(key) =~= s);
}

/// Two ascending sequences of the same values are one and the same.
pub proof fn lemma_ascending_unique<T: Ord>(a: Seq<T>, b: Seq<T>)
    requires
        total_order::<T>(),
        ascending(a),
        ascending(b),
        a.to_set() == b.to_set(),
    ensures
        a == b,
    decreases a.len(),
{
    lemma_total_order::<T>();
    if a.len() == 0 {
        if b.len() > 0 {
            assert(b.to_set().contains(b[0]));
        }
        assert(a =~= b);
    } else {
        assert(a.to_set().contains(a[0]));
        let j = choose|j: int| 0 <= j < b.len() && b[j] == a[0];
        assert(b.to_set().contains(b[0]));
        let k = choose|k: int| 0 <= k < a.len() && a[k] == b[0];
        if j > 0 {
            assert(lt(b[0], b[j]));
            if k > 0 {
                assert(lt(a[0], a[k]));
                assert(lt(a[0], a[0]));
            }
        }
        assert(a[0] == b[0]);
        let a1 = a.skip(1);
        let b1 = b.skip(1);
        assert forall|x: T| #[trigger] a1.to_set().contains(x) <==> b1.to_set().contains(x) by {
            if a1.to_set().contains(x) {
                let i = choose|i: int| 0 <= i < a1.len() && a1[i] == x;
                assert(a[i + 1] == x && lt(a[0], a[i + 1]));
                assert(a.to_set().contains(x));
                let m = choose|m: int| 0 <= m < b.len() && b[m] == x;
                assert(m != 0);
                assert(b1[m - 1] == x);
            }
            if b1.to_set().contains(x) {
                let i = choose|i: int| 0 <= i < b1.len() && b1[i] == x;
                assert(b[i + 1] == x && lt(b[0], b[i + 1]));
                assert(b.to_set().contains(x));
                let m = choose|m: int| 0 <= m < a.len() && a[m] == x;
                assert(m != 0);
                assert(a1[m - 1] == x);
            }
        }
        assert(a1.to_set() =~= b1.to_set());
        assert(ascending(a1)) by {
            assert forall|i: int, j: int| 0 <= i < j < a1.len() implies lt(#[trigger] a1[i], #[trigger] a1[j]) by {
                assert(a1[i] == a[i + 1] && a1[j] == a[j + 1]);
            }
        }
        assert(ascending(b1)) by {
            assert forall|i: int, j: int| 0 <= i < j < b1.len() implies lt(#[trigger] b1[i], #[trigger] b1[j]) by {
                assert(b1[i] == b[i + 1] && b1[j] == b[j + 1]);
            }
        }
        lemma_ascending_unique(a1, b1);
        assert(a =~= seq![a[0]] + a1);
        assert(b =~= seq![b[0]] + b1);
    }
}

/// Trees built from two orderings of the same keys yield, in every traversal
/// mode, one and the same ascending sequence: the order of insertion does not
/// show in what a traversal yields.
pub proof fn lemma_traversal_shape_independent<T: Ord>(keys1: Seq<T>, keys2: Seq<T>, out1: Seq<T>, out2: Seq<T>)
    requires
        total_order::<T>(),
        keys1.to_multiset() == keys2.to_multiset(),
        ascending(out1),
        out1.to_set() == after_inserts(Set::<T>::empty(), keys1),
        ascending(out2),
        out2.to_set() == after_inserts(Set::<T>::empty(), keys2),
    ensures
        out1 == out2,
{
    lemma_inserted_keys_found(keys1);
    lemma_inserted_keys_found(keys2);
    assert forall|x: T| #[trigger] keys1.to_set().contains(x) <==> keys2.to_set().contains(x) by {
        keys1.to_multiset_ensures();
        keys2.to_multiset_ensures();
        assert(keys1.contains(x) <==> keys1.to_multiset().count(x) > 0);
        assert(keys2.contains(x) <==> keys2.to_multiset().count(x) > 0);
    }
    assert(keys1.to_set() =~= keys2.to_set());
    lemma_ascending_unique(out1, out2);
}

/// Two sorted sequences of the same values, counted, are one and the same.
pub proof fn lemma_sorted_unique<T: Ord>(a: Seq<T>, b: Seq<T>)
    requires
        total_order::<T>(),
        sorted(a),
        sorted(b),
        a.to_multiset() == b.to_multiset(),
    ensures
        a == b,
    decreases a.len(),
{
    broadcast use vstd::multiset::group_multiset_axioms;
    lemma_total_order::<T>();
    a.to_multiset_ensures();
    b.to_multiset_ensures();
    if a.len() == 0 {
        assert(a =~= b);
    } else {
        assert(b.len() > 0);
        assert(a.contains(a[0]) && a.to_multiset().count(a[0]) > 0);
        assert(b.contains(a[0]));
        let j = choose|j: int| 0 <= j < b.len() && b[j] == a[0];
        assert(b.contains(b[0]) && b.to_multiset().count(b[0]) > 0);
        assert(a.contains(b[0]));
        let k = choose|k: int| 0 <= k < a.len() && a[k] == b[0];
        if j > 0 {
            assert(!lt(b[j], b[0]));
        }
        if k > 0 {
            assert(!lt(a[k], a[0]));
        }
        assert(!lt(a[0], b[0]) && !lt(b[0], a[0]));
        assert(a[0] == b[0]);
        let a1 = a.drop_first();
        let b1 = b.drop_first();
        vstd::seq_lib::to_multiset_remove(a, 0);
        vstd::seq_lib::to_multiset_remove(b, 0);
        assert(a.remove(0) =~= a1);
        assert(b.remove(0) =~= b1);
        assert(sorted(a1)) by {
            assert forall|i: int, j: int| 0 <= i < j < a1.len() implies !lt(#[trigger] a1[j], #[trigger] a1[i]) by {
                assert(a1[i] == a[i + 1] && a1[j] == a[j + 1]);
            }
        }
        assert(sorted(b1)) by {
            assert forall|i: int, j: int| 0 <= i < j < b1.len() implies !lt(#[trigger] b1[j], #[trigger] b1[i]) by {
                assert(b1[i] == b[i + 1] && b1[j] == b[j + 1]);
            }
        }
        lemma_sorted_unique(a1, b1);
        assert(a =~= seq![a[0]] + a1);
        assert(b =~= seq![b[0]] + b1);
    }
}

/// A shared traversal, then an exclusive one through which the caller changes
/// values, then a consuming one, over the same tree: the first two yield the
/// same sequence, and the last yields exactly the changed values, sorted; so
/// where the changes kept them sorted, it yields them as they were left.
pub proof fn lemma_traversal_round_trip<T: Ord>(
    held: Multiset<T>,
    shared: Seq<T>,
    exclusive_before: Seq<T>,
    exclusive_after: Seq<T>,
    consumed: Seq<T>,
)
    requires
        total_order::<T>(),
        sorted(shared),
        shared.to_multiset() == held,
        sorted(exclusive_before),
        exclusive_before.to_multiset() == held,
        sorted(consumed),
        consumed.to_multiset() == exclusive_after.to_multiset(),
    ensures
        exclusive_before == shared,
        forall|s: Seq<T>| sorted(s) && s.to_multiset() == exclusive_after.to_multiset() ==> consumed == s,
        sorted(exclusive_after) ==> consumed == exclusive_after,
{
    lemma_sorted_unique(shared, exclusive_before);
    assert forall|s: Seq<T>| sorted(s) && s.to_multiset() == exclusive_after.to_multiset() implies consumed == s by {
        lemma_sorted_unique(consumed, s);
    }
}

} // verus!
