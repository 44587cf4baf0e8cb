//! Sorting a vector by a key that each element leads to: a value, or what a
//! shared or exclusive reference points to.
use vstd::prelude::*;

verus! {

use core::cmp::Ordering;
use vstd::std_specs::cmp::OrdSpec;
use crate::order::{total_order, lt, lemma_total_order};

/// An element that leads to a key of type `T`, by which it is sorted.
pub trait SortKey<T> {
    spec fn key(&self) -> T;

    fn key_ref(&self) -> (r: &T)
        ensures
            *r == self.key(),
    ;
}

impl<T> SortKey<T> for T {
    open spec fn key(&self) -> T {
        *self
    }

    fn key_ref(&self) -> (r: &T) {
        self
    }
}

impl<'a, T> SortKey<T> for &'a T {
    open spec fn key(&self) -> T {
        **self
    }

    fn key_ref(&self) -> (r: &T) {
        *self
    }
}

impl<'a, T> SortKey<T> for &'a mut T {
    open spec fn key(&self) -> T {
        **self
    }

    fn key_ref(&self) -> (r: &T) {
        &**self
    }
}

/// The keys of a sequence of elements.
pub open spec fn keys_of<T, E: SortKey<T>>(s: Seq<E>) -> Seq<T> {
    s.map_values(|e: E| e.key())
}

/// Never decreasing: no value comes after a greater one.
pub open spec fn sorted<T: Ord>(s: Seq<T>) -> bool {
    forall|i: int, j: int| 0 <= i < j < s.len() ==> !lt(#[trigger] s[j], #[trigger] s[i])
}

/// Two sequences with the same elements, counted, hold the same set of them.
pub proof fn lemma_same_multiset_same_set<A>(s1: Seq<A>, s2: Seq<A>)
    requires
        s1.to_multiset() == s2.to_multiset(),
    ensures
        s1.to_set() == s2.to_set(),
{
    assert forall|x: A| #[trigger] s1.to_set().contains(x) <==> s2.to_set().contains(x) by {
        s1.to_multiset_ensures();
        s2.to_multiset_ensures();
        assert(s1.contains(x) <==> s1.to_multiset().count(x) > 0);
        assert(s2.contains(x) <==> s2.to_multiset().count(x) > 0);
    }
    assert(s1.to_set() =~= s2.to_set());
}

/// Mapping two sequences with the same elements, counted, gives two sequences
/// with the same elements, counted.
proof fn lemma_map_one_same_multiset<A, B>(s1: Seq<A>, s2: Seq<A>, f: spec_fn(A) -> B)
    requires
        s1.to_multiset() == s2.to_multiset(),
    ensures
        s1.map_values(f).to_multiset() == s2.map_values(f).to_multiset(),
    decreases s1.len(),
{
    broadcast use vstd::multiset::group_multiset_axioms;
    s1.to_multiset_ensures();
    s2.to_multiset_ensures();
    if s1.len() == 0 {
        assert(s1.map_values(f) =~= Seq::<B>::empty());
        assert(s2.map_values(f) =~= Seq::<B>::empty());
    } else {
        let x = s1.last();
        let t1 = s1.drop_last();
        assert(s1 =~= t1.push(x));
        assert(s1.contains(x));
        assert(s1.to_multiset().count(x) > 0);
        assert(s2.to_multiset().count(x) > 0);
        assert(s2.contains(x));
        let k = choose|k: int| 0 <= k < s2.len() && s2[k] == x;
        let t2 = s2.remove(k);
        vstd::seq_lib::to_multiset_build(t1, x);
        vstd::seq_lib::to_multiset_remove(s2, k);
        assert(t1.to_multiset() =~= t2.to_multiset());
        lemma_map_one_same_multiset(t1, t2, f);
        let m1 = s1.map_values(f);
        let m2 = s2.map_values(f);
        assert(m1 =~= t1.map_values(f).push(f(x)));
        vstd::seq_lib::to_multiset_build(t1.map_values(f), f(x));
        assert(m2.remove(k) =~= t2.map_values(f));
        vstd::seq_lib::to_multiset_remove(m2, k);
        m2.to_multiset_ensures();
        assert(m2.contains(f(x))) by {
            assert(m2[k] == f(x));
        }
        assert(m2.to_multiset() =~= m2.to_multiset().remove(f(x)).insert(f(x)));
    }
}

/// `lemma_map_one_same_multiset`, for every mapping at once.
pub proof fn lemma_map_same_multiset<A, B>(s1: Seq<A>, s2: Seq<A>)
    requires
        s1.to_multiset() == s2.to_multiset(),
    ensures
        forall|f: spec_fn(A) -> B| #[trigger] s1.map_values(f).to_multiset() == s2.map_values(f).to_multiset(),
{
    assert forall|f: spec_fn(A) -> B| #[trigger] s1.map_values(f).to_multiset() == s2.map_values(f).to_multiset() by {
        lemma_map_one_same_multiset(s1, s2, f);
    }
}

/// "Not greater" is transitive.
proof fn lemma_not_greater_transitive<T: Ord>(a: T, b: T, c: T)
    requires
        total_order::<T>(),
        !lt(b, a),
        !lt(c, b),
    ensures
        !lt(c, a),
{
    lemma_total_order::<T>();
    if lt(c, a) {
        if a == b {
        } else {
            assert(a.cmp_spec(&b) != Ordering::Equal);
            assert(lt(a, b) || b.cmp_spec(&a) == Ordering::Less);
            assert(lt(c, b));
        }
    }
}

/// Returns the elements of `v` sorted by key, as a permutation of them. Sorts
/// by insertion, scanning back from the end, so that input already in
/// ascending order costs one comparison per element and comes back as it was.
pub fn sort_by_key<T: Ord, E: SortKey<T>>(v: Vec<E>) -> (r: Vec<E>)
    requires
        total_order::<T>(),
    ensures
        sorted(keys_of(r@)),
        r@.to_multiset() == v@.to_multiset(),
        keys_of(r@).to_multiset() == keys_of(v@).to_multiset(),
        r@.len() == v@.len(),
        crate::node::ascending(keys_of(v@)) ==> r@ == v@,
{
    let ghost v0 = v@;
    let ghost n = v@.len();
    let mut v = v;
    let mut rest: Vec<E> = Vec::new();
    while v.len() > 0
        invariant
            n == v0.len(),
            v@.len() + rest@.len() == n,
            v@ == v0.take(v@.len() as int),
            forall|i: int| 0 <= i < rest@.len() ==> #[trigger] rest@[i] == v0[n - 1 - i],
        decreases v@.len(),
    {
        let x = v.pop().unwrap();
        rest.push(x);
        proof {
            assert(v@ =~= v0.take(v@.len() as int));
        }
    }
    let mut out: Vec<E> = Vec::new();
    proof {
        assert(v0.take(0) =~= Seq::<E>::empty());
        assert(keys_of(out@) =~= Seq::<T>::empty());
        assert(keys_of(v0.take(0)) =~= Seq::<T>::empty());
    }
    while rest.len() > 0
        invariant
            total_order::<T>(),
            n == v0.len(),
            out@.len() + rest@.len() == n,
            forall|i: int| 0 <= i < rest@.len() ==> #[trigger] rest@[i] == v0[n - 1 - i],
            out@.to_multiset() == v0.take(out@.len() as int).to_multiset(),
            keys_of(out@).to_multiset() == keys_of(v0.take(out@.len() as int)).to_multiset(),
            sorted(keys_of(out@)),
            crate::node::ascending(keys_of(v0)) ==> out@ == v0.take(out@.len() as int),
        decreases rest@.len(),
    {
        let ghost k = out@.len() as int;
        let x = rest.pop().unwrap();
        assert(x == v0[k]);
        let mut j = out.len();
        while j > 0 && matches!(out[j - 1].key_ref().cmp(x.key_ref()), Ordering::Greater)
            invariant
                total_order::<T>(),
                n == v0.len(),
                0 <= k < n,
                x == v0[k],
                0 <= j <= out@.len(),
                out@.len() == k,
                forall|m: int| j <= m < out@.len() ==> lt(x.key(), #[trigger] out@[m].key()),
                crate::node::ascending(keys_of(v0)) ==> out@ == v0.take(k),
                crate::node::ascending(keys_of(v0)) ==> j == out@.len(),
            decreases j,
        {
            proof {
                lemma_total_order::<T>();
                if crate::node::ascending(keys_of(v0)) {
                    assert(keys_of(v0)[k - 1] == out@[j - 1].key());
                    assert(keys_of(v0)[k] == x.key());
                }
            }
            j = j - 1;
        }
        let ghost before = out@;
        proof {
            lemma_total_order::<T>();
        }
        out.insert(j, x);
        proof {
            let s = out@;
            assert(s == before.insert(j as int, x));
            vstd::seq_lib::to_multiset_insert(before, j as int, x);
            assert(v0.take(k + 1) =~= v0.take(k).push(x));
            vstd::seq_lib::to_multiset_build(v0.take(k), x);
            assert(keys_of(s) =~= keys_of(before).insert(j as int, x.key()));
            assert(keys_of(v0.take(k + 1)) =~= keys_of(v0.take(k)).push(x.key()));
            vstd::seq_lib::to_multiset_insert(keys_of(before), j as int, x.key());
            vstd::seq_lib::to_multiset_build(keys_of(v0.take(k)), x.key());
            if j > 0 {
                assert(!lt(x.key(), before[j - 1].key()));
            }
            assert forall|a: int, b: int| 0 <= a < b < s.len() implies
                !lt(#[trigger] keys_of(s)[b], #[trigger] keys_of(s)[a]) by {
                assert(keys_of(s)[a] == s[a].key() && keys_of(s)[b] == s[b].key());
                if b < j {
                    assert(s[a] == before[a] && s[b] == before[b]);
                    assert(keys_of(before)[a] == before[a].key() && keys_of(before)[b] == before[b].key());
                } else if b == j {
                    assert(s[a] == before[a]);
                    if a < j - 1 {
                        assert(keys_of(before)[a] == before[a].key());
                        assert(keys_of(before)[j - 1] == before[j - 1].key());
                        lemma_not_greater_transitive(before[a].key(), before[j - 1].key(), x.key());
                    }
                } else if a == j {
                    assert(s[b] == before[b - 1]);
                } else if a > j {
                    assert(s[a] == before[a - 1] && s[b] == before[b - 1]);
                    assert(keys_of(before)[a - 1] == before[a - 1].key());
                    assert(keys_of(before)[b - 1] == before[b - 1].key());
                } else {
                    assert(s[a] == before[a] && s[b] == before[b - 1]);
                    if a < j - 1 {
                        assert(keys_of(before)[a] == before[a].key());
                        assert(keys_of(before)[j - 1] == before[j - 1].key());
                        lemma_not_greater_transitive(before[a].key(), before[j - 1].key(), x.key());
                    }
                    assert(lt(x.key(), before[b - 1].key()));
                    assert(!lt(before[b - 1].key(), x.key()));
                    lemma_not_greater_transitive(before[a].key(), x.key(), before[b - 1].key());
                }
            }
            if crate::node::ascending(keys_of(v0)) {
                assert(s =~= v0.take(k + 1));
            }
        }
    }
    proof {
        assert(v0.take(n as int) =~= v0);
    }
    out
}

} // verus!
