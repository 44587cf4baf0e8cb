//! Walking down from the root of a subtree: lookup and insertion.
use vstd::prelude::*;

verus! {

use core::cmp::Ordering;
use vstd::std_specs::cmp::OrdSpec;
use crate::order::{total_order, lt, lemma_total_order};
use crate::node::{Link, Node, Way, keys, ordered, between, within, with_leaf, lemma_leaf, lemma_node};

/// Looks `value` up in an ordered subtree, walking down from its root.
pub(crate) fn search_link<T: Ord>(link: &Link<T>, value: &T) -> (r: bool)
    requires
        total_order::<T>(),
        ordered(*link),
    ensures
        r == keys(*link).contains(*value),
{
    let mut node = link;
    loop
        invariant
            total_order::<T>(),
            ordered(*node),
            keys(*link).contains(*value) == keys(*node).contains(*value),
        decreases *node,
    {
        match node {
            None => {
                return false;
            },
            Some(next) => {
                proof { lemma_total_order::<T>(); }
                match next.value.cmp(value) {
                    Ordering::Less => {
                        proof {
                            if keys(next.left).contains(*value) {
                                assert(lt(*value, next.value) && lt(next.value, *value));
                            }
                        }
                        node = &next.right;
                    },
                    Ordering::Greater => {
                        proof {
                            if keys(next.right).contains(*value) {
                                assert(lt(*value, next.value) && lt(next.value, *value));
                            }
                        }
                        node = &next.left;
                    },
                    Ordering::Equal => {
                        return true;
                    },
                }
            },
        }
    }
}

/// Adds `value` to an ordered subtree as a new leaf, unless an equal value is
/// already there; walks down from the root, one link at a time.
pub(crate) fn insert_link<T: Ord>(link: &mut Link<T>, value: T) -> (r: bool)
    requires
        total_order::<T>(),
        ordered(*old(link)),
    ensures
        r == !keys(*old(link)).contains(value),
        ordered(*final(link)),
        keys(*final(link)) == keys(*old(link)).insert(value),
        !r ==> *final(link) == *old(link),
        *final(link) == with_leaf(*old(link), value),
{
    if link.is_none() {
        *link = Some(Box::new(Node::new(value)));
        return true;
    }
    let ghost mut lo: Option<T> = None;
    let ghost mut hi: Option<T> = None;
    let ghost mut outside: Set<T> = Set::empty();
    let mut cur = link;
    loop
        invariant
            total_order::<T>(),
            cur.is_some(),
            ordered(*cur),
            within(*cur, lo, hi),
            between(lo, value, hi),
            keys(*old(link)) == outside.union(keys(*cur)),
            !outside.contains(value),
            ordered(*final(cur)) && within(*final(cur), lo, hi) ==> ordered(*final(link)),
            keys(*final(link)) == outside.union(keys(*final(cur))),
            *final(cur) == *cur ==> *final(link) == *old(link),
            *final(cur) == with_leaf(*cur, value) ==> *final(link) == with_leaf(*old(link), value),
        decreases *cur,
    {
        let ghost here = *cur;
        let ghost done = *final(cur);
        let ghost lo0 = lo;
        let ghost hi0 = hi;
        match cur {
            None => {
                // `cur` only ever points at an occupied link.
                return false;
            },
            Some(next) => {
                proof { lemma_total_order::<T>(); }
                match next.value.cmp(&value) {
                    Ordering::Less => {
                        proof {
                            if keys(next.left).contains(value) {
                                assert(lt(value, next.value) && lt(next.value, value));
                            }
                            assert forall|x: T| #[trigger] keys(next.right).contains(x) implies
                                between(Some(next.value), x, hi) by {
                                assert(keys(here).contains(x));
                            }
                        }
                        if next.right.is_some() {
                            proof {
                                lo = Some(next.value);
                                outside = outside.union(keys(next.left)).insert(next.value);
                            }
                            cur = &mut next.right;
                            proof {
                                lemma_node(here->0.value, here->0.left, here->0.right, lo0, hi0);
                                assert(done == Some(Box::new(Node { value: here->0.value, left: here->0.left, right: *final(cur) })));
                                lemma_node(here->0.value, here->0.left, *final(cur), lo0, hi0);
                                assert(keys(*final(link)) =~= outside.union(keys(*final(cur))));
                            }
                        } else {
                            next.insert(Way::Right, value);
                            proof {
                                assert(keys(here->0.right) =~= Set::<T>::empty());
                                assert(!keys(here).contains(value));
                                let leaf = Some(Box::new(Node::<T> { value, left: None, right: None }));
                                lemma_leaf(value);
                                assert(*final(cur) == Some(Box::new(Node::<T> { value: here->0.value, left: here->0.left, right: leaf })));
                                assert(lt(here->0.value, value));
                                assert(with_leaf(here->0.right, value) == leaf);
                                assert(*final(cur) == with_leaf(here, value));
                                lemma_node(here->0.value, here->0.left, here->0.right, lo, hi);
                                lemma_node(here->0.value, (*final(cur))->0.left, (*final(cur))->0.right, lo, hi);
                            }
                            return true;
                        }
                    },
                    Ordering::Greater => {
                        proof {
                            if keys(next.right).contains(value) {
                                assert(lt(value, next.value) && lt(next.value, value));
                            }
                            assert forall|x: T| #[trigger] keys(next.left).contains(x) implies
                                between(lo, x, Some(next.value)) by {
                                assert(keys(here).contains(x));
                            }
                        }
                        if next.left.is_some() {
                            proof {
                                hi = Some(next.value);
                                outside = outside.union(keys(next.right)).insert(next.value);
                            }
                            cur = &mut next.left;
                            proof {
                                lemma_node(here->0.value, here->0.left, here->0.right, lo0, hi0);
                                assert(done == Some(Box::new(Node { value: here->0.value, left: *final(cur), right: here->0.right })));
                                lemma_node(here->0.value, *final(cur), here->0.right, lo0, hi0);
                                assert(keys(*final(link)) =~= outside.union(keys(*final(cur))));
                            }
                        } else {
                            next.insert(Way::Left, value);
                            proof {
                                assert(keys(here->0.left) =~= Set::<T>::empty());
                                assert(!keys(here).contains(value));
                                let leaf = Some(Box::new(Node::<T> { value, left: None, right: None }));
                                lemma_leaf(value);
                                assert(*final(cur) == Some(Box::new(Node::<T> { value: here->0.value, left: leaf, right: here->0.right })));
                                assert(lt(value, here->0.value) && !lt(here->0.value, value));
                                assert(with_leaf(here->0.left, value) == leaf);
                                assert(*final(cur) == with_leaf(here, value));
                                lemma_node(here->0.value, here->0.left, here->0.right, lo, hi);
                                lemma_node(here->0.value, (*final(cur))->0.left, (*final(cur))->0.right, lo, hi);
                            }
                            return true;
                        }
                    },
                    Ordering::Equal => {
                        return false;
                    },
                }
            },
        }
    }
}

} // verus!
