//! An unbalanced binary search tree over any totally ordered element type.
use vstd::prelude::*;

verus! {

use crate::order::total_order;
use crate::node::{Link, keys, in_order, ordered, with_leaf, shape, ascending, lemma_in_order, lemma_keys_in_order, lemma_every_subtree};
use crate::sort::{sorted, keys_of, sort_by_key, lemma_same_multiset_same_set, lemma_map_same_multiset};
use crate::descent::{insert_link, search_link};
use crate::walk::{derefs, currents, in_order_refs, in_order_values, in_order_mut};

/// An unbalanced binary search tree: an optional root node that owns the
/// whole structure. Its shape follows from the order of insertion alone.
pub struct BST<T> {
    root: Link<T>,
}

impl<T> View for BST<T> {
    type V = Set<T>;

    /// The values held in the tree.
    closed spec fn view(&self) -> Set<T> {
        keys(self.root)
    }
}

impl<T: Ord> BST<T> {
    /// The search tree property holds throughout.
    pub closed spec fn well_formed(&self) -> bool {
        ordered(self.root)
    }

    /// The tree's values, left to right.
    pub closed spec fn values_in_order(&self) -> Seq<T> {
        in_order(self.root)
    }

    /// The root link: the tree's nodes and how they hang together.
    pub closed spec fn links(&self) -> Link<T> {
        self.root
    }

    /// An empty tree.
    pub fn new() -> (t: Self)
        ensures
            t.well_formed(),
            t@ == Set::<T>::empty(),
            t@.finite(),
    {
        BST { root: None }
    }

    /// Adds `value` as a new leaf and returns true, unless an equal value is
    /// already held: then returns false and leaves the tree as it was.
    pub fn insert(&mut self, value: T) -> (r: bool)
        requires
            total_order::<T>(),
            old(self).well_formed(),
        ensures
            final(self).well_formed(),
            final(self)@ == old(self)@.insert(value),
            final(self)@.finite(),
            r == !old(self)@.contains(value),
            !r ==> *final(self) == *old(self),
            final(self).links() == with_leaf(old(self).links(), value),
    {
        let r = insert_link(&mut self.root, value);
        proof { lemma_in_order(self.root); }
        r
    }

    /// Whether a value equal to `value` is held.
    pub fn search(&self, value: &T) -> (r: bool)
        requires
            total_order::<T>(),
            self.well_formed(),
        ensures
            r == self@.contains(*value),
    {
        search_link(&self.root, value)
    }

    /// Takes the tree apart and returns its values, each as often as it is
    /// held, sorted by `cmp`: collects them with an in-order walk, then sorts
    /// them, so that the result is sorted also where changes made through
    /// `values_mut` broke the tree's order. On a well formed tree each value
    /// comes once, in ascending order.
    pub fn into_values(self) -> (r: Vec<T>)
        requires
            total_order::<T>(),
        ensures
            sorted(r@),
            r@.to_multiset() == self.values_in_order().to_multiset(),
            r@.to_set() == self@,
            self.well_formed() ==> ascending(r@),
    {
        proof {
            lemma_keys_in_order(self.root);
            if self.well_formed() {
                lemma_in_order(self.root);
            }
        }
        let ghost root = self.root;
        let v = in_order_values(self.root);
        let r = sort_by_key::<T, T>(v);
        proof {
            assert(keys_of(r@) =~= r@);
            assert(keys_of(v@) =~= v@);
            lemma_same_multiset_same_set(r@, in_order(root));
        }
        r
    }

    /// Shared references to the tree's values, each as often as it is held,
    /// sorted by `cmp`; the tree is left as it is. Sorts what an in-order walk
    /// collected, like `into_values`. On a well formed tree each value comes
    /// once, in ascending order.
    pub fn values(&self) -> (r: Vec<&T>)
        requires
            total_order::<T>(),
        ensures
            sorted(derefs(r@)),
            derefs(r@).to_multiset() == self.values_in_order().to_multiset(),
            derefs(r@).to_set() == self@,
            self.well_formed() ==> ascending(derefs(r@)),
    {
        proof {
            lemma_keys_in_order(self.root);
            if self.well_formed() {
                lemma_in_order(self.root);
            }
        }
        let v = in_order_refs(&self.root);
        let r = sort_by_key::<T, &T>(v);
        proof {
            assert(keys_of(r@) =~= derefs(r@));
            assert(keys_of(v@) =~= derefs(v@));
            lemma_same_multiset_same_set(derefs(r@), in_order(self.root));
        }
        r
    }

    /// Exclusive references to the tree's values, each as often as it is held,
    /// sorted by `cmp`, through which the caller may change them in place.
    /// Sorts what an in-order walk collected, like `into_values`. The tree
    /// keeps its nodes and links; only the values change. Nothing is repaired:
    /// where the values are left out of order, the tree is no longer well
    /// formed, and later traversals still sort what it holds.
    ///
    /// On a well formed tree the references come in the tree's own order, so
    /// that the tree ends up holding, in that order, what they are left holding.
    pub fn values_mut(&mut self) -> (r: Vec<&mut T>)
        requires
            total_order::<T>(),
        ensures
            sorted(currents(r@)),
            currents(r@).to_multiset() == old(self).values_in_order().to_multiset(),
            currents(r@).to_set() == old(self)@,
            old(self).well_formed() ==> ascending(currents(r@)),
            shape(final(self).links()) == shape(old(self).links()),
            final(self).values_in_order().to_multiset() == r@.map_values(|x: &mut T| *final(x)).to_multiset(),
            old(self).well_formed() ==> final(self).values_in_order() == r@.map_values(|x: &mut T| *final(x)),
            old(self).well_formed() ==> final(self)@ == r@.map_values(|x: &mut T| *final(x)).to_set(),
            old(self).well_formed() && ascending(r@.map_values(|x: &mut T| *final(x)))
                ==> final(self).well_formed(),
    {
        proof {
            lemma_keys_in_order(self.root);
            if self.well_formed() {
                lemma_in_order(self.root);
            }
        }
        let ghost root = self.root;
        let v = in_order_mut(&mut self.root);
        let r = sort_by_key::<T, &mut T>(v);
        proof {
            lemma_every_subtree::<T>();
            assert(keys_of(r@) =~= currents(r@));
            assert(keys_of(v@) =~= currents(v@));
            lemma_same_multiset_same_set(currents(r@), in_order(root));
            lemma_map_same_multiset::<&mut T, T>(r@, v@);
        }
        r
    }
}

impl<T: Ord> Default for BST<T> {
    fn default() -> (t: Self)
        ensures
            t.well_formed(),
            t@ == Set::<T>::empty(),
    {
        BST::new()
    }
}

} // verus!
