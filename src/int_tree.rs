//! A binary search tree of `i32` values, which can also count them.
use vstd::prelude::*;

verus! {

use crate::order::lemma_i32_total_order;
use crate::node::{Link, keys, ordered, with_leaf, lemma_in_order};
use crate::descent::{insert_link, search_link};

/// An unbalanced binary search tree of `i32` values.
pub struct BST {
    root: Link<i32>,
}

impl View for BST {
    type V = Set<i32>;

    /// The values held in the tree.
    closed spec fn view(&self) -> Set<i32> {
        keys(self.root)
    }
}

impl BST {
    /// The search tree property holds throughout.
    pub closed spec fn well_formed(&self) -> bool {
        ordered(self.root)
    }

    /// The root link: the tree's nodes and how they hang together.
    pub closed spec fn links(&self) -> Link<i32> {
        self.root
    }

    /// An empty tree.
    pub fn new() -> (t: Self)
        ensures
            t.well_formed(),
            t@ == Set::<i32>::empty(),
            t@.finite(),
    {
        BST { root: None }
    }

    /// Adds `value` as a new leaf and returns true, unless it is already held:
    /// then returns false and leaves the tree as it was.
    pub fn insert(&mut self, value: i32) -> (r: bool)
        requires
            old(self).well_formed(),
        ensures
            final(self).well_formed(),
            final(self)@ == old(self)@.insert(value),
            final(self)@.finite(),
            r == !old(self)@.contains(value),
            !r ==> *final(self) == *old(self),
            final(self).links() == with_leaf(old(self).links(), value),
    {
        proof { lemma_i32_total_order(); }
        let r = insert_link(&mut self.root, value);
        proof { lemma_in_order(self.root); }
        r
    }

    /// Whether `value` is held.
    pub fn search(&self, value: i32) -> (r: bool)
        requires
            self.well_formed(),
        ensures
            r == self@.contains(value),
    {
        proof { lemma_i32_total_order(); }
        search_link(&self.root, &value)
    }

    /// How many values are held.
    pub fn length(&self) -> (r: i32)
        requires
            self.well_formed(),
            self@.len() <= i32::MAX,
        ensures
            r == self@.len(),
    {
        proof {
            lemma_i32_total_order();
            lemma_in_order(self.root);
        }
        match &self.root {
            Some(node) => node.length(),
            None => 0,
        }
    }
}

impl Default for BST {
    fn default() -> (t: Self)
        ensures
            t.well_formed(),
            t@ == Set::<i32>::empty(),
    {
        BST::new()
    }
}

} // verus!
