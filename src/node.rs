//! The nodes of a binary search tree, what they hold, and the search tree
//! property.
use vstd::prelude::*;

verus! {

use crate::order::{total_order, lt, lemma_total_order};
use crate::walk::in_order_refs;

/// An optional owned subtree.
pub type Link<T> = Option<Box<Node<T>>>;

/// One node: a value and its two subtrees.
pub struct Node<T> {
    pub value: T,
    pub left: Link<T>,
    pub right: Link<T>,
}

/// The side of a node on which a child hangs.
#[derive(Clone, Copy)]
pub enum Way {
    Left,
    Right,
}

/// The values held in a subtree.
pub open spec fn keys<T>(link: Link<T>) -> Set<T>
    decreases link,
{
    match link {
        None => Set::empty(),
        Some(n) => keys(n.left).union(keys(n.right)).insert(n.value),
    }
}

/// The values of a subtree, left to right.
pub open spec fn in_order<T>(link: Link<T>) -> Seq<T>
    decreases link,
{
    match link {
        None => Seq::empty(),
        Some(n) => in_order(n.left) + seq![n.value] + in_order(n.right),
    }
}

/// The search tree property: at every node, what hangs on the left is smaller
/// and what hangs on the right is greater.
pub open spec fn ordered<T: Ord>(link: Link<T>) -> bool
    decreases link,
{
    match link {
        None => true,
        Some(n) => {
            &&& forall|x: T| #[trigger] keys(n.left).contains(x) ==> lt(x, n.value)
            &&& forall|x: T| #[trigger] keys(n.right).contains(x) ==> lt(n.value, x)
            &&& ordered(n.left)
            &&& ordered(n.right)
        },
    }
}

/// `x` lies strictly between the optional bounds `lo` and `hi`.
pub open spec fn between<T: Ord>(lo: Option<T>, x: T, hi: Option<T>) -> bool {
    &&& (lo matches Some(l) ==> lt(l, x))
    &&& (hi matches Some(h) ==> lt(x, h))
}

/// Every value of the subtree lies strictly between `lo` and `hi`.
pub open spec fn within<T: Ord>(link: Link<T>, lo: Option<T>, hi: Option<T>) -> bool {
    forall|x: T| #[trigger] keys(link).contains(x) ==> between(lo, x, hi)
}

/// The subtree after a new leaf holding `value` was hung on the empty link
/// that a walk down by comparison reaches; unchanged where an equal value is
/// met on the way. Nothing else is moved or relinked.
pub open spec fn with_leaf<T: Ord>(link: Link<T>, value: T) -> Link<T>
    decreases link,
{
    match link {
        None => Some(Box::new(Node { value, left: None, right: None })),
        Some(n) => if lt(n.value, value) {
            Some(Box::new(Node { value: n.value, left: n.left, right: with_leaf(n.right, value) }))
        } else if lt(value, n.value) {
            Some(Box::new(Node { value: n.value, left: with_leaf(n.left, value), right: n.right }))
        } else {
            Some(n)
        },
    }
}

/// The shape of a subtree: its nodes and links, with the values left out.
pub open spec fn shape<T>(link: Link<T>) -> Link<()>
    decreases link,
{
    match link {
        None => None,
        Some(n) => Some(Box::new(Node { value: (), left: shape(n.left), right: shape(n.right) })),
    }
}

/// How many nodes hang from a node, itself included.
pub open spec fn node_size<T>(n: Node<T>) -> nat {
    in_order(n.left).len() + 1 + in_order(n.right).len()
}

impl<T> Node<T> {
    /// A leaf holding `value`.
    pub fn new(value: T) -> (n: Self)
        ensures
            n.value == value,
            n.left is None,
            n.right is None,
    {
        Node { value, left: None, right: None }
    }

    /// Hangs a new leaf holding `value` on the given side, in place of what
    /// hung there.
    pub fn insert(&mut self, way: Way, value: T)
        ensures
            final(self).value == old(self).value,
            way is Left ==> final(self).left == Some(Box::new(Node::<T> { value, left: None, right: None })),
            way is Left ==> final(self).right == old(self).right,
            way is Right ==> final(self).right == Some(Box::new(Node::<T> { value, left: None, right: None })),
            way is Right ==> final(self).left == old(self).left,
    {
        let node = Some(Box::new(Node::new(value)));
        match way {
            Way::Left => self.left = node,
            Way::Right => self.right = node,
        }
    }

    /// How many nodes hang from this one, itself included; counts them with an
    /// explicit-stack walk rather than by recursion.
    pub fn length(&self) -> (r: i32)
        requires
            node_size(*self) <= i32::MAX,
        ensures
            r == node_size(*self),
    {
        let left = in_order_refs(&self.left).len();
        let right = in_order_refs(&self.right).len();
        (left + 1 + right) as i32
    }
}

/// Strictly increasing.
pub open spec fn ascending<T: Ord>(s: Seq<T>) -> bool {
    forall|i: int, j: int| 0 <= i < j < s.len() ==> lt(#[trigger] s[i], #[trigger] s[j])
}

/// What an ordered subtree yields left to right: its values, each once, in
/// ascending order.
pub proof fn lemma_in_order<T: Ord>(link: Link<T>)
    requires
        total_order::<T>(),
        ordered(link),
    ensures
        ascending(in_order(link)),
        in_order(link).to_set() == keys(link),
        in_order(link).len() == keys(link).len(),
        keys(link).finite(),
    decreases link,
{
    lemma_total_order::<T>();
    match link {
        None => {
            assert(in_order(link).to_set() =~= keys(link));
        },
        Some(n) => {
            lemma_in_order(n.left);
            lemma_in_order(n.right);
            let l = in_order(n.left);
            let r = in_order(n.right);
            let s = in_order(link);
            assert(s == l + seq![n.value] + r);
            assert forall|i: int| 0 <= i < s.len() implies #[trigger] keys(link).contains(s[i])
                && (i < l.len() ==> lt(s[i], n.value))
                && (i > l.len() ==> lt(n.value, s[i])) by {
                if i < l.len() {
                    assert(s[i] == l[i]);
                    assert(l.contains(l[i]));
                    assert(l.to_set().contains(l[i]));
                } else if i > l.len() {
                    assert(r[i - l.len() - 1] == s[i]);
                    assert(r.contains(r[i - l.len() - 1]));
                    assert(r.to_set().contains(r[i - l.len() - 1]));
                }
            }
            assert forall|i: int, j: int| 0 <= i < j < s.len() implies lt(#[trigger] s[i], #[trigger] s[j]) by {
                assert(keys(link).contains(s[i]));
                assert(keys(link).contains(s[j]));
                if j < l.len() {
                    assert(s[i] == l[i] && s[j] == l[j]);
                } else if i > l.len() {
                    assert(r[i - l.len() - 1] == s[i]);
                    assert(r[j - l.len() - 1] == s[j]);
                } else if i < l.len() && j > l.len() {
                    assert(lt(s[i], n.value));
                }
            }
            assert forall|x: T| #[trigger] keys(link).contains(x) implies s.to_set().contains(x) by {
                if keys(n.left).contains(x) {
                    assert(l.to_set().contains(x));
                    let k = choose|k: int| 0 <= k < l.len() && l[k] == x;
                    assert(s[k] == x);
                } else if keys(n.right).contains(x) {
                    assert(r.to_set().contains(x));
                    let k = choose|k: int| 0 <= k < r.len() && r[k] == x;
                    assert(s[k + l.len() + 1] == x);
                } else {
                    assert(s[l.len() as int] == x);
                }
            }
            assert(s.to_set() =~= keys(link));
            s.unique_seq_to_set();
        },
    }
}

/// A subtree holds exactly the values that it yields left to right.
pub proof fn lemma_keys_in_order<T>(link: Link<T>)
    ensures
        in_order(link).to_set() == keys(link),
    decreases link,
{
    match link {
        None => {
            assert(in_order(link).to_set() =~= keys(link));
        },
        Some(n) => {
            lemma_keys_in_order(n.left);
            lemma_keys_in_order(n.right);
            let l = in_order(n.left);
            let r = in_order(n.right);
            let s = in_order(link);
            assert forall|x: T| #[trigger] s.to_set().contains(x) implies keys(link).contains(x) by {
                let k = choose|k: int| 0 <= k < s.len() && s[k] == x;
                if k < l.len() {
                    assert(l[k] == x && l.contains(x));
                } else if k > l.len() {
                    assert(r[k - l.len() - 1] == x && r.contains(x));
                }
            }
            assert forall|x: T| #[trigger] keys(link).contains(x) implies s.to_set().contains(x) by {
                if keys(n.left).contains(x) {
                    assert(l.to_set().contains(x));
                    let k = choose|k: int| 0 <= k < l.len() && l[k] == x;
                    assert(s[k] == x);
                } else if keys(n.right).contains(x) {
                    assert(r.to_set().contains(x));
                    let k = choose|k: int| 0 <= k < r.len() && r[k] == x;
                    assert(s[k + l.len() + 1] == x);
                } else {
                    assert(s[l.len() as int] == x);
                }
            }
            assert(s.to_set() =~= keys(link));
        },
    }
}

/// A subtree whose values come left to right in ascending order is ordered.
pub proof fn lemma_ordered_of_ascending<T: Ord>(link: Link<T>)
    requires
        total_order::<T>(),
        ascending(in_order(link)),
    ensures
        ordered(link),
    decreases link,
{
    match link {
        None => {},
        Some(n) => {
            let l = in_order(n.left);
            let r = in_order(n.right);
            let s = in_order(link);
            assert(s == l + seq![n.value] + r);
            assert(ascending(l)) by {
                assert forall|i: int, j: int| 0 <= i < j < l.len() implies lt(#[trigger] l[i], #[trigger] l[j]) by {
                    assert(s[i] == l[i] && s[j] == l[j]);
                }
            }
            assert(ascending(r)) by {
                assert forall|i: int, j: int| 0 <= i < j < r.len() implies lt(#[trigger] r[i], #[trigger] r[j]) by {
                    assert(s[i + l.len() + 1] == r[i] && s[j + l.len() + 1] == r[j]);
                }
            }
            lemma_ordered_of_ascending(n.left);
            lemma_ordered_of_ascending(n.right);
            lemma_keys_in_order(n.left);
            lemma_keys_in_order(n.right);
            assert(s[l.len() as int] == n.value);
            assert forall|x: T| #[trigger] keys(n.left).contains(x) implies lt(x, n.value) by {
                assert(l.to_set().contains(x));
                let k = choose|k: int| 0 <= k < l.len() && l[k] == x;
                assert(s[k] == x);
            }
            assert forall|x: T| #[trigger] keys(n.right).contains(x) implies lt(n.value, x) by {
                assert(r.to_set().contains(x));
                let k = choose|k: int| 0 <= k < r.len() && r[k] == x;
                assert(s[k + l.len() + 1] == x);
            }
        },
    }
}

/// `lemma_keys_in_order` and `lemma_ordered_of_ascending`, for every subtree.
pub(crate) proof fn lemma_every_subtree<T: Ord>()
    requires
        total_order::<T>(),
    ensures
        forall|l: Link<T>| #[trigger] in_order(l).to_set() == keys(l),
        forall|l: Link<T>| ascending(#[trigger] in_order(l)) ==> ordered(l),
{
    assert forall|l: Link<T>| #[trigger] in_order(l).to_set() == keys(l) by {
        lemma_keys_in_order(l);
    }
    assert forall|l: Link<T>| ascending(#[trigger] in_order(l)) implies ordered(l) by {
        lemma_ordered_of_ascending(l);
    }
}

/// A single leaf holds its one value and is ordered.
pub(crate) proof fn lemma_leaf<T: Ord>(value: T)
    ensures
        keys(Some(Box::new(Node::<T> { value, left: None, right: None }))) =~= set![value],
        ordered(Some(Box::new(Node::<T> { value, left: None, right: None }))),
        in_order(Some(Box::new(Node::<T> { value, left: None, right: None }))) =~= seq![value],
{
    let leaf = Some(Box::new(Node::<T> { value, left: None, right: None }));
    assert(keys(leaf->0.left) =~= Set::<T>::empty());
    assert(keys(leaf->0.right) =~= Set::<T>::empty());
    assert(in_order(leaf->0.left) =~= Seq::<T>::empty());
    assert(ordered(leaf->0.left));
    assert(ordered(leaf->0.right));
    assert(in_order(leaf->0.right) =~= Seq::<T>::empty());
}

/// A node is ordered and bounded exactly when its value lies within the bounds
/// and its subtrees are ordered and bounded on either side of that value.
pub(crate) proof fn lemma_node<T: Ord>(v: T, l: Link<T>, r: Link<T>, lo: Option<T>, hi: Option<T>)
    requires
        total_order::<T>(),
    ensures
        ordered(Some(Box::new(Node { value: v, left: l, right: r }))) && within(
            Some(Box::new(Node { value: v, left: l, right: r })),
            lo,
            hi,
        ) <==> {
            &&& between(lo, v, hi)
            &&& ordered(l)
            &&& within(l, lo, Some(v))
            &&& ordered(r)
            &&& within(r, Some(v), hi)
        },
        keys(Some(Box::new(Node { value: v, left: l, right: r }))) == keys(l).union(keys(r)).insert(v),
{
    lemma_total_order::<T>();
    let t = Some(Box::new(Node { value: v, left: l, right: r }));
    if ordered(t) && within(t, lo, hi) {
        assert(keys(t).contains(v));
        assert forall|x: T| #[trigger] keys(l).contains(x) implies between(lo, x, Some(v)) by {
            assert(keys(t).contains(x));
        }
        assert forall|x: T| #[trigger] keys(r).contains(x) implies between(Some(v), x, hi) by {
            assert(keys(t).contains(x));
        }
    }
    if between(lo, v, hi) && ordered(l) && within(l, lo, Some(v)) && ordered(r) && within(r, Some(v), hi) {
        assert forall|x: T| #[trigger] keys(t).contains(x) implies between(lo, x, hi) by {
            if keys(l).contains(x) {
                assert(between(lo, x, Some(v)));
            } else if keys(r).contains(x) {
                assert(between(Some(v), x, hi));
            }
        }
    }
}

} // verus!
