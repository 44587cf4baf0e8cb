//! Walking a whole subtree in order with an explicit stack, by shared
//! reference, by exclusive reference, or taking it apart.
use vstd::prelude::*;

verus! {

use crate::node::{Link, Node, in_order, shape};

/// The values still owed by a traversal stack, top entry first: each entry's
/// own value, then its right subtree.
pub open spec fn pending<T>(s: Seq<Node<T>>) -> Seq<T>
    decreases s.len(),
{
    if s.len() == 0 {
        Seq::empty()
    } else {
        seq![s.last().value] + in_order(s.last().right) + pending(s.drop_last())
    }
}

/// The values behind a sequence of references.
pub open spec fn derefs<T>(s: Seq<&T>) -> Seq<T> {
    s.map_values(|x: &T| *x)
}

/// Pushing a node onto a traversal stack puts its value and its right subtree
/// in front of what was owed.
proof fn lemma_pending_push<T>(s: Seq<Node<T>>, n: Node<T>)
    ensures
        pending(s.push(n)) == seq![n.value] + in_order(n.right) + pending(s),
{
    assert(s.push(n).drop_last() =~= s);
}

/// Shared references to the values of a subtree, left to right; walks the
/// subtree with an explicit stack, so that the depth of the tree does not bear
/// on the depth of the call stack.
pub(crate) fn in_order_refs<T>(link: &Link<T>) -> (r: Vec<&T>)
    ensures
        derefs(r@) == in_order(*link),
{
    let mut out: Vec<&T> = Vec::new();
    let mut stack: Vec<&Node<T>> = Vec::new();
    let mut cur: &Link<T> = link;
    loop
        invariant
            derefs(out@) + in_order(*cur) + pending(derefs(stack@)) == in_order(*link),
        ensures
            derefs(out@) == in_order(*link),
        decreases in_order(*link).len() - out@.len(),
    {
        loop
            invariant
                derefs(out@) + in_order(*cur) + pending(derefs(stack@)) == in_order(*link),
            ensures
                derefs(out@) + pending(derefs(stack@)) == in_order(*link),
            decreases *cur,
        {
            match cur {
                None => {
                    proof {
                        assert(in_order::<T>(None) =~= Seq::<T>::empty());
                        assert(derefs(out@) + pending(derefs(stack@)) =~= derefs(out@) + in_order(*cur)
                            + pending(derefs(stack@)));
                    }
                    break;
                },
                Some(n) => {
                    let ghost before = derefs(stack@);
                    stack.push(&**n);
                    proof {
                        assert(derefs(stack@) =~= before.push(**n));
                        lemma_pending_push(before, **n);
                    }
                    cur = &n.left;
                },
            }
        }
        let ghost before = derefs(stack@);
        let ghost done = derefs(out@);
        match stack.pop() {
            None => {
                proof {
                    assert(pending(before) =~= Seq::<T>::empty());
                    assert(done + pending(before) =~= done);
                }
                break;
            },
            Some(n) => {
                proof {
                    assert(before.drop_last() =~= derefs(stack@));
                }
                out.push(&n.value);
                cur = &n.right;
                proof {
                    assert(derefs(out@) =~= done.push(n.value));
                    assert(derefs(out@) + in_order(*cur) + pending(derefs(stack@)) =~= done
                        + pending(before));
                }
            },
        }
    }
    out
}

/// The values of a subtree, left to right, taken out of it; walks the subtree
/// with an explicit stack, like `in_order_refs`.
pub(crate) fn in_order_values<T>(link: Link<T>) -> (r: Vec<T>)
    ensures
        r@ == in_order(link),
{
    let ghost all = in_order(link);
    let mut out: Vec<T> = Vec::new();
    let mut stack: Vec<Node<T>> = Vec::new();
    let mut cur: Link<T> = link;
    loop
        invariant
            out@ + in_order(cur) + pending(stack@) == all,
        ensures
            out@ == all,
        decreases all.len() - out@.len(),
    {
        loop
            invariant
                out@ + in_order(cur) + pending(stack@) == all,
            ensures
                out@ + pending(stack@) == all,
            decreases cur,
        {
            match cur {
                None => {
                    proof {
                        assert(in_order::<T>(None) =~= Seq::<T>::empty());
                        assert(out@ + pending(stack@) =~= out@ + in_order(cur) + pending(stack@));
                    }
                    break;
                },
                Some(b) => {
                    let ghost before = stack@;
                    let Node { value, left, right } = *b;
                    let n = Node { value, left: None, right };
                    proof {
                        lemma_pending_push(before, n);
                    }
                    stack.push(n);
                    cur = left;
                },
            }
        }
        let ghost before = stack@;
        let ghost done = out@;
        match stack.pop() {
            None => {
                proof {
                    assert(pending(before) =~= Seq::<T>::empty());
                    assert(done + pending(before) =~= done);
                }
                break;
            },
            Some(n) => {
                proof {
                    assert(before.drop_last() =~= stack@);
                }
                out.push(n.value);
                cur = n.right;
                proof {
                    assert(out@ + in_order(cur) + pending(stack@) =~= done + pending(before));
                }
            },
        }
    }
    out
}

/// The values that a sequence of exclusive references point to now.
pub open spec fn currents<T>(s: Seq<&mut T>) -> Seq<T> {
    s.map_values(|x: &mut T| *x)
}

/// What a traversal stack of (value, right subtree) entries still owes, top
/// entry first.
pub open spec fn pending_pairs<T>(s: Seq<(T, Link<T>)>) -> Seq<T>
    decreases s.len(),
{
    if s.len() == 0 {
        Seq::empty()
    } else {
        seq![s.last().0] + in_order(s.last().1) + pending_pairs(s.drop_last())
    }
}

/// Pushing an entry puts its value and its right subtree in front of what was
/// owed.
proof fn lemma_pending_pairs_push<T>(s: Seq<(T, Link<T>)>, p: (T, Link<T>))
    ensures
        pending_pairs(s.push(p)) == seq![p.0] + in_order(p.1) + pending_pairs(s),
{
    assert(s.push(p).drop_last() =~= s);
}

/// The entries of an exclusive traversal stack as they stand now.
pub open spec fn entries_now<T>(s: Seq<(&mut T, &mut Link<T>)>) -> Seq<(T, Link<T>)> {
    s.map_values(|p: (&mut T, &mut Link<T>)| (*p.0, *p.1))
}

/// Exclusive references to the values of a subtree, left to right; walks the
/// subtree with an explicit stack. The subtree keeps its shape, and ends up
/// holding, left to right, what the references are left holding.
pub(crate) fn in_order_mut<T>(link: &mut Link<T>) -> (r: Vec<&mut T>)
    ensures
        currents(r@) == in_order(*old(link)),
        in_order(*final(link)) == r@.map_values(|x: &mut T| *final(x)),
        shape(*final(link)) == shape(*old(link)),
{
    let ghost all = in_order(*link);
    let ghost fin = in_order(*final(link));
    let ghost fin_shape = shape(*final(link));
    let ghost old_shape = shape(*link);
    let mut out: Vec<&mut T> = Vec::new();
    let mut stack: Vec<(&mut T, &mut Link<T>)> = Vec::new();
    let mut cur: &mut Link<T> = link;
    loop
        invariant
            currents(out@) + in_order(*cur) + pending_pairs(entries_now(stack@)) == all,
            fin == out@.map_values(|x: &mut T| *final(x)) + in_order(*final(cur)) + pending_pairs(stack@.map_values(|p: (&mut T, &mut Link<T>)| (*final(p.0), *final(p.1)))),
            shape(*final(cur)) == shape(*cur) && (forall|i: int| 0 <= i < stack@.len() ==> shape(*final(#[trigger] stack@[i].1)) == shape(*stack@[i].1)) ==> fin_shape == old_shape,
        ensures
            currents(out@) == all,
            fin == out@.map_values(|x: &mut T| *final(x)),
            fin_shape == old_shape,
        decreases all.len() - out@.len(),
    {
        loop
            invariant
                currents(out@) + in_order(*cur) + pending_pairs(entries_now(stack@)) == all,
                fin == out@.map_values(|x: &mut T| *final(x)) + in_order(*final(cur)) + pending_pairs(stack@.map_values(|p: (&mut T, &mut Link<T>)| (*final(p.0), *final(p.1)))),
                shape(*final(cur)) == shape(*cur) && (forall|i: int| 0 <= i < stack@.len() ==> shape(*final(#[trigger] stack@[i].1)) == shape(*stack@[i].1)) ==> fin_shape == old_shape,
            ensures
                currents(out@) + pending_pairs(entries_now(stack@)) == all,
                fin == out@.map_values(|x: &mut T| *final(x)) + pending_pairs(stack@.map_values(|p: (&mut T, &mut Link<T>)| (*final(p.0), *final(p.1)))),
                (forall|i: int| 0 <= i < stack@.len() ==> shape(*final(#[trigger] stack@[i].1)) == shape(*stack@[i].1)) ==> fin_shape == old_shape,
            decreases *cur,
        {
            let ghost here = *cur;
            let ghost done = *final(cur);
            match cur {
                None => {
                    proof {
                        assert(in_order::<T>(None) =~= Seq::<T>::empty());
                        assert(currents(out@) + pending_pairs(entries_now(stack@)) =~= currents(out@) + in_order(*cur)
                            + pending_pairs(entries_now(stack@)));
                        assert(out@.map_values(|x: &mut T| *final(x)) + pending_pairs(stack@.map_values(|p: (&mut T, &mut Link<T>)| (*final(p.0), *final(p.1)))) =~= out@.map_values(|x: &mut T| *final(x)) + in_order(*final(cur))
                            + pending_pairs(stack@.map_values(|p: (&mut T, &mut Link<T>)| (*final(p.0), *final(p.1)))));
                    }
                    break;
                },
                Some(n) => {
                    let ghost before = stack@;
                    let Node { value, left, right } = &mut **n;
                    let ghost fv = *final(value);
                    let ghost fr = *final(right);
                    let ghost fl = *final(left);
                    let ghost now_before = entries_now(before);
                    let ghost fin_before = before.map_values(|p: (&mut T, &mut Link<T>)| (*final(p.0), *final(p.1)));
                    let ghost now_entry = (*value, *right);
                    proof {
                        assert(done == Some(Box::new(Node { value: fv, left: fl, right: fr })));
                    }
                    stack.push((value, right));
                    cur = left;
                    proof {
                        assert(entries_now(stack@) =~= now_before.push(now_entry));
                        assert(stack@.map_values(|p: (&mut T, &mut Link<T>)| (*final(p.0), *final(p.1)))
                            =~= fin_before.push((fv, fr)));
                        lemma_pending_pairs_push(now_before, now_entry);
                        lemma_pending_pairs_push(fin_before, (fv, fr));
                        let top = before.len() as int;
                        assert(*stack@[top].1 == now_entry.1);
                        assert(*final(stack@[top].1) == fr);
                        assert(forall|i: int| 0 <= i < before.len() ==> stack@[i] == before[i]);
                        assert(here == Some(Box::new(Node { value: now_entry.0, left: *cur, right: now_entry.1 })));
                        assert(shape(*final(cur)) == shape(*cur) && shape(fr) == shape(now_entry.1)
                            ==> shape(done) == shape(here));
                    }
                },
            }
        }
        let ghost before = stack@;
        match stack.pop() {
            None => {
                proof {
                    assert(pending_pairs(entries_now(before)) =~= Seq::<T>::empty());
                    assert(pending_pairs(before.map_values(|p: (&mut T, &mut Link<T>)| (*final(p.0), *final(p.1)))) =~= Seq::<T>::empty());
                    assert(currents(out@) + pending_pairs(entries_now(before)) =~= currents(out@));
                    assert(out@.map_values(|x: &mut T| *final(x)) + pending_pairs(before.map_values(|p: (&mut T, &mut Link<T>)| (*final(p.0), *final(p.1)))) =~= out@.map_values(|x: &mut T| *final(x)));
                }
                break;
            },
            Some(top) => {
                let ghost done_now = currents(out@);
                let ghost done_final = out@.map_values(|x: &mut T| *final(x));
                let (v, r) = top;
                proof {
                    assert(before =~= stack@.push((v, r)));
                    assert(entries_now(before) =~= entries_now(stack@).push((*v, *r)));
                    assert(before.map_values(|p: (&mut T, &mut Link<T>)| (*final(p.0), *final(p.1)))
                        =~= stack@.map_values(|p: (&mut T, &mut Link<T>)| (*final(p.0), *final(p.1))).push((*final(v), *final(r))));
                    lemma_pending_pairs_push(entries_now(stack@), (*v, *r));
                    lemma_pending_pairs_push(stack@.map_values(|p: (&mut T, &mut Link<T>)| (*final(p.0), *final(p.1))), (*final(v), *final(r)));
                }
                let ghost cv = *v;
                let ghost fv = *final(v);
                out.push(v);
                cur = r;
                proof {
                    assert(currents(out@) =~= done_now.push(cv));
                    assert(out@.map_values(|x: &mut T| *final(x)) =~= done_final.push(fv));
                    assert(currents(out@) + in_order(*cur) + pending_pairs(entries_now(stack@)) =~= done_now
                        + pending_pairs(entries_now(before)));
                    assert(out@.map_values(|x: &mut T| *final(x)) + in_order(*final(cur)) + pending_pairs(stack@.map_values(|p: (&mut T, &mut Link<T>)| (*final(p.0), *final(p.1)))) =~= done_final
                        + pending_pairs(before.map_values(|p: (&mut T, &mut Link<T>)| (*final(p.0), *final(p.1)))));
                }
            },
        }
    }
    out
}

} // verus!
