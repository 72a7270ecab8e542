//! Borrowing in-order cursor: walks the tree left-node-right without
//! consuming it, yielding references to the stored values. Single-pass;
//! once exhausted it stays exhausted.

use vstd::prelude::*;

use crate::avl::AvlTree;
use crate::into_iter::lnr_stack_seq;
use crate::into_iter::lnr_visit;

verus! {

/// Borrowing in-order cursor over a tree.
pub struct AvlLNRIter<'a> {
    stack: Vec<&'a AvlTree>,
    current: &'a AvlTree,
}

/// The trees a stack of references stands for, in stack order.
pub open spec fn deref_stack(s: Seq<&AvlTree>) -> Seq<AvlTree>
    decreases s.len(),
{
    if s.len() == 0 {
        Seq::empty()
    } else {
        deref_stack(s.drop_last()).push(*s.last())
    }
}

proof fn lemma_deref_stack_push(s: Seq<&AvlTree>, t: &AvlTree)
    ensures
        deref_stack(s.push(t)) == deref_stack(s).push(*t),
{
    assert(s.push(t).last() == t);
    assert(s.push(t).drop_last() =~= s);
}

impl AvlTree {
    /// A borrowing in-order cursor positioned at the start.
    pub fn iter_lnr(&self) -> (it: AvlLNRIter<'_>)
        ensures
            it.wf(),
            it.remaining() == self.lnr_seq(),
    {
        let it = AvlLNRIter { stack: Vec::new(), current: self };
        proof {
            assert(deref_stack(it.stack@) =~= Seq::<AvlTree>::empty());
            assert(it.remaining() =~= self.lnr_seq());
        }
        it
    }
}

impl<'a> AvlLNRIter<'a> {
    /// The cursor never stacks an empty subtree.
    pub closed spec fn wf(self) -> bool {
        forall|i: int| 0 <= i < self.stack@.len() ==> *self.stack@[i] is Tree
    }

    /// The values still to be yielded, in order.
    pub closed spec fn remaining(self) -> Seq<u64> {
        self.current.lnr_seq() + lnr_stack_seq(deref_stack(self.stack@))
    }

    /// Yields a reference to the next value; after exhaustion the cursor
    /// stays empty.
    pub fn next(&mut self) -> (r: Option<&'a u64>)
        requires
            old(self).wf(),
        ensures
            final(self).wf(),
            old(self).remaining().len() == 0 ==> r is None && final(self).remaining().len() == 0,
            old(self).remaining().len() > 0 ==> (match r {
                Some(v) => *v == old(self).remaining()[0],
                None => false,
            }) && final(self).remaining() == old(self).remaining().drop_first(),
    {
        loop
            invariant
                self.wf(),
                self.current.lnr_seq() + lnr_stack_seq(deref_stack(self.stack@)) == old(
                    self,
                ).remaining(),
            decreases self.current.height(),
        {
            let cur = self.current;
            let ghost stack0 = self.stack@;
            match cur {
                AvlTree::Tree(node) => {
                    self.stack.push(cur);
                    self.current = &node.left;
                    proof {
                        lemma_deref_stack_push(stack0, cur);
                        lemma_lnr_stack_push_tree(deref_stack(stack0), *cur);
                        assert(lnr_visit(*cur) == seq![node.val] + node.right.lnr_seq());
                        assert(self.current.lnr_seq() + lnr_stack_seq(deref_stack(self.stack@))
                            =~= old(self).remaining());
                    }
                },
                AvlTree::Null => {
                    let popped = self.stack.pop();
                    match popped {
                        Some(tree) => {
                            proof {
                                assert(stack0.last() == tree);
                                assert(*tree is Tree);
                                assert(deref_stack(self.stack@) =~= deref_stack(
                                    stack0,
                                ).drop_last());
                            }
                            match tree {
                                AvlTree::Tree(node) => {
                                    self.current = &node.right;
                                    proof {
                                        assert(lnr_visit(*tree) == seq![node.val]
                                            + node.right.lnr_seq());
                                        assert(old(self).remaining() =~= seq![node.val]
                                            + self.current.lnr_seq() + lnr_stack_seq(
                                            deref_stack(self.stack@),
                                        ));
                                        assert(old(self).remaining()[0] == node.val);
                                        assert(final(self).remaining() =~= old(
                                            self,
                                        ).remaining().drop_first());
                                    }
                                    return Some(&node.val);
                                },
                                AvlTree::Null => {
                                    proof {
                                        assert(false);
                                    }
                                    return None;
                                },
                            }
                        },
                        None => {
                            return None;
                        },
                    }
                },
            }
        }
    }
}

/// Stacking one more pending subtree prepends its contribution.
proof fn lemma_lnr_stack_push_tree(s: Seq<AvlTree>, t: AvlTree)
    ensures
        lnr_stack_seq(s.push(t)) == lnr_visit(t) + lnr_stack_seq(s),
{
    assert(s.push(t).last() == t);
    assert(s.push(t).drop_last() =~= s);
}

} // verus!
