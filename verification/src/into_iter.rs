//! Consuming traversal cursors over the tree: the two pre-order-family
//! orders with opposite sibling priority, and the in-order traversal.
//! Each cursor is single-pass and stateful; once it reports no more
//! values it keeps reporting none.

use vstd::prelude::*;

use crate::avl::AvlNode;
use crate::avl::AvlTree;

verus! {

/// Remaining output of a stack of pending subtrees, popped from the end,
/// each contributing its node-right-left sequence.
pub open spec fn nrl_stack_seq(s: Seq<AvlTree>) -> Seq<u64>
    decreases s.len(),
{
    if s.len() == 0 {
        Seq::empty()
    } else {
        s.last().nrl_seq() + nrl_stack_seq(s.drop_last())
    }
}

/// Remaining output of a stack of pending subtrees, popped from the end,
/// each contributing its mirror-scheduled pre-order sequence.
pub open spec fn rln_stack_seq(s: Seq<AvlTree>) -> Seq<u64>
    decreases s.len(),
{
    if s.len() == 0 {
        Seq::empty()
    } else {
        s.last().rln_seq() + rln_stack_seq(s.drop_last())
    }
}

/// What one stacked ancestor still contributes to an in-order walk: its
/// own value, then its right subtree; its left subtree has already been
/// scheduled or consumed.
pub open spec fn lnr_visit(t: AvlTree) -> Seq<u64> {
    match t {
        AvlTree::Null => Seq::empty(),
        AvlTree::Tree(n) => seq![n.val] + n.right.lnr_seq(),
    }
}

/// Remaining output of the in-order ancestor stack, popped from the end.
pub open spec fn lnr_stack_seq(s: Seq<AvlTree>) -> Seq<u64>
    decreases s.len(),
{
    if s.len() == 0 {
        Seq::empty()
    } else {
        lnr_visit(s.last()) + lnr_stack_seq(s.drop_last())
    }
}

proof fn lemma_nrl_stack_push(s: Seq<AvlTree>, t: AvlTree)
    ensures
        nrl_stack_seq(s.push(t)) == t.nrl_seq() + nrl_stack_seq(s),
{
    assert(s.push(t).last() == t);
    assert(s.push(t).drop_last() =~= s);
}

proof fn lemma_rln_stack_push(s: Seq<AvlTree>, t: AvlTree)
    ensures
        rln_stack_seq(s.push(t)) == t.rln_seq() + rln_stack_seq(s),
{
    assert(s.push(t).last() == t);
    assert(s.push(t).drop_last() =~= s);
}

proof fn lemma_lnr_stack_push(s: Seq<AvlTree>, t: AvlTree)
    ensures
        lnr_stack_seq(s.push(t)) == lnr_visit(t) + lnr_stack_seq(s),
{
    assert(s.push(t).last() == t);
    assert(s.push(t).drop_last() =~= s);
}

/// Consuming node-right-left cursor: yields a node before its subtrees,
/// and a right subtree before its left sibling.
pub struct AvlNRLIntoIter {
    stack: Vec<AvlTree>,
}

/// Consuming cursor with the mirrored scheduling: yields a node before
/// its subtrees, and a left subtree before its right sibling.
pub struct AvlRLNIntoIter {
    stack: Vec<AvlTree>,
}

/// Consuming in-order cursor: yields the values in ascending order when
/// the tree is in search order.
pub struct AvlLNRIntoIter {
    stack: Vec<AvlTree>,
    current: AvlTree,
}

impl AvlTree {
    /// Consumes the tree into a node-right-left cursor.
    pub fn into_iter_nrl(self) -> (it: AvlNRLIntoIter)
        ensures
            it.remaining() == self.nrl_seq(),
    {
        let ghost t0 = self;
        let it = AvlNRLIntoIter { stack: vec![self] };
        proof {
            assert(it.stack@ =~= seq![t0]);
            assert(it.stack@.last() == t0);
            assert(it.stack@.drop_last() =~= Seq::<AvlTree>::empty());
            assert(nrl_stack_seq(it.stack@) =~= t0.nrl_seq() + nrl_stack_seq(
                Seq::<AvlTree>::empty(),
            ));
            assert(t0.nrl_seq() + Seq::<u64>::empty() =~= t0.nrl_seq());
        }
        it
    }

    /// Consumes the tree into the mirror-scheduled pre-order cursor.
    pub fn into_iter_rln(self) -> (it: AvlRLNIntoIter)
        ensures
            it.remaining() == self.rln_seq(),
    {
        let ghost t0 = self;
        let it = AvlRLNIntoIter { stack: vec![self] };
        proof {
            assert(it.stack@ =~= seq![t0]);
            assert(it.stack@.last() == t0);
            assert(it.stack@.drop_last() =~= Seq::<AvlTree>::empty());
            assert(rln_stack_seq(it.stack@) =~= t0.rln_seq() + rln_stack_seq(
                Seq::<AvlTree>::empty(),
            ));
            assert(t0.rln_seq() + Seq::<u64>::empty() =~= t0.rln_seq());
        }
        it
    }

    /// Consumes the tree into an in-order cursor.
    pub fn into_iter_lnr(self) -> (it: AvlLNRIntoIter)
        ensures
            it.wf(),
            it.remaining() == self.lnr_seq(),
    {
        AvlLNRIntoIter { stack: Vec::new(), current: self }
    }
}

impl AvlNRLIntoIter {
    /// The values still to be yielded, in order.
    pub closed spec fn remaining(self) -> Seq<u64> {
        nrl_stack_seq(self.stack@)
    }

    /// Yields the next value; after exhaustion the cursor stays empty.
    pub fn next(&mut self) -> (r: Option<u64>)
        ensures
            old(self).remaining().len() == 0 ==> r is None && final(self).remaining().len() == 0,
            old(self).remaining().len() > 0 ==> r == Some(old(self).remaining()[0]) && final(self).remaining() == old(self).remaining().drop_first(),
    {
        loop
            invariant
                nrl_stack_seq(self.stack@) == old(self).remaining(),
            decreases self.stack@.len(),
        {
            let popped = self.stack.pop();
            match popped {
                None => {
                    return None;
                },
                Some(tree) => {
                    let ghost tr = tree;
                    let ghost rest = self.stack@;
                    match tree {
                        AvlTree::Null => {
                            proof {
                                assert(tr.nrl_seq() =~= Seq::<u64>::empty());
                                assert(nrl_stack_seq(rest) =~= tr.nrl_seq() + nrl_stack_seq(rest));
                            }
                        },
                        AvlTree::Tree(node) => {
                            let v = node.val;
                            let ghost lt = node.left;
                            let ghost rt = node.right;
                            match node.left {
                                AvlTree::Null => {},
                                AvlTree::Tree(n2) => {
                                    self.stack.push(AvlTree::Tree(n2));
                                },
                            }
                            proof {
                                if lt is Tree {
                                    lemma_nrl_stack_push(rest, lt);
                                }
                                assert(nrl_stack_seq(self.stack@) =~= lt.nrl_seq() + nrl_stack_seq(rest));
                            }
                            let ghost mid = self.stack@;
                            match node.right {
                                AvlTree::Null => {},
                                AvlTree::Tree(n2) => {
                                    self.stack.push(AvlTree::Tree(n2));
                                },
                            }
                            proof {
                                if rt is Tree {
                                    lemma_nrl_stack_push(mid, rt);
                                }
                                assert(nrl_stack_seq(self.stack@) =~= rt.nrl_seq()
                                    + lt.nrl_seq() + nrl_stack_seq(rest));
                                assert(tr.nrl_seq() == seq![v] + rt.nrl_seq() + lt.nrl_seq());
                                assert(old(self).remaining() =~= seq![v] + nrl_stack_seq(self.stack@));
                                assert(old(self).remaining()[0] == v);
                                assert(final(self).remaining() =~= old(self).remaining().drop_first());
                            }
                            return Some(v);
                        },
                    }
                },
            }
        }
    }
}

impl AvlRLNIntoIter {
    /// The values still to be yielded, in order.
    pub closed spec fn remaining(self) -> Seq<u64> {
        rln_stack_seq(self.stack@)
    }

    /// Yields the next value; after exhaustion the cursor stays empty.
    pub fn next(&mut self) -> (r: Option<u64>)
        ensures
            old(self).remaining().len() == 0 ==> r is None && final(self).remaining().len() == 0,
            old(self).remaining().len() > 0 ==> r == Some(old(self).remaining()[0]) && final(self).remaining() == old(self).remaining().drop_first(),
    {
        loop
            invariant
                rln_stack_seq(self.stack@) == old(self).remaining(),
            decreases self.stack@.len(),
        {
            let popped = self.stack.pop();
            match popped {
                None => {
                    return None;
                },
                Some(tree) => {
                    let ghost tr = tree;
                    let ghost rest = self.stack@;
                    match tree {
                        AvlTree::Null => {
                            proof {
                                assert(tr.rln_seq() =~= Seq::<u64>::empty());
                                assert(rln_stack_seq(rest) =~= tr.rln_seq() + rln_stack_seq(rest));
                            }
                        },
                        AvlTree::Tree(node) => {
                            let v = node.val;
                            let ghost lt = node.left;
                            let ghost rt = node.right;
                            match node.right {
                                AvlTree::Null => {},
                                AvlTree::Tree(n2) => {
                                    self.stack.push(AvlTree::Tree(n2));
                                },
                            }
                            proof {
                                if rt is Tree {
                                    lemma_rln_stack_push(rest, rt);
                                }
                                assert(rln_stack_seq(self.stack@) =~= rt.rln_seq() + rln_stack_seq(rest));
                            }
                            let ghost mid = self.stack@;
                            match node.left {
                                AvlTree::Null => {},
                                AvlTree::Tree(n2) => {
                                    self.stack.push(AvlTree::Tree(n2));
                                },
                            }
                            proof {
                                if lt is Tree {
                                    lemma_rln_stack_push(mid, lt);
                                }
                                assert(rln_stack_seq(self.stack@) =~= lt.rln_seq()
                                    + rt.rln_seq() + rln_stack_seq(rest));
                                assert(tr.rln_seq() == seq![v] + lt.rln_seq() + rt.rln_seq());
                                assert(old(self).remaining() =~= seq![v] + rln_stack_seq(self.stack@));
                                assert(old(self).remaining()[0] == v);
                                assert(final(self).remaining() =~= old(self).remaining().drop_first());
                            }
                            return Some(v);
                        },
                    }
                },
            }
        }
    }
}

impl AvlLNRIntoIter {
    /// The cursor never stacks an empty subtree.
    pub closed spec fn wf(self) -> bool {
        forall|i: int| 0 <= i < self.stack@.len() ==> self.stack@[i] is Tree
    }

    /// The values still to be yielded, in order.
    pub closed spec fn remaining(self) -> Seq<u64> {
        self.current.lnr_seq() + lnr_stack_seq(self.stack@)
    }

    /// Yields the next value; after exhaustion the cursor stays empty.
    pub fn next(&mut self) -> (r: Option<u64>)
        requires
            old(self).wf(),
        ensures
            final(self).wf(),
            old(self).remaining().len() == 0 ==> r is None && final(self).remaining().len() == 0,
            old(self).remaining().len() > 0 ==> r == Some(old(self).remaining()[0]) && final(self).remaining() == old(self).remaining().drop_first(),
    {
        loop
            invariant
                self.wf(),
                self.current.lnr_seq() + lnr_stack_seq(self.stack@) == old(self).remaining(),
            decreases self.current.height(),
        {
            let ghost cur0 = self.current;
            let ghost stack0 = self.stack@;
            let t = self.current.take();
            match t {
                AvlTree::Tree(mut node) => {
                    let ghost lt = node.left;
                    self.current = node.left.take();
                    let ghost pushed = AvlTree::Tree(Box::new(AvlNode { left: AvlTree::Null, ..*node }));
                    self.stack.push(AvlTree::Tree(node));
                    proof {
                        lemma_lnr_stack_push(stack0, pushed);
                        assert(lnr_visit(pushed) == seq![pushed->Tree_0.val]
                            + pushed->Tree_0.right.lnr_seq());
                        assert(cur0.lnr_seq() == lt.lnr_seq() + lnr_visit(pushed));
                        assert(self.current.lnr_seq() + lnr_stack_seq(self.stack@) =~= old(self).remaining());
                    }
                },
                AvlTree::Null => {
                    let popped = self.stack.pop();
                    match popped {
                        Some(tree) => {
                            let ghost tr = tree;
                            proof {
                                assert(stack0.last() == tr);
                                assert(tr is Tree);
                            }
                            match tree {
                                AvlTree::Tree(mut node) => {
                                    let v = node.val;
                                    let ghost rt = node.right;
                                    self.current = node.right.take();
                                    proof {
                                        assert(lnr_visit(tr) == seq![v] + rt.lnr_seq());
                                        assert(old(self).remaining() =~= seq![v]
                                            + self.current.lnr_seq() + lnr_stack_seq(self.stack@));
                                        assert(old(self).remaining()[0] == v);
                                        assert(final(self).remaining() =~= old(self).remaining().drop_first());
                                    }
                                    return Some(v);
                                },
                                AvlTree::Null => {
                                    proof {
                                        assert(false);
                                    }
                                    return None;
                                },
                            }
                        },
                        None => {
                            return None;
                        },
                    }
                },
            }
        }
    }
}

} // verus!
