//! In-order cursor for updating stored values in place. The cursor holds
//! an in-order position rather than a pointer into the tree, so it never
//! aliases the tree's storage: reading goes through a shared borrow of
//! the tree, writing through an exclusive one, one value at a time.
//!
//! Rewriting values can reorder them; the caller's contract is that a
//! whole pass preserves the relative order of the values
//! (`lemma_mut_traversal_consistency` states what such a pass leaves
//! behind). The cursor itself does not enforce this.

use vstd::prelude::*;

use crate::avl::lemma_lnr_len;
use crate::avl::lnr_update;
use crate::avl::AvlTree;

verus! {

/// In-order cursor over positions of a tree: single-pass, advanced by
/// `next`, with `set` rewriting the value most recently yielded.
pub struct AvlLNRIterMut {
    pos: usize,
}

impl AvlTree {
    /// An in-order position cursor starting before the smallest value.
    pub fn iter_lnr_mut(&self) -> (it: AvlLNRIterMut)
        ensures
            it.index() == 0,
    {
        AvlLNRIterMut { pos: 0 }
    }
}

/// The value at in-order position `i` of the tree.
fn lnr_at(t: &AvlTree, i: usize) -> (r: u64)
    requires
        t.size() <= usize::MAX,
        i < t.size(),
    ensures
        r == t.lnr_seq()[i as int],
    decreases *t,
{
    match t {
        AvlTree::Null => unreached(),
        AvlTree::Tree(node) => {
            let ll = node.left.len();
            proof {
                lemma_lnr_len(node.left);
                lemma_lnr_len(node.right);
                assert(t.lnr_seq() == node.left.lnr_seq() + seq![node.val]
                    + node.right.lnr_seq());
            }
            if i < ll {
                let r = lnr_at(&node.left, i);
                proof {
                    assert(t.lnr_seq()[i as int] == node.left.lnr_seq()[i as int]);
                }
                r
            } else if i == ll {
                node.val
            } else {
                let r = lnr_at(&node.right, i - ll - 1);
                proof {
                    assert(t.lnr_seq()[i as int] == node.right.lnr_seq()[i as int - ll - 1]);
                }
                r
            }
        },
    }
}

/// Overwrites the value at in-order position `i`, touching no links and
/// no balance factors.
fn set_at(t: &mut AvlTree, i: usize, v: u64)
    requires
        old(t).size() <= usize::MAX,
        i < old(t).size(),
    ensures
        *final(t) == lnr_update(*old(t), i as int, v),
    decreases *old(t),
{
    let ghost t0 = *t;
    let tmp = t.take();
    match tmp {
        AvlTree::Null => {
            proof {
                assert(false);
            }
        },
        AvlTree::Tree(mut node) => {
            let ghost n0 = *node;
            let ll = node.left.len();
            proof {
                assert(t0 == AvlTree::Tree(Box::new(n0)));
                lemma_lnr_len(n0.left);
            }
            if i < ll {
                set_at(&mut node.left, i, v);
            } else if i == ll {
                node.val = v;
            } else {
                set_at(&mut node.right, i - ll - 1, v);
            }
            *t = AvlTree::Tree(node);
            proof {
                assert(*t == lnr_update(t0, i as int, v));
            }
        },
    }
}

impl AvlLNRIterMut {
    /// How many values the cursor has yielded so far; the next value it
    /// yields sits at this in-order position.
    pub closed spec fn index(self) -> int {
        self.pos as int
    }

    /// Yields the value at the cursor's position and advances. After the
    /// last position it reports nothing, and keeps reporting nothing.
    pub fn next(&mut self, tree: &AvlTree) -> (r: Option<u64>)
        requires
            tree.size() <= usize::MAX,
        ensures
            old(self).index() < tree.lnr_seq().len() ==> r == Some(
                tree.lnr_seq()[old(self).index()],
            ) && final(self).index() == old(self).index() + 1,
            old(self).index() >= tree.lnr_seq().len() ==> r is None && *final(self) == *old(self),
    {
        proof {
            lemma_lnr_len(*tree);
        }
        let n = tree.len();
        if self.pos < n {
            let v = lnr_at(tree, self.pos);
            self.pos = self.pos + 1;
            Some(v)
        } else {
            None
        }
    }

    /// Rewrites the value most recently yielded by `next`. Before the
    /// first `next`, or past the end of the tree, it changes nothing.
    /// The write keeps every link and balance factor; only the in-order
    /// output changes, at that one position.
    pub fn set(&self, tree: &mut AvlTree, v: u64)
        requires
            old(tree).size() <= usize::MAX,
        ensures
            1 <= self.index() <= old(tree).lnr_seq().len() ==> *final(tree) == lnr_update(
                *old(tree),
                self.index() - 1,
                v,
            ),
            !(1 <= self.index() <= old(tree).lnr_seq().len()) ==> *final(tree) == *old(tree),
    {
        proof {
            lemma_lnr_len(*old(tree));
        }
        if self.pos > 0 {
            let i = self.pos - 1;
            let n = tree.len();
            if i < n {
                set_at(tree, i, v);
            }
        }
    }
}

} // verus!
