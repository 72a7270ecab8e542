//! The AVL tree itself: the node structure, its abstract model (in-order
//! sequence, height, membership), the well-formedness invariants, and the
//! core operations: insertion with rebalancing rotations, membership
//! testing, and the basic size/depth queries.

use vstd::prelude::*;

verus! {

/// A binary search subtree: either empty or a node owning two subtrees.
#[derive(Debug)]
pub enum AvlTree {
    Null,
    Tree(Box<AvlNode>),
}

/// One node of the tree: a value, two exclusively owned subtrees, and the
/// balance factor `height(right) - height(left)`, kept in `{-1, 0, 1}` at
/// rest between operations.
#[derive(Debug)]
pub struct AvlNode {
    pub val: u64,
    pub left: AvlTree,
    pub right: AvlTree,
    pub bfactor: i8,
}

impl AvlTree {
    /// Height of the tree: 0 for an empty tree, 1 for a single node.
    pub open spec fn height(self) -> nat
        decreases self,
    {
        match self {
            AvlTree::Null => 0,
            AvlTree::Tree(n) => 1 + if n.left.height() >= n.right.height() {
                n.left.height()
            } else {
                n.right.height()
            },
        }
    }

    /// Number of nodes in the tree.
    pub open spec fn size(self) -> nat
        decreases self,
    {
        match self {
            AvlTree::Null => 0,
            AvlTree::Tree(n) => 1 + n.left.size() + n.right.size(),
        }
    }

    /// Whether `x` is stored somewhere in the tree.
    pub open spec fn has(self, x: u64) -> bool
        decreases self,
    {
        match self {
            AvlTree::Null => false,
            AvlTree::Tree(n) => x == n.val || n.left.has(x) || n.right.has(x),
        }
    }

    /// In-order (left, node, right) sequence of the stored values; for a
    /// well-formed tree this is the ascending enumeration of its values.
    pub open spec fn lnr_seq(self) -> Seq<u64>
        decreases self,
    {
        match self {
            AvlTree::Null => Seq::empty(),
            AvlTree::Tree(n) => n.left.lnr_seq() + seq![n.val] + n.right.lnr_seq(),
        }
    }

    /// Node-right-left sequence: a node, then its right subtree, then its
    /// left subtree.
    pub open spec fn nrl_seq(self) -> Seq<u64>
        decreases self,
    {
        match self {
            AvlTree::Null => Seq::empty(),
            AvlTree::Tree(n) => seq![n.val] + n.right.nrl_seq() + n.left.nrl_seq(),
        }
    }

    /// The mirror-scheduled pre-order sequence: a node, then its left
    /// subtree, then its right subtree.
    pub open spec fn rln_seq(self) -> Seq<u64>
        decreases self,
    {
        match self {
            AvlTree::Null => Seq::empty(),
            AvlTree::Tree(n) => seq![n.val] + n.left.rln_seq() + n.right.rln_seq(),
        }
    }

    /// Binary-search-tree order: at every node, all values to the left are
    /// smaller and all values to the right are greater.
    pub open spec fn is_bst(self) -> bool
        decreases self,
    {
        match self {
            AvlTree::Null => true,
            AvlTree::Tree(n) => {
                &&& n.left.is_bst()
                &&& n.right.is_bst()
                &&& (forall|x: u64| n.left.has(x) ==> x < n.val)
                &&& (forall|x: u64| n.right.has(x) ==> n.val < x)
            },
        }
    }

    /// AVL balance: at every node the stored balance factor equals
    /// `height(right) - height(left)` and lies in `{-1, 0, 1}`.
    pub open spec fn balanced(self) -> bool
        decreases self,
    {
        match self {
            AvlTree::Null => true,
            AvlTree::Tree(n) => {
                &&& n.left.balanced()
                &&& n.right.balanced()
                &&& n.bfactor as int == n.right.height() - n.left.height()
                &&& -1 <= n.bfactor as int <= 1
            },
        }
    }

    /// The balance factor stored at the root (0 for an empty tree).
    pub open spec fn root_bf(self) -> int {
        match self {
            AvlTree::Null => 0,
            AvlTree::Tree(n) => n.bfactor as int,
        }
    }

    /// Full well-formedness: search order plus AVL balance. Holds after
    /// every completed public operation.
    pub open spec fn wf(self) -> bool {
        self.is_bst() && self.balanced()
    }

    /// Creates an empty tree.
    pub fn new() -> (t: AvlTree)
        ensures
            t == AvlTree::Null,
            t.wf(),
            t.lnr_seq() == Seq::<u64>::empty(),
    {
        AvlTree::Null
    }

    /// Extracts the tree, leaving an empty tree behind.
    pub fn take(&mut self) -> (t: AvlTree)
        ensures
            t == *old(self),
            *final(self) == AvlTree::Null,
    {
        let mut t = AvlTree::Null;
        core::mem::swap(self, &mut t);
        t
    }

    /// True iff the tree is the empty variant, i.e. holds no values.
    pub fn is_empty(&self) -> (r: bool)
        ensures
            r == (*self is Null),
            r == (self.size() == 0),
    {
        matches!(*self, AvlTree::Null)
    }

    /// Total node count.
    pub fn len(&self) -> (n: usize)
        requires
            self.size() <= usize::MAX,
        ensures
            n == self.size(),
        decreases *self,
    {
        match self {
            AvlTree::Null => 0,
            AvlTree::Tree(n) => 1 + n.left.len() + n.right.len(),
        }
    }

    /// Height of the tree: 0 for an empty tree, 1 for a single node.
    pub fn depth(&self) -> (d: usize)
        requires
            self.height() <= usize::MAX,
        ensures
            d == self.height(),
        decreases *self,
    {
        match self {
            AvlTree::Null => 0,
            AvlTree::Tree(n) => {
                let dl = n.left.depth();
                let dr = n.right.depth();
                1 + if dl >= dr {
                    dl
                } else {
                    dr
                }
            },
        }
    }

    /// Standard binary-search descent. On a tree in search order the answer
    /// is exact membership; the descent itself is total on any tree.
    pub fn contains(&self, val: u64) -> (r: bool)
        ensures
            self.is_bst() ==> r == self.has(val),
        decreases *self,
    {
        match self {
            AvlTree::Null => false,
            AvlTree::Tree(n) => {
                if n.val == val {
                    true
                } else if n.val < val {
                    let r = n.right.contains(val);
                    proof {
                        if self.is_bst() && n.left.has(val) {
                            assert(val < n.val);
                        }
                    }
                    r
                } else {
                    let r = n.left.contains(val);
                    proof {
                        if self.is_bst() && n.right.has(val) {
                            assert(n.val < val);
                        }
                    }
                    r
                }
            },
        }
    }

    /// The tree after a single left rotation at the root: the right child
    /// becomes the root and the old root becomes its left child. Balance
    /// factors are carried over unchanged; the rebalancing step assigns
    /// them afterwards.
    pub open spec fn spec_rotl(self) -> AvlTree {
        match self {
            AvlTree::Tree(x) => match x.right {
                AvlTree::Tree(y) => AvlTree::Tree(
                    Box::new(
                        AvlNode {
                            val: y.val,
                            left: AvlTree::Tree(
                                Box::new(
                                    AvlNode {
                                        val: x.val,
                                        left: x.left,
                                        right: y.left,
                                        bfactor: x.bfactor,
                                    },
                                ),
                            ),
                            right: y.right,
                            bfactor: y.bfactor,
                        },
                    ),
                ),
                AvlTree::Null => self,
            },
            AvlTree::Null => self,
        }
    }

    /// The mirror image of `spec_rotl`: the left child becomes the root.
    pub open spec fn spec_rotr(self) -> AvlTree {
        match self {
            AvlTree::Tree(x) => match x.left {
                AvlTree::Tree(y) => AvlTree::Tree(
                    Box::new(
                        AvlNode {
                            val: y.val,
                            left: y.left,
                            right: AvlTree::Tree(
                                Box::new(
                                    AvlNode {
                                        val: x.val,
                                        left: y.right,
                                        right: x.right,
                                        bfactor: x.bfactor,
                                    },
                                ),
                            ),
                            bfactor: y.bfactor,
                        },
                    ),
                ),
                AvlTree::Null => self,
            },
            AvlTree::Null => self,
        }
    }

    /// Mutable access to the root node. Asking for the node of an empty
    /// tree is a programming defect, so the tree must not be empty.
    pub fn node(&mut self) -> (r: &mut AvlNode)
        requires
            *old(self) is Tree,
        ensures
            *old(self) matches AvlTree::Tree(n) && *r == *n,
            *final(self) == AvlTree::Tree(Box::new(*final(r))),
    {
        match self {
            AvlTree::Tree(n) => n,
            AvlTree::Null => unreached(),
        }
    }

    /// Mutable access to the left subtree of the root node.
    fn left_subtree(&mut self) -> (r: &mut AvlTree)
        requires
            *old(self) is Tree,
        ensures
            *old(self) matches AvlTree::Tree(n) ==> {
                &&& *r == n.left
                &&& *final(self) == AvlTree::Tree(
                    Box::new(
                        AvlNode {
                            val: n.val,
                            left: *final(r),
                            right: n.right,
                            bfactor: n.bfactor,
                        },
                    ),
                )
            },
    {
        match self {
            AvlTree::Tree(n) => &mut n.left,
            AvlTree::Null => unreached(),
        }
    }

    /// Mutable access to the right subtree of the root node.
    fn right_subtree(&mut self) -> (r: &mut AvlTree)
        requires
            *old(self) is Tree,
        ensures
            *old(self) matches AvlTree::Tree(n) ==> {
                &&& *r == n.right
                &&& *final(self) == AvlTree::Tree(
                    Box::new(
                        AvlNode {
                            val: n.val,
                            left: n.left,
                            right: *final(r),
                            bfactor: n.bfactor,
                        },
                    ),
                )
            },
    {
        match self {
            AvlTree::Tree(n) => &mut n.right,
            AvlTree::Null => unreached(),
        }
    }

    /// The left subtree of the root (empty for an empty tree).
    pub open spec fn left_child(self) -> AvlTree {
        match self {
            AvlTree::Null => AvlTree::Null,
            AvlTree::Tree(n) => n.left,
        }
    }

    /// The right subtree of the root (empty for an empty tree).
    pub open spec fn right_child(self) -> AvlTree {
        match self {
            AvlTree::Null => AvlTree::Null,
            AvlTree::Tree(n) => n.right,
        }
    }

    /// The intermediate state insertion leaves behind just before the
    /// rebalancing step: both subtrees fully balanced, the root's factor
    /// still exact but possibly at -2 or 2.
    pub open spec fn pre_balanced(self) -> bool {
        match self {
            AvlTree::Null => true,
            AvlTree::Tree(n) => {
                &&& n.left.balanced()
                &&& n.right.balanced()
                &&& n.bfactor as int == n.right.height() - n.left.height()
                &&& -2 <= n.bfactor as int <= 2
            },
        }
    }

    /// Single left rotation: an O(1) rewiring of links, no values copied.
    fn rotate_left(&mut self)
        requires
            *old(self) matches AvlTree::Tree(n) && n.right is Tree,
        ensures
            *final(self) == old(self).spec_rotl(),
    {
        let mut v = self.take();
        let mut right = v.right_subtree().take();
        let right_left = right.left_subtree().take();
        *v.right_subtree() = right_left;
        *right.left_subtree() = v;
        *self = right;
    }

    /// Single right rotation: an O(1) rewiring of links, no values copied.
    fn rotate_right(&mut self)
        requires
            *old(self) matches AvlTree::Tree(n) && n.left is Tree,
        ensures
            *final(self) == old(self).spec_rotr(),
    {
        let mut v = self.take();
        let mut left = v.left_subtree().take();
        let left_right = left.right_subtree().take();
        *v.left_subtree() = left_right;
        *left.right_subtree() = v;
        *self = left;
    }

    /// Inserts `val` into the tree, rebalancing on the way back up.
    /// Returns `(inserted, grew)`: whether the value was new, and whether
    /// the height of this subtree increased by one. Inserting a value
    /// already present is a no-op.
    #[verifier::rlimit(100)]
    #[verifier::spinoff_prover]
    pub fn insert(&mut self, val: u64) -> (r: (bool, bool))
        requires
            old(self).wf(),
        ensures
            final(self).wf(),
            forall|x: u64| final(self).has(x) == (old(self).has(x) || x == val),
            r.0 == !old(self).has(val),
            !r.0 ==> *final(self) == *old(self),
            r.0 ==> final(self).size() == old(self).size() + 1,
            !r.0 ==> final(self).size() == old(self).size(),
            final(self).height() == old(self).height() + (if r.1 { 1int } else { 0int }),
            r.1 ==> final(self).root_bf() != 0 || final(self).height() == 1,
        decreases *old(self),
    {
        proof {
            reveal_with_fuel(AvlTree::is_bst, 3);
            reveal_with_fuel(AvlTree::has, 3);
            reveal_with_fuel(AvlTree::height, 3);
            reveal_with_fuel(AvlTree::balanced, 3);
            reveal_with_fuel(AvlTree::size, 3);
        }
        let t = self.take();
        match t {
            AvlTree::Null => {
                let node = AvlNode {
                    val,
                    left: AvlTree::Null,
                    right: AvlTree::Null,
                    bfactor: 0,
                };
                *self = AvlTree::Tree(Box::new(node));
                (true, true)
            },
            AvlTree::Tree(mut node) => {
                let ghost n0 = *node;
                let r: (bool, bool);
                if node.val == val {
                    r = (false, false);
                } else if node.val < val {
                    proof {
                        if n0.left.has(val) {
                            assert(val < n0.val);
                        }
                    }
                    let (inserted, deepened) = node.right.insert(val);
                    if deepened {
                        r = (inserted, node.bfactor == 0);
                        node.bfactor = node.bfactor + 1;
                    } else {
                        r = (inserted, false);
                    }
                } else {
                    proof {
                        if n0.right.has(val) {
                            assert(n0.val < val);
                        }
                    }
                    let (inserted, deepened) = node.left.insert(val);
                    if deepened {
                        r = (inserted, node.bfactor == 0);
                        node.bfactor = node.bfactor - 1;
                    } else {
                        r = (inserted, false);
                    }
                }
                let ghost n1 = *node;
                let ghost t1 = AvlTree::Tree(Box::new(n1));
                *self = AvlTree::Tree(node);
                proof {
                    assert(*self == t1);
                    assert(*old(self) == AvlTree::Tree(Box::new(n0)));
                    assert forall|z: u64| n1.left.has(z) implies z < n1.val by {}
                    assert forall|z: u64| n1.right.has(z) implies n1.val < z by {}
                    assert(t1.is_bst());
                    assert(t1.pre_balanced());
                }
                self.rebalance();
                proof {
                    assert forall|z: u64| self.has(z) == (old(self).has(z) || z == val) by {
                        assert(self.has(z) == t1.has(z));
                        assert(t1.has(z) == (z == n1.val || n1.left.has(z) || n1.right.has(z)));
                        assert(old(self).has(z) == (z == n0.val || n0.left.has(z) || n0.right.has(z)));
                    }
                    assert(self.size() == t1.size());
                    assert(t1.size() == 1 + n1.left.size() + n1.right.size());
                    assert(old(self).size() == 1 + n0.left.size() + n0.right.size());
                    assert(t1.height() == 1 + if n1.left.height() >= n1.right.height() {
                        n1.left.height()
                    } else {
                        n1.right.height()
                    });
                    assert(old(self).height() == 1 + if n0.left.height() >= n0.right.height() {
                        n0.left.height()
                    } else {
                        n0.right.height()
                    });
                    if t1.root_bf() == 2 {
                        assert(n1.right.height() >= 2);
                        assert(n1.right.root_bf() != 0);
                        assert(self.height() + 1 == t1.height());
                    } else if t1.root_bf() == -2 {
                        assert(n1.left.height() >= 2);
                        assert(n1.left.root_bf() != 0);
                        assert(self.height() + 1 == t1.height());
                    } else {
                        assert(*self == t1);
                    }
                }
                r
            },
        }
    }

    /// Restores the AVL balance at the root after an insertion below it:
    /// a no-op while the factor is within `{-1, 0, 1}`, otherwise the
    /// single or double rotation that the root and child factors select.
    fn rebalance(&mut self)
        requires
            old(self).is_bst(),
            old(self).pre_balanced(),
        ensures
            final(self).is_bst(),
            final(self).balanced(),
            forall|x: u64| final(self).has(x) == old(self).has(x),
            final(self).lnr_seq() == old(self).lnr_seq(),
            final(self).size() == old(self).size(),
            -1 <= old(self).root_bf() <= 1 ==> *final(self) == *old(self),
            old(self).root_bf() == -2 && old(self).left_child().root_bf() != 0 ==> final(self).height() + 1 == old(self).height(),
            old(self).root_bf() == -2 && old(self).left_child().root_bf() == 0 ==> final(self).height() == old(self).height(),
            old(self).root_bf() == 2 && old(self).right_child().root_bf() != 0 ==> final(self).height() + 1 == old(self).height(),
            old(self).root_bf() == 2 && old(self).right_child().root_bf() == 0 ==> final(self).height() == old(self).height(),
    {
        let bf = match &*self {
            AvlTree::Null => 0i8,
            AvlTree::Tree(n) => n.bfactor,
        };
        if bf == -2 {
            self.rebalance_left_heavy();
        } else if bf == 2 {
            self.rebalance_right_heavy();
        } else {
            // factor already within bounds: nothing to do
            proof {
                reveal_with_fuel(AvlTree::balanced, 2);
            }
        }
    }

    /// The left-heavy half of the rebalancing table: a single right
    /// rotation, or a left-right double rotation when the left child
    /// leans right.
    fn rebalance_left_heavy(&mut self)
        requires
            old(self).is_bst(),
            old(self).pre_balanced(),
            old(self).root_bf() == -2,
        ensures
            final(self).is_bst(),
            final(self).balanced(),
            forall|x: u64| final(self).has(x) == old(self).has(x),
            final(self).lnr_seq() == old(self).lnr_seq(),
            final(self).size() == old(self).size(),
            old(self).left_child().root_bf() != 0 ==> final(self).height() + 1 == old(self).height(),
            old(self).left_child().root_bf() == 0 ==> final(self).height() == old(self).height(),
    {
        proof {
            reveal_with_fuel(AvlTree::height, 3);
            reveal_with_fuel(AvlTree::balanced, 3);
            if let AvlTree::Tree(x) = *old(self) {
                assert(x.left.height() == x.right.height() + 2);
                assert(x.left is Tree);
            }
        }
        let lbf = self.node().left.node().bfactor;
        if lbf == -1 || lbf == 0 {
            self.rebalance_left_single();
        } else {
            self.rebalance_left_double();
        }
    }

    /// The single right rotation of the left-heavy case, with the factor
    /// assignments the table gives for a left child leaning left or even.
    #[verifier::rlimit(100)]
    #[verifier::spinoff_prover]
    fn rebalance_left_single(&mut self)
        requires
            old(self).is_bst(),
            old(self).pre_balanced(),
            old(self).root_bf() == -2,
            old(self).left_child().root_bf() == -1 || old(self).left_child().root_bf() == 0,
        ensures
            final(self).is_bst(),
            final(self).balanced(),
            forall|x: u64| final(self).has(x) == old(self).has(x),
            final(self).lnr_seq() == old(self).lnr_seq(),
            final(self).size() == old(self).size(),
            old(self).left_child().root_bf() == -1 ==> final(self).height() + 1 == old(self).height(),
            old(self).left_child().root_bf() == 0 ==> final(self).height() == old(self).height(),
    {
        proof {
            reveal_with_fuel(AvlTree::is_bst, 4);
            reveal_with_fuel(AvlTree::has, 4);
            reveal_with_fuel(AvlTree::height, 4);
            reveal_with_fuel(AvlTree::balanced, 4);
            reveal_with_fuel(AvlTree::lnr_seq, 4);
            reveal_with_fuel(AvlTree::size, 4);
        }
        let ghost t0 = *self;
        let ghost x = t0->Tree_0;
        proof {
            assert(t0 == *old(self));
            assert(t0 is Tree);
            assert(t0 == AvlTree::Tree(x));
            assert(x.left.height() == x.right.height() + 2);
            assert(x.left is Tree);
        }
        let ghost l = x.left->Tree_0;
        let ghost ta = l.left;
        let ghost tb = l.right;
        let ghost tc = x.right;
        proof {
            assert(x.left == AvlTree::Tree(l));
            assert(ta.balanced() && tb.balanced() && tc.balanced());
            assert(l.bfactor as int == tb.height() - ta.height());
            assert(ta.is_bst() && tb.is_bst() && tc.is_bst());
            assert(x.left.has(l.val));
            assert(l.val < x.val);
            assert forall|z: u64| tb.has(z) implies l.val < z && z < x.val by {
                assert(x.left.has(z));
            }
            assert forall|z: u64| ta.has(z) implies z < l.val by {}
            assert forall|z: u64| tc.has(z) implies x.val < z by {}
        }
        let lbf = self.node().left.node().bfactor;
        proof {
            assert(lbf == l.bfactor);
            assert(*self == t0);
        }
        if lbf == -1 || lbf == 0 {
            // single right rotation
            let a: i8 = if lbf == -1 {
                0
            } else {
                -1
            };
            let b: i8 = if lbf == -1 {
                0
            } else {
                1
            };
            self.rotate_right();
            self.node().right.node().bfactor = a;
            self.node().bfactor = b;
            proof {
                let inner = AvlTree::Tree(
                    Box::new(
                        AvlNode { val: x.val, left: tb, right: tc, bfactor: a },
                    ),
                );
                let fin = AvlTree::Tree(
                    Box::new(
                        AvlNode { val: l.val, left: ta, right: inner, bfactor: b },
                    ),
                );
                assert(*self == fin);
                // heights: the left child was taller by two
                if lbf == -1 {
                    assert(tb.height() + 1 == ta.height());
                    assert(tc.height() + 1 == ta.height());
                    assert(inner.height() == ta.height());
                } else {
                    assert(tb.height() == ta.height());
                    assert(tc.height() + 1 == ta.height());
                    assert(inner.height() == ta.height() + 1);
                }
                assert(inner.balanced());
                assert(fin.balanced());
                assert forall|z: u64| inner.has(z) implies l.val < z by {
                    assert(inner.has(z) == (z == x.val || tb.has(z) || tc.has(z)));
                }
                assert(inner.is_bst());
                assert(fin.is_bst());
                assert forall|z: u64| fin.has(z) == t0.has(z) by {
                    assert(fin.has(z) == (z == l.val || ta.has(z) || inner.has(z)));
                    assert(inner.has(z) == (z == x.val || tb.has(z) || tc.has(z)));
                    assert(t0.has(z) == (z == x.val || x.left.has(z) || tc.has(z)));
                    assert(x.left.has(z) == (z == l.val || ta.has(z) || tb.has(z)));
                }
                assert(x.left.lnr_seq() == ta.lnr_seq() + seq![l.val] + tb.lnr_seq());
                assert(fin.lnr_seq() =~= t0.lnr_seq());
                assert(x.left.size() == 1 + ta.size() + tb.size());
            }
        } else {
            // the requires admits no other child factor
            proof {
                assert(false);
            }
        }
    }

    /// The left-right double rotation of the left-heavy case, with the
    /// factor assignments the grandchild's factor selects.
    #[verifier::rlimit(100)]
    #[verifier::spinoff_prover]
    fn rebalance_left_double(&mut self)
        requires
            old(self).is_bst(),
            old(self).pre_balanced(),
            old(self).root_bf() == -2,
            old(self).left_child().root_bf() == 1,
        ensures
            final(self).is_bst(),
            final(self).balanced(),
            forall|x: u64| final(self).has(x) == old(self).has(x),
            final(self).lnr_seq() == old(self).lnr_seq(),
            final(self).size() == old(self).size(),
            final(self).height() + 1 == old(self).height(),
    {
        proof {
            reveal_with_fuel(AvlTree::height, 3);
            reveal_with_fuel(AvlTree::balanced, 3);
        }
        let ghost t0 = *self;
        let ghost x = t0->Tree_0;
        proof {
            assert(t0 == AvlTree::Tree(x));
            assert(x.left.height() == x.right.height() + 2);
            assert(x.left is Tree);
        }
        let ghost l = x.left->Tree_0;
        proof {
            assert(x.left == AvlTree::Tree(l));
            assert(l.bfactor as int == l.right.height() - l.left.height());
            assert(l.right.height() == l.left.height() + 1);
            assert(l.right is Tree);
        }
        let ghost g = l.right->Tree_0;
        proof {
            assert(l.right == AvlTree::Tree(g));
        }
        let glbf = self.node().left.node().right.node().bfactor;
        proof {
            assert(glbf == g.bfactor);
            assert(*self == t0);
        }
        let a: i8 = if glbf == -1 {
            1
        } else {
            0
        };
        let b: i8 = if glbf == 1 {
            -1
        } else {
            0
        };
        self.node().left.rotate_left();
        self.rotate_right();
        self.node().right.node().bfactor = a;
        self.node().left.node().bfactor = b;
        self.node().bfactor = 0;
        proof {
            assert(*self == double_rebuilt(x, l, g, a, b));
            lemma_left_double_rebalance(t0, x, l, g, a, b);
        }
    }

    /// The right-heavy half of the rebalancing table: the mirror image of
    /// the left-heavy half.
    fn rebalance_right_heavy(&mut self)
        requires
            old(self).is_bst(),
            old(self).pre_balanced(),
            old(self).root_bf() == 2,
        ensures
            final(self).is_bst(),
            final(self).balanced(),
            forall|x: u64| final(self).has(x) == old(self).has(x),
            final(self).lnr_seq() == old(self).lnr_seq(),
            final(self).size() == old(self).size(),
            old(self).right_child().root_bf() != 0 ==> final(self).height() + 1 == old(self).height(),
            old(self).right_child().root_bf() == 0 ==> final(self).height() == old(self).height(),
    {
        proof {
            reveal_with_fuel(AvlTree::height, 3);
            reveal_with_fuel(AvlTree::balanced, 3);
            if let AvlTree::Tree(x) = *old(self) {
                assert(x.right.height() == x.left.height() + 2);
                assert(x.right is Tree);
            }
        }
        let rbf = self.node().right.node().bfactor;
        if rbf == 1 || rbf == 0 {
            self.rebalance_right_single();
        } else {
            self.rebalance_right_double();
        }
    }

    /// The single left rotation of the right-heavy case, with the factor
    /// assignments the table gives for a right child leaning right or even.
    #[verifier::rlimit(100)]
    #[verifier::spinoff_prover]
    fn rebalance_right_single(&mut self)
        requires
            old(self).is_bst(),
            old(self).pre_balanced(),
            old(self).root_bf() == 2,
            old(self).right_child().root_bf() == 1 || old(self).right_child().root_bf() == 0,
        ensures
            final(self).is_bst(),
            final(self).balanced(),
            forall|x: u64| final(self).has(x) == old(self).has(x),
            final(self).lnr_seq() == old(self).lnr_seq(),
            final(self).size() == old(self).size(),
            old(self).right_child().root_bf() == 1 ==> final(self).height() + 1 == old(self).height(),
            old(self).right_child().root_bf() == 0 ==> final(self).height() == old(self).height(),
    {
        proof {
            reveal_with_fuel(AvlTree::is_bst, 4);
            reveal_with_fuel(AvlTree::has, 4);
            reveal_with_fuel(AvlTree::height, 4);
            reveal_with_fuel(AvlTree::balanced, 4);
            reveal_with_fuel(AvlTree::lnr_seq, 4);
            reveal_with_fuel(AvlTree::size, 4);
        }
        let ghost t0 = *self;
        let ghost x = t0->Tree_0;
        proof {
            assert(t0 == *old(self));
            assert(t0 is Tree);
            assert(t0 == AvlTree::Tree(x));
            assert(x.right.height() == x.left.height() + 2);
            assert(x.right is Tree);
        }
        let ghost r = x.right->Tree_0;
        let ghost ta = x.left;
        let ghost tb = r.left;
        let ghost tc = r.right;
        proof {
            assert(x.right == AvlTree::Tree(r));
            assert(ta.balanced() && tb.balanced() && tc.balanced());
            assert(ta.is_bst() && tb.is_bst() && tc.is_bst());
            assert(x.right.has(r.val));
            assert(x.val < r.val);
            assert forall|z: u64| tb.has(z) implies x.val < z && z < r.val by {
                assert(x.right.has(z));
            }
            assert forall|z: u64| ta.has(z) implies z < x.val by {}
            assert forall|z: u64| tc.has(z) implies r.val < z by {
                assert(x.right.has(z));
            }
        }
        let rbf = self.node().right.node().bfactor;
        proof {
            assert(rbf == r.bfactor);
            assert(*self == t0);
        }
        if rbf == 1 || rbf == 0 {
            // single left rotation
            let a: i8 = if rbf == 1 {
                0
            } else {
                1
            };
            let b: i8 = if rbf == 1 {
                0
            } else {
                -1
            };
            self.rotate_left();
            self.node().left.node().bfactor = a;
            self.node().bfactor = b;
            proof {
                let inner = AvlTree::Tree(
                    Box::new(
                        AvlNode { val: x.val, left: ta, right: tb, bfactor: a },
                    ),
                );
                let fin = AvlTree::Tree(
                    Box::new(
                        AvlNode { val: r.val, left: inner, right: tc, bfactor: b },
                    ),
                );
                assert(*self == fin);
                if rbf == 1 {
                    assert(tb.height() + 1 == tc.height());
                    assert(ta.height() + 1 == tc.height());
                    assert(inner.height() == tc.height());
                } else {
                    assert(tb.height() == tc.height());
                    assert(ta.height() + 1 == tc.height());
                    assert(inner.height() == tc.height() + 1);
                }
                assert(inner.balanced());
                assert(fin.balanced());
                assert forall|z: u64| inner.has(z) implies z < r.val by {
                    assert(inner.has(z) == (z == x.val || ta.has(z) || tb.has(z)));
                }
                assert(inner.is_bst());
                assert(fin.is_bst());
                assert forall|z: u64| fin.has(z) == t0.has(z) by {
                    assert(fin.has(z) == (z == r.val || inner.has(z) || tc.has(z)));
                    assert(inner.has(z) == (z == x.val || ta.has(z) || tb.has(z)));
                    assert(t0.has(z) == (z == x.val || ta.has(z) || x.right.has(z)));
                    assert(x.right.has(z) == (z == r.val || tb.has(z) || tc.has(z)));
                }
                assert(x.right.lnr_seq() == tb.lnr_seq() + seq![r.val] + tc.lnr_seq());
                assert(fin.lnr_seq() =~= t0.lnr_seq());
                assert(x.right.size() == 1 + tb.size() + tc.size());
            }
        } else {
            // the requires admits no other child factor
            proof {
                assert(false);
            }
        }
    }

    /// The right-left double rotation of the right-heavy case, with the
    /// factor assignments the grandchild's factor selects.
    #[verifier::rlimit(100)]
    #[verifier::spinoff_prover]
    fn rebalance_right_double(&mut self)
        requires
            old(self).is_bst(),
            old(self).pre_balanced(),
            old(self).root_bf() == 2,
            old(self).right_child().root_bf() == -1,
        ensures
            final(self).is_bst(),
            final(self).balanced(),
            forall|x: u64| final(self).has(x) == old(self).has(x),
            final(self).lnr_seq() == old(self).lnr_seq(),
            final(self).size() == old(self).size(),
            final(self).height() + 1 == old(self).height(),
    {
        proof {
            reveal_with_fuel(AvlTree::is_bst, 4);
            reveal_with_fuel(AvlTree::has, 4);
            reveal_with_fuel(AvlTree::height, 4);
            reveal_with_fuel(AvlTree::balanced, 4);
            reveal_with_fuel(AvlTree::lnr_seq, 4);
            reveal_with_fuel(AvlTree::size, 4);
        }
        let ghost t0 = *self;
        let ghost x = t0->Tree_0;
        proof {
            assert(t0 == *old(self));
            assert(t0 is Tree);
            assert(t0 == AvlTree::Tree(x));
            assert(x.right.height() == x.left.height() + 2);
            assert(x.right is Tree);
        }
        let ghost r = x.right->Tree_0;
        let ghost ta = x.left;
        let ghost tb = r.left;
        let ghost tc = r.right;
        proof {
            assert(x.right == AvlTree::Tree(r));
            assert(ta.balanced() && tb.balanced() && tc.balanced());
            assert(ta.is_bst() && tb.is_bst() && tc.is_bst());
            assert(x.right.has(r.val));
            assert(x.val < r.val);
            assert forall|z: u64| tb.has(z) implies x.val < z && z < r.val by {
                assert(x.right.has(z));
            }
            assert forall|z: u64| ta.has(z) implies z < x.val by {}
            assert forall|z: u64| tc.has(z) implies r.val < z by {
                assert(x.right.has(z));
            }
        }
        let rbf = self.node().right.node().bfactor;
        proof {
            assert(rbf == r.bfactor);
            assert(*self == t0);
        }
        if rbf == 1 || rbf == 0 {
            // the requires admits no other child factor
            proof {
                assert(false);
            }
        } else {
            // right-left double rotation
            proof {
                assert(rbf == -1);
                assert(tb.height() == tc.height() + 1);
                assert(tb is Tree);
            }
            let ghost g = tb->Tree_0;
            let ghost tg1 = g.left;
            let ghost tg2 = g.right;
            proof {
                assert(tb == AvlTree::Tree(g));
                assert(tg1.balanced() && tg2.balanced());
                assert(tg1.is_bst() && tg2.is_bst());
                assert(tb.has(g.val));
                assert(x.val < g.val && g.val < r.val);
                assert forall|z: u64| tg1.has(z) implies x.val < z && z < g.val by {
                    assert(tb.has(z));
                }
                assert forall|z: u64| tg2.has(z) implies g.val < z && z < r.val by {
                    assert(tb.has(z));
                }
            }
            let grbf = self.node().right.node().left.node().bfactor;
            proof {
                assert(grbf == g.bfactor);
                assert(*self == t0);
            }
            let a: i8 = if grbf == 1 {
                -1
            } else {
                0
            };
            let b: i8 = if grbf == -1 {
                1
            } else {
                0
            };
            self.node().right.rotate_right();
            self.rotate_left();
            self.node().left.node().bfactor = a;
            self.node().right.node().bfactor = b;
            self.node().bfactor = 0;
            proof {
                let nl = AvlTree::Tree(
                    Box::new(
                        AvlNode { val: x.val, left: ta, right: tg1, bfactor: a },
                    ),
                );
                let nr = AvlTree::Tree(
                    Box::new(
                        AvlNode { val: r.val, left: tg2, right: tc, bfactor: b },
                    ),
                );
                let fin = AvlTree::Tree(
                    Box::new(
                        AvlNode { val: g.val, left: nl, right: nr, bfactor: 0i8 },
                    ),
                );
                assert(*self == fin);
                assert(tc.height() == ta.height());
                assert(tb.height() == ta.height() + 1);
                if grbf == 1 {
                    assert(tg1.height() + 1 == ta.height() && tg2.height() == ta.height());
                } else if grbf == 0 {
                    assert(tg1.height() == ta.height() && tg2.height() == ta.height());
                } else {
                    assert(tg1.height() == ta.height() && tg2.height() + 1 == ta.height());
                }
                assert(nl.height() == ta.height() + 1);
                assert(nr.height() == ta.height() + 1);
                assert(nl.balanced() && nr.balanced());
                assert(fin.balanced());
                assert forall|z: u64| nl.has(z) implies z < g.val by {
                    assert(nl.has(z) == (z == x.val || ta.has(z) || tg1.has(z)));
                }
                assert forall|z: u64| nr.has(z) implies g.val < z by {
                    assert(nr.has(z) == (z == r.val || tg2.has(z) || tc.has(z)));
                }
                assert(nl.is_bst() && nr.is_bst());
                assert(fin.is_bst());
                assert forall|z: u64| fin.has(z) == t0.has(z) by {
                    assert(fin.has(z) == (z == g.val || nl.has(z) || nr.has(z)));
                    assert(nl.has(z) == (z == x.val || ta.has(z) || tg1.has(z)));
                    assert(nr.has(z) == (z == r.val || tg2.has(z) || tc.has(z)));
                    assert(t0.has(z) == (z == x.val || ta.has(z) || x.right.has(z)));
                    assert(x.right.has(z) == (z == r.val || tb.has(z) || tc.has(z)));
                    assert(tb.has(z) == (z == g.val || tg1.has(z) || tg2.has(z)));
                }
                assert(tb.lnr_seq() == tg1.lnr_seq() + seq![g.val] + tg2.lnr_seq());
                assert(x.right.lnr_seq() == tb.lnr_seq() + seq![r.val] + tc.lnr_seq());
                assert(fin.lnr_seq() =~= t0.lnr_seq());
                assert(tb.size() == 1 + tg1.size() + tg2.size());
                assert(x.right.size() == 1 + tb.size() + tc.size());
            }
        }
    }
}

/// Number of values and length of the in-order output agree.
pub proof fn lemma_lnr_len(t: AvlTree)
    ensures
        t.lnr_seq().len() == t.size(),
    decreases t,
{
    match t {
        AvlTree::Null => {},
        AvlTree::Tree(n) => {
            lemma_lnr_len(n.left);
            lemma_lnr_len(n.right);
        },
    }
}

/// A value stands in the in-order output iff the tree holds it.
pub proof fn lemma_lnr_has(t: AvlTree)
    ensures
        forall|x: u64| t.lnr_seq().contains(x) == t.has(x),
    decreases t,
{
    match t {
        AvlTree::Null => {},
        AvlTree::Tree(n) => {
            lemma_lnr_has(n.left);
            lemma_lnr_has(n.right);
            let l = n.left.lnr_seq();
            let r = n.right.lnr_seq();
            let s = t.lnr_seq();
            assert(s == l + seq![n.val] + r);
            assert forall|x: u64| s.contains(x) == t.has(x) by {
                assert(t.has(x) == (x == n.val || n.left.has(x) || n.right.has(x)));
                if s.contains(x) {
                    let i = choose|i: int| 0 <= i < s.len() && s[i] == x;
                    if i < l.len() {
                        assert(l[i] == x);
                        assert(l.contains(x));
                    } else if i == l.len() {
                        assert(x == n.val);
                    } else {
                        assert(r[i - l.len() - 1] == x);
                        assert(r.contains(x));
                    }
                    assert(t.has(x));
                }
                if t.has(x) {
                    if x == n.val {
                        assert(s[l.len() as int] == x);
                        assert(s.contains(x));
                    } else if n.left.has(x) {
                        assert(l.contains(x));
                        let i = choose|i: int| 0 <= i < l.len() && l[i] == x;
                        assert(s[i] == x);
                        assert(s.contains(x));
                    } else {
                        assert(n.right.has(x));
                        assert(r.contains(x));
                        let i = choose|i: int| 0 <= i < r.len() && r[i] == x;
                        assert(s[l.len() + 1 + i] == x);
                        assert(s.contains(x));
                    }
                }
            }
        },
    }
}

/// The in-order output of a tree in search order is strictly ascending:
/// together with `lemma_lnr_has` and the contract of `insert`, the
/// in-order traversal of a tree built by insertions is exactly the
/// ascending sort of the distinct inserted values.
pub proof fn lemma_lnr_sorted(t: AvlTree)
    requires
        t.is_bst(),
    ensures
        forall|i: int, j: int|
            0 <= i < j < t.lnr_seq().len() ==> t.lnr_seq()[i] < t.lnr_seq()[j],
    decreases t,
{
    match t {
        AvlTree::Null => {},
        AvlTree::Tree(n) => {
            lemma_lnr_sorted(n.left);
            lemma_lnr_sorted(n.right);
            lemma_lnr_has(n.left);
            lemma_lnr_has(n.right);
            let l = n.left.lnr_seq();
            let r = n.right.lnr_seq();
            let s = t.lnr_seq();
            let ll = l.len() as int;
            assert(s == l + seq![n.val] + r);
            assert forall|i: int, j: int| 0 <= i < j < s.len() implies s[i] < s[j] by {
                assert(s[ll] == n.val);
                if j < ll {
                    assert(s[i] == l[i] && s[j] == l[j]);
                } else if i < ll && j == ll {
                    assert(s[i] == l[i] && l.contains(l[i]));
                    assert(n.left.has(l[i]));
                    assert(l[i] < n.val);
                } else if i < ll && j > ll {
                    assert(s[i] == l[i] && l.contains(l[i]));
                    assert(s[j] == r[j - ll - 1] && r.contains(r[j - ll - 1]));
                    assert(n.left.has(l[i]) && n.right.has(r[j - ll - 1]));
                    assert(l[i] < n.val && n.val < r[j - ll - 1]);
                } else if i == ll {
                    assert(s[j] == r[j - ll - 1] && r.contains(r[j - ll - 1]));
                    assert(n.right.has(r[j - ll - 1]));
                    assert(n.val < r[j - ll - 1]);
                } else {
                    assert(s[i] == r[i - ll - 1] && s[j] == r[j - ll - 1]);
                }
            }
        },
    }
}

/// The converse: a tree whose in-order output is strictly ascending is in
/// search order.
pub proof fn lemma_sorted_lnr_bst(t: AvlTree)
    requires
        forall|i: int, j: int|
            0 <= i < j < t.lnr_seq().len() ==> t.lnr_seq()[i] < t.lnr_seq()[j],
    ensures
        t.is_bst(),
    decreases t,
{
    match t {
        AvlTree::Null => {},
        AvlTree::Tree(n) => {
            let l = n.left.lnr_seq();
            let r = n.right.lnr_seq();
            let s = t.lnr_seq();
            let ll = l.len() as int;
            assert(s == l + seq![n.val] + r);
            assert(s[ll] == n.val);
            assert forall|i: int, j: int| 0 <= i < j < l.len() implies l[i] < l[j] by {
                assert(s[i] == l[i] && s[j] == l[j]);
            }
            assert forall|i: int, j: int| 0 <= i < j < r.len() implies r[i] < r[j] by {
                assert(s[ll + 1 + i] == r[i] && s[ll + 1 + j] == r[j]);
            }
            lemma_sorted_lnr_bst(n.left);
            lemma_sorted_lnr_bst(n.right);
            lemma_lnr_has(n.left);
            lemma_lnr_has(n.right);
            assert forall|x: u64| n.left.has(x) implies x < n.val by {
                assert(l.contains(x));
                let i = choose|i: int| 0 <= i < l.len() && l[i] == x;
                assert(s[i] == x);
            }
            assert forall|x: u64| n.right.has(x) implies n.val < x by {
                assert(r.contains(x));
                let i = choose|i: int| 0 <= i < r.len() && r[i] == x;
                assert(s[ll + 1 + i] == x);
            }
        },
    }
}

/// Fibonacci numbers, used to state the AVL worst-case height bound.
pub open spec fn fib(n: nat) -> nat
    decreases n,
{
    if n == 0 {
        0
    } else if n == 1 {
        1
    } else {
        fib((n - 1) as nat) + fib((n - 2) as nat)
    }
}

/// Fibonacci numbers grow monotonically.
pub proof fn lemma_fib_mono(a: nat, b: nat)
    requires
        a <= b,
    ensures
        fib(a) <= fib(b),
    decreases b,
{
    if a < b {
        if b >= 2 {
            lemma_fib_mono(a, (b - 1) as nat);
        }
    }
}

/// The AVL worst-case depth bound in exact integer form: a balanced tree
/// of height h holds at least fib(h + 2) - 1 nodes. Since fib grows as
/// the golden ratio to the h, this is the classical bound
/// h <= 1.44 * log2(n + 2) on the depth for n stored values.
pub proof fn lemma_depth_bound(t: AvlTree)
    requires
        t.balanced(),
    ensures
        t.size() + 1 >= fib(t.height() + 2),
    decreases t,
{
    match t {
        AvlTree::Null => {
            assert(fib(0) == 0 && fib(1) == 1 && fib(2) == 1);
        },
        AvlTree::Tree(n) => {
            lemma_depth_bound(n.left);
            lemma_depth_bound(n.right);
            let hl = n.left.height();
            let hr = n.right.height();
            let h = t.height();
            if hl >= hr {
                assert(h == hl + 1);
                assert(fib(h + 2) == fib(hl + 2) + fib(hl + 1));
                lemma_fib_mono(hl + 1, hr + 2);
            } else {
                assert(h == hr + 1);
                assert(fib(h + 2) == fib(hr + 2) + fib(hr + 1));
                lemma_fib_mono(hr + 1, hl + 2);
            }
        },
    }
}

/// Two trees with the same links and the same balance factors, whatever
/// values their nodes hold.
pub open spec fn same_structure(a: AvlTree, b: AvlTree) -> bool
    decreases a,
{
    match a {
        AvlTree::Null => b is Null,
        AvlTree::Tree(x) => match b {
            AvlTree::Tree(y) => x.bfactor == y.bfactor && same_structure(x.left, y.left)
                && same_structure(x.right, y.right),
            AvlTree::Null => false,
        },
    }
}

/// A tree shares its structure with itself.
pub proof fn lemma_same_structure_refl(t: AvlTree)
    ensures
        same_structure(t, t),
    decreases t,
{
    match t {
        AvlTree::Null => {},
        AvlTree::Tree(n) => {
            lemma_same_structure_refl(n.left);
            lemma_same_structure_refl(n.right);
        },
    }
}

/// Trees of the same structure have the same height, size and balance.
pub proof fn lemma_same_structure_props(a: AvlTree, b: AvlTree)
    requires
        same_structure(a, b),
    ensures
        a.height() == b.height(),
        a.size() == b.size(),
        a.balanced() == b.balanced(),
    decreases a,
{
    match a {
        AvlTree::Null => {},
        AvlTree::Tree(x) => {
            let y = b->Tree_0;
            assert(b == AvlTree::Tree(y));
            lemma_same_structure_props(x.left, y.left);
            lemma_same_structure_props(x.right, y.right);
        },
    }
}

/// The tree with the value at in-order position `i` replaced by `v`:
/// links and balance factors untouched.
pub open spec fn lnr_update(t: AvlTree, i: int, v: u64) -> AvlTree
    decreases t,
{
    match t {
        AvlTree::Null => t,
        AvlTree::Tree(n) => {
            let ll = n.left.lnr_seq().len() as int;
            if i < ll {
                AvlTree::Tree(
                    Box::new(
                        AvlNode {
                            val: n.val,
                            left: lnr_update(n.left, i, v),
                            right: n.right,
                            bfactor: n.bfactor,
                        },
                    ),
                )
            } else if i == ll {
                AvlTree::Tree(
                    Box::new(
                        AvlNode { val: v, left: n.left, right: n.right, bfactor: n.bfactor },
                    ),
                )
            } else {
                AvlTree::Tree(
                    Box::new(
                        AvlNode {
                            val: n.val,
                            left: n.left,
                            right: lnr_update(n.right, i - ll - 1, v),
                            bfactor: n.bfactor,
                        },
                    ),
                )
            }
        },
    }
}

/// Replacing one in-order value keeps the structure and updates exactly
/// that position of the in-order output.
pub proof fn lemma_lnr_update(t: AvlTree, i: int, v: u64)
    requires
        0 <= i < t.lnr_seq().len(),
    ensures
        same_structure(t, lnr_update(t, i, v)),
        lnr_update(t, i, v).lnr_seq() == t.lnr_seq().update(i, v),
    decreases t,
{
    match t {
        AvlTree::Null => {},
        AvlTree::Tree(n) => {
            let l = n.left.lnr_seq();
            let r = n.right.lnr_seq();
            let s = t.lnr_seq();
            let ll = l.len() as int;
            let u = lnr_update(t, i, v);
            assert(s == l + seq![n.val] + r);
            if i < ll {
                lemma_lnr_update(n.left, i, v);
                lemma_same_structure_refl(n.right);
                assert(u.lnr_seq() =~= s.update(i, v));
            } else if i == ll {
                lemma_same_structure_refl(n.left);
                lemma_same_structure_refl(n.right);
                assert(u.lnr_seq() =~= s.update(i, v));
            } else {
                lemma_lnr_update(n.right, i - ll - 1, v);
                lemma_same_structure_refl(n.left);
                assert(u.lnr_seq() =~= s.update(i, v));
            }
        },
    }
}

/// Rewriting every stored value through an order-preserving map, position
/// by in-order position, leaves a well-formed tree whose in-order output
/// is the rewritten values, still strictly ascending: reading the tree
/// in order after such a pass yields the transformed values sorted.
pub proof fn lemma_mut_traversal_consistency(t: AvlTree, u: AvlTree, f: spec_fn(u64) -> u64)
    requires
        t.wf(),
        same_structure(t, u),
        u.lnr_seq() == t.lnr_seq().map_values(f),
        forall|a: u64, b: u64| a < b ==> #[trigger] f(a) < #[trigger] f(b),
    ensures
        u.wf(),
        forall|i: int, j: int|
            0 <= i < j < u.lnr_seq().len() ==> u.lnr_seq()[i] < u.lnr_seq()[j],
        forall|i: int| 0 <= i < u.lnr_seq().len() ==> u.lnr_seq()[i] == f(t.lnr_seq()[i]),
{
    lemma_lnr_sorted(t);
    assert forall|i: int, j: int|
        0 <= i < j < u.lnr_seq().len() implies u.lnr_seq()[i] < u.lnr_seq()[j] by {
        assert(t.lnr_seq()[i] < t.lnr_seq()[j]);
        assert(u.lnr_seq()[i] == f(t.lnr_seq()[i]));
        assert(u.lnr_seq()[j] == f(t.lnr_seq()[j]));
    }
    lemma_sorted_lnr_bst(u);
    lemma_same_structure_props(t, u);
}


/// The tree a left-right or right-left double rotation rebuilds: the
/// grandchild becomes the root, its subtrees are shared out to the two
/// rotated-down nodes, and the three factors are reassigned.
pub open spec fn double_rebuilt(
    x: Box<AvlNode>,
    l: Box<AvlNode>,
    g: Box<AvlNode>,
    a: i8,
    b: i8,
) -> AvlTree {
    AvlTree::Tree(
        Box::new(
            AvlNode {
                val: g.val,
                left: AvlTree::Tree(
                    Box::new(
                        AvlNode { val: l.val, left: l.left, right: g.left, bfactor: b },
                    ),
                ),
                right: AvlTree::Tree(
                    Box::new(
                        AvlNode { val: x.val, left: g.right, right: x.right, bfactor: a },
                    ),
                ),
                bfactor: 0i8,
            },
        ),
    )
}

/// A left-right double rotation with the table's factor assignments
/// restores balance, keeps the values and the in-order output, and
/// shrinks the height by one.
#[verifier::rlimit(100)]
#[verifier::spinoff_prover]
proof fn lemma_left_double_rebalance(
    t0: AvlTree,
    x: Box<AvlNode>,
    l: Box<AvlNode>,
    g: Box<AvlNode>,
    a: i8,
    b: i8,
)
    requires
        t0 == AvlTree::Tree(x),
        x.left == AvlTree::Tree(l),
        l.right == AvlTree::Tree(g),
        t0.is_bst(),
        t0.pre_balanced(),
        x.bfactor as int == -2,
        l.bfactor as int == 1,
        a as int == (if g.bfactor as int == -1 {
            1int
        } else {
            0int
        }),
        b as int == (if g.bfactor as int == 1 {
            -1int
        } else {
            0int
        }),
    ensures
        double_rebuilt(x, l, g, a, b).is_bst(),
        double_rebuilt(x, l, g, a, b).balanced(),
        forall|z: u64| double_rebuilt(x, l, g, a, b).has(z) == t0.has(z),
        double_rebuilt(x, l, g, a, b).lnr_seq() == t0.lnr_seq(),
        double_rebuilt(x, l, g, a, b).size() == t0.size(),
        double_rebuilt(x, l, g, a, b).height() + 1 == t0.height(),
{
    reveal_with_fuel(AvlTree::is_bst, 3);
    reveal_with_fuel(AvlTree::has, 3);
    reveal_with_fuel(AvlTree::height, 3);
    reveal_with_fuel(AvlTree::balanced, 3);
    reveal_with_fuel(AvlTree::lnr_seq, 3);
    reveal_with_fuel(AvlTree::size, 3);
    let ta = l.left;
    let tg1 = g.left;
    let tg2 = g.right;
    let tc = x.right;
    let tb = l.right;
    assert(ta.balanced() && tb.balanced() && tc.balanced());
    assert(tg1.balanced() && tg2.balanced());
    assert(ta.is_bst() && tb.is_bst() && tc.is_bst());
    assert(tg1.is_bst() && tg2.is_bst());
    assert(x.left.has(l.val));
    assert(l.val < x.val);
    assert(tb.has(g.val));
    assert(x.left.has(g.val));
    assert(l.val < g.val && g.val < x.val);
    assert forall|z: u64| tb.has(z) implies l.val < z && z < x.val by {
        assert(x.left.has(z));
    }
    assert forall|z: u64| ta.has(z) implies z < l.val by {}
    assert forall|z: u64| tc.has(z) implies x.val < z by {}
    assert forall|z: u64| tg1.has(z) implies l.val < z && z < g.val by {
        assert(tb.has(z));
    }
    assert forall|z: u64| tg2.has(z) implies g.val < z && z < x.val by {
        assert(tb.has(z));
    }
    let nl = AvlTree::Tree(Box::new(AvlNode { val: l.val, left: ta, right: tg1, bfactor: b }));
    let nr = AvlTree::Tree(Box::new(AvlNode { val: x.val, left: tg2, right: tc, bfactor: a }));
    let fin = AvlTree::Tree(Box::new(AvlNode { val: g.val, left: nl, right: nr, bfactor: 0i8 }));
    assert(fin == double_rebuilt(x, l, g, a, b));
    assert(x.left.height() == x.right.height() + 2);
    assert(tc.height() == ta.height());
    assert(tb.height() == ta.height() + 1);
    if g.bfactor == -1 {
        assert(tg1.height() == ta.height() && tg2.height() + 1 == ta.height());
    } else if g.bfactor == 0 {
        assert(tg1.height() == ta.height() && tg2.height() == ta.height());
    } else {
        assert(tg1.height() + 1 == ta.height() && tg2.height() == ta.height());
    }
    assert(nl.height() == ta.height() + 1);
    assert(nr.height() == ta.height() + 1);
    assert(nl.balanced() && nr.balanced());
    assert(fin.balanced());
    assert forall|z: u64| nl.has(z) implies z < g.val by {
        assert(nl.has(z) == (z == l.val || ta.has(z) || tg1.has(z)));
    }
    assert forall|z: u64| nr.has(z) implies g.val < z by {
        assert(nr.has(z) == (z == x.val || tg2.has(z) || tc.has(z)));
    }
    assert(nl.is_bst() && nr.is_bst());
    assert(fin.is_bst());
    assert forall|z: u64| fin.has(z) == t0.has(z) by {
        assert(fin.has(z) == (z == g.val || nl.has(z) || nr.has(z)));
        assert(nl.has(z) == (z == l.val || ta.has(z) || tg1.has(z)));
        assert(nr.has(z) == (z == x.val || tg2.has(z) || tc.has(z)));
        assert(t0.has(z) == (z == x.val || x.left.has(z) || tc.has(z)));
        assert(x.left.has(z) == (z == l.val || ta.has(z) || tb.has(z)));
        assert(tb.has(z) == (z == g.val || tg1.has(z) || tg2.has(z)));
    }
    assert(tb.lnr_seq() == tg1.lnr_seq() + seq![g.val] + tg2.lnr_seq());
    assert(x.left.lnr_seq() == ta.lnr_seq() + seq![l.val] + tb.lnr_seq());
    assert(fin.lnr_seq() =~= t0.lnr_seq());
    assert(tb.size() == 1 + tg1.size() + tg2.size());
    assert(x.left.size() == 1 + ta.size() + tb.size());
}

} // verus!
