//! The tree: owns the root node, delegates insertion to it, and grows a
//! new root exactly when the old root overflows.

use vstd::prelude::*;

use crate::node::from_holds_elim;
use crate::node::from_holds_intro;
use crate::node::lemma_descendant_wf;
use crate::node::lemma_leaf_depth;
use crate::node::lemma_node_props;
use crate::node::make_inner_node;
use crate::node::Flow;
use crate::node::Node;
use crate::order::lemma_sorted_unique;
use crate::order::sorted;

verus! {

/// A B-tree of order `m`: every node holds at most `m - 1` keys and an
/// internal node with `k` keys has `k + 1` children.
#[derive(Debug)]
pub struct BTree {
    pub m: usize,
    pub root: Node,
}

impl BTree {
    /// The tree is well formed: a lawful order, and a well-formed root.
    pub open spec fn wf(self) -> bool {
        &&& self.m >= 3
        &&& self.root.wf(self.m as int)
    }

    /// The set of keys stored in the tree.
    pub open spec fn key_set(self) -> Set<i64> {
        self.root.key_set()
    }

    /// The keys of the tree in sorted order.
    pub open spec fn in_order(self) -> Seq<i64> {
        self.root.in_order()
    }

    /// Number of edges from the root down to the leaves.
    pub open spec fn height(self) -> nat {
        self.root.height()
    }

    /// An empty tree of order `m`: a single empty leaf as the root.
    pub fn new(m: usize) -> (t: BTree)
        requires
            3 <= m,
        ensures
            t.wf(),
            t.m == m,
            t.key_set() == Set::<i64>::empty(),
            t.in_order() == Seq::<i64>::empty(),
            t.height() == 0,
    {
        let t = BTree { m, root: Node::new() };
        proof {
            assert(t.key_set() =~= Set::<i64>::empty());
        }
        t
    }

    /// Insert `key` into the tree. On a duplicate the tree is left
    /// unchanged and `Duplicate` comes back; otherwise the tree
    /// afterwards holds exactly its old keys plus `key`. A `SplitUp`
    /// never escapes: the tree itself consumes a root split by growing
    /// a new root, the only way its height ever changes, and then by
    /// exactly one level, exactly when the old root was full and its
    /// own split bubbled up.
    pub fn insert(&mut self, key: i64) -> (r: Flow)
        requires
            old(self).wf(),
        ensures
            final(self).wf(),
            final(self).m == old(self).m,
            match r {
                Flow::Duplicate => {
                    &&& old(self).key_set().contains(key)
                    &&& final(self).key_set() == old(self).key_set()
                    &&& final(self).in_order() == old(self).in_order()
                    &&& final(self).height() == old(self).height()
                },
                Flow::Inserted => {
                    &&& !old(self).key_set().contains(key)
                    &&& final(self).key_set() == old(self).key_set().insert(key)
                    &&& old(self).height() <= final(self).height() <= old(self).height() + 1
                    &&& (final(self).height() == old(self).height() + 1 ==> old(
                        self,
                    ).root.keys@.len() == old(self).m - 1)
                },
                Flow::SplitUp(..) => false,
            },
            old(self).root.children@.len() == 0 && old(self).root.keys@.len() == old(self).m - 1
                && !old(self).key_set().contains(key) ==> final(self).height() == old(
                self,
            ).height() + 1,
    {
        let m = self.m;
        let fl = self.root.insert(m, key);
        match fl {
            Flow::Duplicate => {
                proof {
                    lemma_node_props(old(self).root, m as int, m as int - 1);
                    lemma_node_props(self.root, m as int, m as int - 1);
                    lemma_sorted_unique(self.root.in_order(), old(self).root.in_order());
                }
                Flow::Duplicate
            },
            Flow::Inserted => Flow::Inserted,
            Flow::SplitUp(k, sib) => {
                let ghost left = self.root;
                let ghost sibg = sib;
                let mut ks: Vec<i64> = Vec::new();
                ks.push(k);
                let mut old_root = Node::new();
                core::mem::swap(&mut self.root, &mut old_root);
                let mut kids: Vec<Node> = Vec::new();
                kids.push(old_root);
                kids.push(sib);
                self.root = make_inner_node(ks, kids);
                proof {
                    let nr = self.root;
                    assert(nr.keys@ =~= seq![k]);
                    assert(nr.children@.len() == 2);
                    assert(nr.children@[0] == left);
                    assert(nr.children@[1] == sibg);
                    assert(nr.wf(m as int));
                    assert(nr.height() == old(self).height() + 1);
                    lemma_node_props(nr, m as int, m as int - 1);
                    assert forall|x: i64| #[trigger]
                        nr.key_set().contains(x) implies (old(self).key_set().contains(x) || x
                        == key) by {
                        let j = from_holds_elim(nr, 0, x);
                        if nr.children@[j].key_set().contains(x) {
                            assert(left.key_set().contains(x) || sibg.key_set().contains(x));
                        } else {
                            assert(x == k);
                        }
                        assert(left.key_set().contains(x) || x == k || sibg.key_set().contains(
                            x,
                        ));
                    }
                    assert forall|x: i64|
                        old(self).key_set().contains(x) || x == key implies #[trigger]
                        nr.key_set().contains(x) by {
                        assert(left.key_set().contains(x) || x == k || sibg.key_set().contains(
                            x,
                        ));
                        if left.key_set().contains(x) {
                            from_holds_intro(nr, 0, x, 0);
                        } else if sibg.key_set().contains(x) {
                            from_holds_intro(nr, 0, x, 1);
                        } else {
                            from_holds_intro(nr, 0, x, 0);
                        }
                    }
                    assert(self.key_set() =~= old(self).key_set().insert(key));
                }
                Flow::Inserted
            },
        }
    }

    /// The keys of the tree, in sorted order.
    pub fn in_order_keys(&self) -> (r: Vec<i64>)
        ensures
            r@ == self.in_order(),
    {
        let mut out: Vec<i64> = Vec::new();
        self.root.push_in_order(&mut out);
        proof {
            assert(out@ =~= self.in_order());
        }
        out
    }
}

/// Sorted-order law: on a well-formed tree, the in-order read-out is a
/// strictly increasing sequence, and its elements are exactly the
/// tree's key set — the keys inserted so far, in sorted order.
pub proof fn lemma_tree_in_order_sorted(t: BTree)
    requires
        t.wf(),
    ensures
        sorted(t.in_order()),
        t.in_order().to_set() == t.key_set(),
{
    lemma_node_props(t.root, t.m as int, t.m as int - 1);
}

/// Node-shape law: every node of a well-formed tree has strictly
/// increasing keys, holds at most `m - 1` of them, and, when internal,
/// has exactly one more child than keys.
pub proof fn lemma_tree_node_shape(t: BTree, n: Node, d: int)
    requires
        t.wf(),
        t.root.node_at_depth(n, d),
    ensures
        sorted(n.keys@),
        n.keys@.len() <= t.m - 1,
        n.children@.len() == 0 || n.children@.len() == n.keys@.len() + 1,
{
    lemma_descendant_wf(t.root, t.m as int, n, d);
}

/// Balance law: every leaf of a well-formed tree sits at the same
/// depth below the root, namely the tree height.
pub proof fn lemma_tree_leaves_level(t: BTree, n: Node, d: int)
    requires
        t.wf(),
        t.root.node_at_depth(n, d),
        n.children@.len() == 0,
    ensures
        d == t.height(),
{
    lemma_leaf_depth(t.root, t.m as int, n, d);
}

} // verus!

