//! A single B-tree node: an ordered sequence of keys and, on internal
//! nodes, one more child than keys. The node owns the recursive
//! insertion and split logic for its own subtree.

use vstd::prelude::*;

use crate::order::above;
use crate::order::below;
use crate::order::sorted;

verus! {

broadcast use vstd::std_specs::vec::group_vec_axioms;

/// The outcome of inserting a key into a subtree, reported to the
/// caller owning the node (the parent node, or the tree for the root).
#[derive(Debug)]
pub enum Flow {
    /// The key was added; the node kept its bounds.
    Inserted,
    /// The key was already present; nothing changed.
    Duplicate,
    /// The node overflowed and split: the promoted median key, and the
    /// freshly allocated right sibling. The node itself kept the left
    /// half. The caller places the sibling directly after the node.
    SplitUp(i64, Node),
}

/// A B-tree node. A node is a leaf iff `children` is empty; an internal
/// node has exactly one more child than keys.
#[derive(Debug)]
pub struct Node {
    pub keys: Vec<i64>,
    pub children: Vec<Node>,
}

impl Node {
    /// The keys of the whole subtree, visited child, key, child, key,
    /// ..., child: sorted order on a well-formed node.
    pub open spec fn in_order(self) -> Seq<i64>
        decreases self, self.children@.len() + 1,
    {
        if self.children@.len() == 0 {
            self.keys@
        } else {
            self.in_order_from(0)
        }
    }

    /// The tail of the in-order read-out from child `i` on.
    pub open spec fn in_order_from(self, i: int) -> Seq<i64>
        decreases self, self.children@.len() - i,
    {
        if i < 0 || i >= self.children@.len() {
            Seq::empty()
        } else if i < self.keys@.len() {
            self.children@[i].in_order() + seq![self.keys@[i]] + self.in_order_from(i + 1)
        } else {
            self.children@[i].in_order()
        }
    }

    /// The set of keys stored in the subtree.
    pub open spec fn key_set(self) -> Set<i64> {
        self.in_order().to_set()
    }

    /// Distance from this node down to its leftmost leaf; on a
    /// well-formed node, to every leaf.
    pub open spec fn height(self) -> nat
        decreases self,
    {
        if self.children@.len() == 0 {
            0
        } else {
            1 + self.children@[0].height()
        }
    }

    /// Well-formedness under order `m`, with at most `cap` keys in this
    /// node itself. Descendants always hold at most `m - 1` keys; the
    /// loose cap admits the one transient overfull node of a split.
    pub open spec fn wf_loose(self, m: int, cap: int) -> bool
        decreases self, 0int,
    {
        &&& self.keys@.len() <= cap
        &&& sorted(self.keys@)
        &&& self.children@.len() == 0 || self.children@.len() == self.keys@.len() + 1
        &&& self.children@.len() > 0 ==> self.keys@.len() >= 1
        &&& forall|i: int|
            0 <= i < self.children@.len() ==> (#[trigger] self.children@[i]).wf(m)
        &&& forall|i: int|
            0 <= i < self.children@.len() ==> (#[trigger] self.children@[i]).height()
                == self.children@[0].height()
        &&& forall|i: int|
            0 <= i < self.children@.len() && i < self.keys@.len() ==> below(
                (#[trigger] self.children@[i]).key_set(),
                self.keys@[i],
            )
        &&& forall|i: int|
            0 < i < self.children@.len() ==> above(
                (#[trigger] self.children@[i]).key_set(),
                self.keys@[i - 1],
            )
    }

    /// Well-formedness under order `m`: at most `m - 1` keys per node,
    /// keys strictly sorted, child count one more than key count on
    /// internal nodes, children balanced, and each child's keys between
    /// the node keys that flank it.
    pub open spec fn wf(self, m: int) -> bool
        decreases self, 1int,
    {
        self.wf_loose(m, m - 1)
    }
}

/// On a well-formed node (up to a loose cap on its own key count), the
/// in-order read-out is strictly sorted, and a key lies in the subtree
/// exactly when it is one of the node's keys or lies under a child.
pub proof fn lemma_node_props(n: Node, m: int, cap: int)
    requires
        n.wf_loose(m, cap),
    ensures
        sorted(n.in_order()),
        n.children@.len() == 0 ==> n.in_order() == n.keys@,
        n.children@.len() > 0 ==> forall|x: i64| #[trigger]
            n.key_set().contains(x) <==> from_holds(n, 0, x),
        forall|j: int, x: i64|
            0 <= j < n.children@.len() && (#[trigger] n.children@[j].key_set().contains(x))
                ==> n.key_set().contains(x),
        forall|x: i64| n.keys@.contains(x) ==> #[trigger] n.key_set().contains(x),
    decreases n, n.children@.len() + 1,
{
    if n.children@.len() == 0 {
        assert(n.in_order() == n.keys@);
    } else {
        lemma_from_props(n, m, cap, 0);
        assert(n.in_order() == n.in_order_from(0));
        assert forall|x: i64| #[trigger] n.key_set().contains(x) <==> from_holds(n, 0, x) by {
            assert(n.key_set().contains(x) <==> n.in_order_from(0).contains(x));
        }
        assert forall|x: i64| n.keys@.contains(x) implies #[trigger] n.key_set().contains(
            x,
        ) by {
            let j = choose|j: int| 0 <= j < n.keys@.len() && n.keys@[j] == x;
            from_holds_intro(n, 0, x, j);
            assert(n.in_order_from(0).contains(x));
        }
        assert forall|j: int, x: i64|
            0 <= j < n.children@.len() && (#[trigger] n.children@[j].key_set().contains(x))
            implies n.key_set().contains(x) by {
            from_holds_intro(n, 0, x, j);
            assert(n.in_order_from(0).contains(x));
        }
    }
}

/// Whether key `x` occurs at or after position `i` in a node: as a node
/// key `keys[j]` or under a child `children[j]`, for some `j >= i`.
pub open spec fn from_holds(n: Node, i: int, x: i64) -> bool {
    exists|j: int|
        i <= j < n.children@.len() && ((#[trigger] n.children@[j].key_set().contains(x)) || (j
            < n.keys@.len() && x == n.keys@[j]))
}

/// Position `j` witnesses that key `x` occurs at or after position `i`.
pub proof fn from_holds_intro(n: Node, i: int, x: i64, j: int)
    requires
        i <= j < n.children@.len(),
        n.children@[j].key_set().contains(x) || (j < n.keys@.len() && x == n.keys@[j]),
    ensures
        from_holds(n, i, x),
{
    if n.children@[j].key_set().contains(x) {
        assert(from_holds(n, i, x));
    } else {
        assert(from_holds(n, i, x));
    }
}

/// A position witnessing that key `x` occurs at or after position `i`.
pub proof fn from_holds_elim(n: Node, i: int, x: i64) -> (j: int)
    requires
        from_holds(n, i, x),
    ensures
        i <= j < n.children@.len(),
        n.children@[j].key_set().contains(x) || (j < n.keys@.len() && x == n.keys@[j]),
{
    choose|j: int|
        i <= j < n.children@.len() && ((#[trigger] n.children@[j].key_set().contains(x)) || (j
            < n.keys@.len() && x == n.keys@[j]))
}

/// The suffix of the in-order read-out starting at child `i` is sorted,
/// lies strictly above the key before it, and holds exactly the keys
/// and child subtrees from position `i` on.
proof fn lemma_from_props(n: Node, m: int, cap: int, i: int)
    requires
        n.wf_loose(m, cap),
        n.children@.len() == n.keys@.len() + 1,
        0 <= i < n.children@.len(),
    ensures
        sorted(n.in_order_from(i)),
        forall|x: i64| #[trigger]
            n.in_order_from(i).contains(x) ==> (i > 0 ==> x > n.keys@[i - 1]),
        forall|x: i64| #[trigger] n.in_order_from(i).contains(x) <==> from_holds(n, i, x),
    decreases n, n.children@.len() - i,
{
    let c = n.children@[i];
    lemma_node_props(c, m, m - 1);
    let a = c.in_order();
    assert(forall|x: i64| #[trigger] a.contains(x) ==> c.key_set().contains(x));
    assert(forall|x: i64| #[trigger] c.key_set().contains(x) ==> a.contains(x));
    if i == n.keys@.len() {
        assert(n.in_order_from(i) == a);
        assert forall|x: i64| #[trigger] n.in_order_from(i).contains(x) implies from_holds(
            n,
            i,
            x,
        ) by {
            assert(c.key_set().contains(x));
            from_holds_intro(n, i, x, i);
        }
        assert forall|x: i64| from_holds(n, i, x) implies n.in_order_from(i).contains(x) by {
            let j = from_holds_elim(n, i, x);
            assert(j == i);
        }
    } else {
        lemma_from_props(n, m, cap, i + 1);
        let k = n.keys@[i];
        let b = n.in_order_from(i + 1);
        let s = n.in_order_from(i);
        assert(s == a + seq![k] + b);
        // membership over the concatenation
        assert forall|x: i64| #[trigger] s.contains(x) implies (a.contains(x) || x == k
            || b.contains(x)) by {
            let p = choose|p: int| 0 <= p < s.len() && s[p] == x;
            if p < a.len() {
                assert(a[p] == x);
            } else if p == a.len() {
                assert(x == k);
            } else {
                assert(b[p - a.len() - 1] == x);
            }
        }
        assert forall|x: i64| (a.contains(x) || x == k || b.contains(x)) implies s.contains(
            x,
        ) by {
            if a.contains(x) {
                let p = choose|p: int| 0 <= p < a.len() && a[p] == x;
                assert(s[p] == x);
            } else if x == k {
                assert(s[a.len() as int] == x);
            } else {
                let p = choose|p: int| 0 <= p < b.len() && b[p] == x;
                assert(s[a.len() + 1 + p] == x);
            }
        }
        // sortedness: child keys below k, suffix above k
        assert(below(c.key_set(), k));
        assert forall|p: int, q: int| 0 <= p < q < s.len() implies s[p] < s[q] by {
            let alen = a.len() as int;
            if q < alen {
                assert(a[p] < a[q]);
            } else if q == alen {
                assert(a.contains(a[p]));
                assert(c.key_set().contains(a[p]));
            } else {
                assert(b.contains(s[q]));
                assert(s[q] > k);
                if p < alen {
                    assert(a.contains(a[p]));
                    assert(c.key_set().contains(a[p]));
                    assert(s[p] < k);
                } else if p == alen {
                    assert(s[p] == k);
                } else {
                    assert(b[p - alen - 1] < b[q - alen - 1]);
                }
            }
        }
        // bound: everything from position i lies above keys[i - 1]
        if i > 0 {
            assert forall|x: i64| #[trigger] s.contains(x) implies x > n.keys@[i - 1] by {
                if a.contains(x) {
                    assert(c.key_set().contains(x));
                    assert(above(c.key_set(), n.keys@[i - 1]));
                } else if x == k {
                    assert(n.keys@[i - 1] < n.keys@[i]);
                } else {
                    assert(b.contains(x));
                    assert(x > n.keys@[i]);
                    assert(n.keys@[i - 1] < n.keys@[i]);
                }
            }
        }
        // the suffix holds exactly the keys and subtrees from i on
        assert forall|x: i64| #[trigger] s.contains(x) implies from_holds(n, i, x) by {
            if a.contains(x) {
                assert(c.key_set().contains(x));
                from_holds_intro(n, i, x, i);
            } else if x == k {
                from_holds_intro(n, i, x, i);
            } else {
                assert(b.contains(x));
                assert(from_holds(n, i + 1, x));
                let j = from_holds_elim(n, i + 1, x);
                from_holds_intro(n, i, x, j);
            }
        }
        assert forall|x: i64| from_holds(n, i, x) implies s.contains(x) by {
            let j = from_holds_elim(n, i, x);
            if j == i {
                if c.key_set().contains(x) {
                    assert(a.contains(x));
                } else {
                    assert(x == k);
                }
            } else {
                from_holds_intro(n, i + 1, x, j);
                assert(b.contains(x));
            }
        }
    }
}

/// What `Node::insert` promises of the node it left behind and of the
/// outcome it reported, relative to the node it was given.
pub open spec fn insert_result(pre: Node, m: int, key: i64, post: Node, r: Flow) -> bool {
    match r {
        Flow::Duplicate => {
            &&& pre.key_set().contains(key)
            &&& post.wf(m)
            &&& post.key_set() == pre.key_set()
            &&& post.height() == pre.height()
        },
        Flow::Inserted => {
            &&& !pre.key_set().contains(key)
            &&& post.wf(m)
            &&& post.key_set() == pre.key_set().insert(key)
            &&& post.height() == pre.height()
        },
        Flow::SplitUp(k, sib) => {
            &&& !pre.key_set().contains(key)
            &&& pre.keys@.len() == m - 1
            &&& post.wf(m)
            &&& sib.wf(m)
            &&& post.height() == pre.height()
            &&& sib.height() == pre.height()
            &&& below(post.key_set(), k)
            &&& above(sib.key_set(), k)
            &&& forall|x: i64|
                #![trigger post.key_set().contains(x)]
                #![trigger sib.key_set().contains(x)]
                #![trigger pre.key_set().contains(x)]
                (post.key_set().contains(x) || x == k || sib.key_set().contains(x)) <==> (
                pre.key_set().contains(x) || x == key)
        },
    }
}

/// Splitting an overfull node at its median: the node keeps the keys
/// and children left of the median, the sibling takes those right of
/// it, and the median key is promoted. Both halves are well formed, at
/// the old height, with at least one key each; the left half lies below
/// the promoted key, the right half above it; together with the
/// promoted key they hold exactly the keys of the overfull node.
proof fn lemma_split(pre: Node, left: Node, k: i64, sib: Node, m: int)
    requires
        m >= 3,
        pre.wf_loose(m, m),
        pre.keys@.len() == m,
        left.keys@ == pre.keys@.subrange(0, m / 2),
        sib.keys@ == pre.keys@.subrange(m / 2 + 1, m),
        k == pre.keys@[m / 2],
        pre.children@.len() == 0 ==> left.children@.len() == 0 && sib.children@.len() == 0,
        pre.children@.len() > 0 ==> left.children@ == pre.children@.subrange(0, m / 2 + 1)
            && sib.children@ == pre.children@.subrange(m / 2 + 1, m + 1),
    ensures
        left.wf(m),
        sib.wf(m),
        left.height() == pre.height(),
        sib.height() == pre.height(),
        below(left.key_set(), k),
        above(sib.key_set(), k),
        forall|x: i64|
            #![trigger left.key_set().contains(x)]
            #![trigger sib.key_set().contains(x)]
            #![trigger pre.key_set().contains(x)]
            (left.key_set().contains(x) || x == k || sib.key_set().contains(x)) <==> pre.key_set()
                .contains(x),
        left.keys@.len() >= 1,
        sib.keys@.len() >= 1,
{
    let mid = m / 2;
    assert(1 <= mid && mid <= m - 2);
    assert(left.keys@.len() == mid);
    assert(sib.keys@.len() == m - mid - 1);
    lemma_node_props(pre, m, m);
    if pre.children@.len() == 0 {
        assert(left.wf(m));
        assert(sib.wf(m));
        lemma_node_props(left, m, m - 1);
        lemma_node_props(sib, m, m - 1);
        assert(left.in_order() == left.keys@);
        assert(sib.in_order() == sib.keys@);
        assert(pre.in_order() == pre.keys@);
        assert(below(left.key_set(), k)) by {
            assert forall|x: i64| left.key_set().contains(x) implies x < k by {
                let j = choose|j: int| 0 <= j < left.keys@.len() && left.keys@[j] == x;
                assert(x == pre.keys@[j]);
            }
        }
        assert(above(sib.key_set(), k)) by {
            assert forall|x: i64| sib.key_set().contains(x) implies x > k by {
                let j = choose|j: int| 0 <= j < sib.keys@.len() && sib.keys@[j] == x;
                assert(x == pre.keys@[mid + 1 + j]);
            }
        }
        assert forall|x: i64|
            #![trigger left.key_set().contains(x)]
            #![trigger sib.key_set().contains(x)]
            #![trigger pre.key_set().contains(x)]
            (left.key_set().contains(x) || x == k || sib.key_set().contains(x))
                <==> pre.key_set().contains(x) by {
            if left.key_set().contains(x) {
                let j = choose|j: int| 0 <= j < left.keys@.len() && left.keys@[j] == x;
                assert(pre.keys@[j] == x);
                assert(pre.keys@.contains(x));
            }
            if x == k {
                assert(pre.keys@.contains(x));
            }
            if sib.key_set().contains(x) {
                let j = choose|j: int| 0 <= j < sib.keys@.len() && sib.keys@[j] == x;
                assert(pre.keys@[mid + 1 + j] == x);
                assert(pre.keys@.contains(x));
            }
            if pre.key_set().contains(x) {
                let j = choose|j: int| 0 <= j < pre.keys@.len() && pre.keys@[j] == x;
                if j < mid {
                    assert(left.keys@[j] == x);
                    assert(left.keys@.contains(x));
                } else if j > mid {
                    assert(sib.keys@[j - mid - 1] == x);
                    assert(sib.keys@.contains(x));
                } else {
                    assert(x == k);
                }
            }
        }
    } else {
        assert(pre.children@.len() == m + 1);
        assert(left.children@.len() == mid + 1);
        assert(sib.children@.len() == m - mid);
        assert forall|i: int| 0 <= i < left.children@.len() implies (#[trigger] left.children@[i])
            == pre.children@[i] by {}
        assert forall|i: int| 0 <= i < sib.children@.len() implies (#[trigger] sib.children@[i])
            == pre.children@[mid + 1 + i] by {}
        assert(left.wf(m)) by {
            assert forall|i: int| 0 <= i < left.children@.len() implies below(
                (#[trigger] left.children@[i]).key_set(),
                left.keys@[i],
            ) || i >= left.keys@.len() by {
                if i < left.keys@.len() {
                    assert(left.keys@[i] == pre.keys@[i]);
                }
            }
        }
        assert(sib.wf(m)) by {
            assert forall|i: int|
                0 <= i < sib.children@.len() && i < sib.keys@.len() implies below(
                (#[trigger] sib.children@[i]).key_set(),
                sib.keys@[i],
            ) by {
                assert(sib.keys@[i] == pre.keys@[mid + 1 + i]);
                assert(below(pre.children@[mid + 1 + i].key_set(), pre.keys@[mid + 1 + i]));
            }
            assert forall|i: int| 0 < i < sib.children@.len() implies above(
                (#[trigger] sib.children@[i]).key_set(),
                sib.keys@[i - 1],
            ) by {
                assert(sib.keys@[i - 1] == pre.keys@[mid + i]);
                assert(above(pre.children@[mid + 1 + i].key_set(), pre.keys@[mid + i]));
            }
        }
        assert(left.height() == pre.height());
        assert(sib.height() == 1 + sib.children@[0].height());
        assert(sib.children@[0] == pre.children@[mid + 1]);
        assert(sib.height() == pre.height());
        lemma_node_props(left, m, m - 1);
        lemma_node_props(sib, m, m - 1);
        assert(below(left.key_set(), k)) by {
            assert forall|x: i64| left.key_set().contains(x) implies x < k by {
                let j = from_holds_elim(left, 0, x);
                if left.children@[j].key_set().contains(x) {
                    assert(pre.children@[j].key_set().contains(x));
                    assert(below(pre.children@[j].key_set(), pre.keys@[j]));
                    assert(pre.keys@[j] <= k);
                } else {
                    assert(x == pre.keys@[j]);
                }
            }
        }
        assert(above(sib.key_set(), k)) by {
            assert forall|x: i64| sib.key_set().contains(x) implies x > k by {
                let j = from_holds_elim(sib, 0, x);
                if sib.children@[j].key_set().contains(x) {
                    assert(pre.children@[mid + 1 + j].key_set().contains(x));
                    assert(above(pre.children@[mid + 1 + j].key_set(), pre.keys@[mid + j]));
                    assert(k <= pre.keys@[mid + j]);
                } else {
                    assert(x == pre.keys@[mid + 1 + j]);
                }
            }
        }
        assert forall|x: i64|
            #![trigger left.key_set().contains(x)]
            #![trigger sib.key_set().contains(x)]
            #![trigger pre.key_set().contains(x)]
            (left.key_set().contains(x) || x == k || sib.key_set().contains(x))
                <==> pre.key_set().contains(x) by {
            if left.key_set().contains(x) {
                let j = from_holds_elim(left, 0, x);
                if left.children@[j].key_set().contains(x) {
                    assert(pre.children@[j].key_set().contains(x));
                    from_holds_intro(pre, 0, x, j);
                } else {
                    assert(x == pre.keys@[j]);
                    from_holds_intro(pre, 0, x, j);
                }
                assert(pre.key_set().contains(x));
            }
            if x == k {
                from_holds_intro(pre, 0, x, mid);
                assert(pre.key_set().contains(x));
            }
            if sib.key_set().contains(x) {
                let j = from_holds_elim(sib, 0, x);
                if sib.children@[j].key_set().contains(x) {
                    assert(pre.children@[mid + 1 + j].key_set().contains(x));
                    from_holds_intro(pre, 0, x, mid + 1 + j);
                } else {
                    assert(x == pre.keys@[mid + 1 + j]);
                    from_holds_intro(pre, 0, x, mid + 1 + j);
                }
                assert(pre.key_set().contains(x));
            }
            if pre.key_set().contains(x) {
                let j = from_holds_elim(pre, 0, x);
                if pre.children@[j].key_set().contains(x) {
                    if j <= mid {
                        assert(left.children@[j].key_set().contains(x));
                        from_holds_intro(left, 0, x, j);
                        assert(left.key_set().contains(x));
                    } else {
                        assert(sib.children@[j - mid - 1].key_set().contains(x));
                        from_holds_intro(sib, 0, x, j - mid - 1);
                        assert(sib.key_set().contains(x));
                    }
                } else {
                    assert(x == pre.keys@[j]);
                    if j < mid {
                        assert(left.keys@[j] == x);
                        from_holds_intro(left, 0, x, j);
                        assert(left.key_set().contains(x));
                    } else if j > mid {
                        assert(sib.keys@[j - mid - 1] == x);
                        from_holds_intro(sib, 0, x, j - mid - 1);
                        assert(sib.key_set().contains(x));
                    } else {
                        assert(x == k);
                    }
                }
            }
        }
    }
}

/// Replacing one child of a well-formed node by a well-formed child of
/// the same height whose keys are the old child's keys plus `key`,
/// where `key` lies strictly between the node keys flanking the child,
/// yields a well-formed node holding the old keys plus `key`.
proof fn lemma_replace_child(pre: Node, post: Node, index: int, m: int, key: i64)
    requires
        m >= 3,
        pre.wf(m),
        pre.children@.len() > 0,
        0 <= index < pre.children@.len(),
        post.keys@ == pre.keys@,
        post.children@.len() == pre.children@.len(),
        forall|j: int|
            0 <= j < pre.children@.len() && j != index ==> post.children@[j] == pre.children@[j],
        post.children@[index].wf(m),
        post.children@[index].height() == pre.children@[index].height(),
        forall|x: i64|
            #![trigger post.children@[index].key_set().contains(x)]
            #![trigger pre.children@[index].key_set().contains(x)]
            post.children@[index].key_set().contains(x) <==> (pre.children@[index].key_set()
                .contains(x) || x == key),
        index < pre.keys@.len() ==> key < pre.keys@[index],
        index > 0 ==> pre.keys@[index - 1] < key,
    ensures
        post.wf(m),
        post.height() == pre.height(),
        forall|x: i64|
            #![trigger post.key_set().contains(x)]
            #![trigger pre.key_set().contains(x)]
            post.key_set().contains(x) <==> (pre.key_set().contains(x) || x == key),
{
    let c = post.children@[index];
    let c0 = pre.children@[index];
    assert(post.wf(m)) by {
        assert forall|i: int|
            0 <= i < post.children@.len() && i < post.keys@.len() implies below(
            (#[trigger] post.children@[i]).key_set(),
            post.keys@[i],
        ) by {
            if i == index {
                assert forall|x: i64| c.key_set().contains(x) implies x < post.keys@[i] by {
                    assert(c0.key_set().contains(x) || x == key);
                }
            }
        }
        assert forall|i: int| 0 < i < post.children@.len() implies above(
            (#[trigger] post.children@[i]).key_set(),
            post.keys@[i - 1],
        ) by {
            if i == index {
                assert forall|x: i64| c.key_set().contains(x) implies x > post.keys@[i - 1] by {
                    assert(c0.key_set().contains(x) || x == key);
                }
            }
        }
    }
    assert(post.height() == pre.height());
    lemma_node_props(pre, m, m - 1);
    lemma_node_props(post, m, m - 1);
    assert forall|x: i64|
        #![trigger post.key_set().contains(x)]
        #![trigger pre.key_set().contains(x)]
        post.key_set().contains(x) <==> (pre.key_set().contains(x) || x == key) by {
        if post.key_set().contains(x) {
            let j = from_holds_elim(post, 0, x);
            if j == index && post.children@[j].key_set().contains(x) {
                if c0.key_set().contains(x) {
                    from_holds_intro(pre, 0, x, index);
                } else {
                    assert(x == key);
                }
            } else {
                from_holds_intro(pre, 0, x, j);
            }
            assert(pre.key_set().contains(x) || x == key);
        }
        if pre.key_set().contains(x) {
            let j = from_holds_elim(pre, 0, x);
            if j == index && pre.children@[j].key_set().contains(x) {
                assert(c.key_set().contains(x));
                from_holds_intro(post, 0, x, index);
            } else {
                from_holds_intro(post, 0, x, j);
            }
            assert(post.key_set().contains(x));
        }
        if x == key {
            assert(c.key_set().contains(x));
            from_holds_intro(post, 0, x, index);
            assert(post.key_set().contains(x));
        }
    }
}

/// Absorbing a child's split into a well-formed node: the child is
/// replaced by the two halves with the promoted key between them, at
/// the position where the inserted key belongs. The node may end up
/// with `m` keys (one over the resting bound) but is otherwise well
/// formed, keeps its height, and holds the old keys plus `key`.
#[verifier::rlimit(60)]
proof fn lemma_absorb_split(pre: Node, post: Node, index: int, m: int, key: i64, k2: i64)
    requires
        m >= 3,
        pre.wf(m),
        pre.children@.len() > 0,
        0 <= index < pre.children@.len(),
        forall|j: int| 0 <= j < index ==> pre.keys@[j] < key,
        index < pre.keys@.len() ==> key < pre.keys@[index],
        post.keys@ == pre.keys@.insert(index, k2),
        post.children@.len() == pre.children@.len() + 1,
        forall|j: int| 0 <= j < index ==> post.children@[j] == pre.children@[j],
        forall|j: int|
            index + 1 < j < post.children@.len() ==> post.children@[j] == pre.children@[j - 1],
        post.children@[index].wf(m),
        post.children@[index + 1].wf(m),
        post.children@[index].height() == pre.children@[index].height(),
        post.children@[index + 1].height() == pre.children@[index].height(),
        below(post.children@[index].key_set(), k2),
        above(post.children@[index + 1].key_set(), k2),
        forall|x: i64|
            #![trigger post.children@[index].key_set().contains(x)]
            #![trigger post.children@[index + 1].key_set().contains(x)]
            #![trigger pre.children@[index].key_set().contains(x)]
            (post.children@[index].key_set().contains(x) || x == k2 || post.children@[index
                + 1].key_set().contains(x)) <==> (pre.children@[index].key_set().contains(x) || x
                == key),
    ensures
        post.wf_loose(m, m),
        post.keys@.len() == pre.keys@.len() + 1,
        post.height() == pre.height(),
        forall|x: i64|
            #![trigger post.key_set().contains(x)]
            #![trigger pre.key_set().contains(x)]
            post.key_set().contains(x) <==> (pre.key_set().contains(x) || x == key),
{
    let left = post.children@[index];
    let sib = post.children@[index + 1];
    let c0 = pre.children@[index];
    pre.keys@.insert_ensures(index, k2);
    assert(pre.children@.len() == pre.keys@.len() + 1);
    // where the promoted key sits relative to the flanking node keys
    assert(c0.key_set().contains(k2) || k2 == key) by {
        assert((post.children@[index].key_set().contains(k2) || k2 == k2 || post.children@[index
            + 1].key_set().contains(k2)) <==> (pre.children@[index].key_set().contains(k2) || k2
            == key));
    }
    assert(index > 0 ==> pre.keys@[index - 1] < k2) by {
        if index > 0 {
            if c0.key_set().contains(k2) {
                assert(above(c0.key_set(), pre.keys@[index - 1]));
            }
        }
    }
    assert(index < pre.keys@.len() ==> k2 < pre.keys@[index]) by {
        if index < pre.keys@.len() {
            if c0.key_set().contains(k2) {
                assert(below(c0.key_set(), pre.keys@[index]));
            }
        }
    }
    assert(sorted(post.keys@)) by {
        assert forall|p: int, q: int| 0 <= p < q < post.keys@.len() implies post.keys@[p]
            < post.keys@[q] by {
            if q < index {
            } else if q == index {
                assert(post.keys@[p] == pre.keys@[p]);
                assert(pre.keys@[p] <= pre.keys@[index - 1]);
            } else {
                assert(post.keys@[q] == pre.keys@[q - 1]);
                if p < index {
                    assert(post.keys@[p] == pre.keys@[p]);
                    assert(index <= q - 1);
                    if index == q - 1 {
                        assert(k2 < pre.keys@[index] || c0.key_set().contains(k2));
                    }
                    assert(pre.keys@[p] < pre.keys@[q - 1] || p == q - 1);
                } else if p == index {
                    assert(post.keys@[p] == k2);
                    assert(k2 < pre.keys@[index]);
                    assert(pre.keys@[index] <= pre.keys@[q - 1]);
                } else {
                    assert(post.keys@[p] == pre.keys@[p - 1]);
                }
            }
        }
    }
    assert(post.wf_loose(m, m)) by {
        assert forall|i: int|
            0 <= i < post.children@.len() && i < post.keys@.len() implies below(
            (#[trigger] post.children@[i]).key_set(),
            post.keys@[i],
        ) by {
            if i < index {
                assert(post.children@[i] == pre.children@[i]);
                assert(post.keys@[i] == pre.keys@[i]);
            } else if i == index {
                assert(post.keys@[i] == k2);
            } else if i == index + 1 {
                assert(post.keys@[i] == pre.keys@[i - 1]);
                assert forall|x: i64| sib.key_set().contains(x) implies x < pre.keys@[index] by {
                    assert(c0.key_set().contains(x) || x == key);
                    if c0.key_set().contains(x) {
                        assert(below(c0.key_set(), pre.keys@[index]));
                    }
                }
            } else {
                assert(post.children@[i] == pre.children@[i - 1]);
                assert(post.keys@[i] == pre.keys@[i - 1]);
                assert(below(pre.children@[i - 1].key_set(), pre.keys@[i - 1]));
            }
        }
        assert forall|i: int| 0 < i < post.children@.len() implies above(
            (#[trigger] post.children@[i]).key_set(),
            post.keys@[i - 1],
        ) by {
            if i < index {
                assert(post.children@[i] == pre.children@[i]);
                assert(post.keys@[i - 1] == pre.keys@[i - 1]);
            } else if i == index {
                assert(post.keys@[i - 1] == pre.keys@[i - 1]);
                assert forall|x: i64| left.key_set().contains(x) implies x > pre.keys@[index
                    - 1] by {
                    assert(c0.key_set().contains(x) || x == key);
                    if c0.key_set().contains(x) {
                        assert(above(c0.key_set(), pre.keys@[index - 1]));
                    }
                }
            } else if i == index + 1 {
                assert(post.keys@[i - 1] == k2);
            } else {
                assert(post.children@[i] == pre.children@[i - 1]);
                assert(post.keys@[i - 1] == pre.keys@[i - 2]);
                assert(above(pre.children@[i - 1].key_set(), pre.keys@[i - 2]));
            }
        }
        assert forall|i: int|
            0 <= i < post.children@.len() implies (#[trigger] post.children@[i]).height()
            == post.children@[0].height() by {
            if index + 1 < i {
                assert(post.children@[i] == pre.children@[i - 1]);
            }
            if index > 0 {
                assert(post.children@[0] == pre.children@[0]);
            }
        }
    }
    assert(post.height() == pre.height()) by {
        if index > 0 {
            assert(post.children@[0] == pre.children@[0]);
        } else {
            assert(post.children@[0].height() == pre.children@[0].height());
        }
    }
    lemma_node_props(pre, m, m - 1);
    lemma_node_props(post, m, m);
    assert forall|x: i64|
        #![trigger post.key_set().contains(x)]
        #![trigger pre.key_set().contains(x)]
        post.key_set().contains(x) <==> (pre.key_set().contains(x) || x == key) by {
        if post.key_set().contains(x) {
            let j = from_holds_elim(post, 0, x);
            if post.children@[j].key_set().contains(x) {
                if j < index {
                    from_holds_intro(pre, 0, x, j);
                } else if j == index || j == index + 1 {
                    assert(c0.key_set().contains(x) || x == key);
                    if c0.key_set().contains(x) {
                        from_holds_intro(pre, 0, x, index);
                    }
                } else {
                    assert(post.children@[j] == pre.children@[j - 1]);
                    from_holds_intro(pre, 0, x, j - 1);
                }
            } else {
                assert(x == post.keys@[j]);
                if j < index {
                    assert(x == pre.keys@[j]);
                    from_holds_intro(pre, 0, x, j);
                } else if j == index {
                    assert(x == k2);
                    assert(c0.key_set().contains(x) || x == key);
                    if c0.key_set().contains(x) {
                        from_holds_intro(pre, 0, x, index);
                    }
                } else {
                    assert(x == pre.keys@[j - 1]);
                    from_holds_intro(pre, 0, x, j - 1);
                }
            }
            assert(pre.key_set().contains(x) || x == key);
        }
        if pre.key_set().contains(x) || x == key {
            if pre.key_set().contains(x) {
                let j = from_holds_elim(pre, 0, x);
                if pre.children@[j].key_set().contains(x) {
                    if j < index {
                        assert(post.children@[j] == pre.children@[j]);
                        from_holds_intro(post, 0, x, j);
                    } else if j == index {
                        assert(left.key_set().contains(x) || x == k2 || sib.key_set().contains(
                            x,
                        ));
                        if left.key_set().contains(x) {
                            from_holds_intro(post, 0, x, index);
                        } else if sib.key_set().contains(x) {
                            from_holds_intro(post, 0, x, index + 1);
                        } else {
                            assert(x == post.keys@[index]);
                            from_holds_intro(post, 0, x, index);
                        }
                    } else {
                        assert(post.children@[j + 1] == pre.children@[j]);
                        from_holds_intro(post, 0, x, j + 1);
                    }
                } else {
                    assert(x == pre.keys@[j]);
                    if j < index {
                        assert(post.keys@[j] == x);
                        from_holds_intro(post, 0, x, j);
                    } else {
                        assert(post.keys@[j + 1] == x);
                        from_holds_intro(post, 0, x, j + 1);
                    }
                }
            } else {
                assert(left.key_set().contains(x) || x == k2 || sib.key_set().contains(x));
                if left.key_set().contains(x) {
                    from_holds_intro(post, 0, x, index);
                } else if sib.key_set().contains(x) {
                    from_holds_intro(post, 0, x, index + 1);
                } else {
                    assert(x == post.keys@[index]);
                    from_holds_intro(post, 0, x, index);
                }
            }
            assert(post.key_set().contains(x));
        }
    }
}

/// Ordered search for `key` over the node's own keys. Returns whether
/// the key is present, and the position where it sits or belongs: all
/// keys before it are smaller, all keys from it on are larger.
fn search(keys: &Vec<i64>, key: i64) -> (r: (bool, usize))
    requires
        sorted(keys@),
    ensures
        r.1 <= keys@.len(),
        r.0 ==> r.1 < keys@.len() && keys@[r.1 as int] == key,
        !r.0 ==> !keys@.contains(key),
        forall|j: int| 0 <= j < r.1 as int ==> keys@[j] < key,
        !r.0 && (r.1 as int) < keys@.len() ==> key < keys@[r.1 as int],
{
    let mut i: usize = 0;
    while i < keys.len()
        invariant
            i <= keys@.len(),
            sorted(keys@),
            forall|j: int| 0 <= j < i as int ==> keys@[j] < key,
        decreases keys@.len() - i as int,
    {
        let k = keys[i];
        if k == key {
            return (true, i);
        }
        if k > key {
            assert forall|j: int| 0 <= j < keys@.len() implies keys@[j] != key by {
                if j >= i as int {
                    assert(keys@[i as int] <= keys@[j]);
                }
            }
            return (false, i);
        }
        i = i + 1;
    }
    (false, i)
}

impl Node {
    /// A fresh empty leaf.
    pub fn new() -> (n: Node)
        ensures
            n.keys@.len() == 0,
            n.children@.len() == 0,
            n.height() == 0,
            n.key_set() == Set::<i64>::empty(),
            forall|m: int| m >= 1 ==> n.wf(m),
    {
        let n = make_leaf(Vec::new());
        proof {
            assert(n.in_order() == n.keys@);
            assert(n.key_set() =~= Set::<i64>::empty());
        }
        n
    }

    /// Whether this node is internal: a node is a leaf iff it has no
    /// children.
    pub fn has_children(&self) -> (r: bool)
        ensures
            r == (self.children@.len() > 0),
    {
        self.children.len() > 0
    }

    /// Whether the leftmost path below this node has exactly `dec`
    /// edges: whether the descendancy index, the count of generations
    /// beneath the node, is `dec`. A leaf has descendancy 0; on a
    /// well-formed node this is the subtree height.
    pub fn has_decendency(&self, dec: usize) -> (r: bool)
        ensures
            r == (self.height() == dec as nat),
        decreases *self,
    {
        if self.children.len() == 0 {
            dec == 0
        } else if dec == 0 {
            false
        } else {
            self.children[0].has_decendency(dec - 1)
        }
    }

    /// Append the keys of the subtree to `out`, in in-order sequence.
    pub fn push_in_order(&self, out: &mut Vec<i64>)
        ensures
            final(out)@ == old(out)@ + self.in_order(),
        decreases *self, self.children@.len() + 1,
    {
        if self.children.len() == 0 {
            let mut i: usize = 0;
            while i < self.keys.len()
                invariant
                    i <= self.keys@.len(),
                    out@ == old(out)@ + self.keys@.subrange(0, i as int),
                decreases self.keys@.len() - i as int,
            {
                let k = self.keys[i];
                out.push(k);
                proof {
                    assert(out@ =~= old(out)@ + self.keys@.subrange(0, i as int + 1));
                }
                i = i + 1;
            }
            proof {
                assert(self.keys@.subrange(0, self.keys@.len() as int) =~= self.keys@);
            }
        } else {
            self.push_in_order_from(0, out);
        }
    }

    /// Append the tail of the in-order read-out from child `i` on.
    fn push_in_order_from(&self, i: usize, out: &mut Vec<i64>)
        ensures
            final(out)@ == old(out)@ + self.in_order_from(i as int),
        decreases *self, self.children@.len() - i as int,
    {
        if i < self.children.len() {
            let c = &self.children[i];
            c.push_in_order(out);
            if i < self.keys.len() {
                let k = self.keys[i];
                out.push(k);
                let ghost mid = out@;
                self.push_in_order_from(i + 1, out);
                proof {
                    assert(mid =~= old(out)@ + (c.in_order() + seq![self.keys@[i as int]]));
                    assert(out@ =~= old(out)@ + (c.in_order() + seq![self.keys@[i as int]]
                        + self.in_order_from(i as int + 1)));
                }
            } else {
                proof {
                    assert(self.in_order_from(i as int) == c.in_order());
                }
            }
        } else {
            proof {
                assert(self.in_order_from(i as int) == Seq::<i64>::empty());
                assert(out@ =~= old(out)@ + Seq::<i64>::empty());
            }
        }
    }

    /// Whether node `n` sits `d` levels below this node.
    pub open spec fn node_at_depth(self, n: Node, d: int) -> bool
        decreases self,
    {
        if d == 0 {
            n == self
        } else {
            exists|i: int|
                0 <= i < self.children@.len() && (#[trigger] self.children@[i]).node_at_depth(
                    n,
                    d - 1,
                )
        }
    }
}

/// Every node of a well-formed subtree is itself well formed: its keys
/// are strictly sorted, it holds at most `m - 1` of them, and an
/// internal node has one more child than keys.
pub proof fn lemma_descendant_wf(root: Node, m: int, n: Node, d: int)
    requires
        root.wf(m),
        root.node_at_depth(n, d),
    ensures
        n.wf(m),
        sorted(n.keys@),
        n.keys@.len() <= m - 1,
        n.children@.len() == 0 || n.children@.len() == n.keys@.len() + 1,
    decreases root,
{
    if d != 0 {
        let i = choose|i: int|
            0 <= i < root.children@.len() && (#[trigger] root.children@[i]).node_at_depth(
                n,
                d - 1,
            );
        lemma_descendant_wf(root.children@[i], m, n, d - 1);
    }
}

/// Every leaf of a well-formed subtree sits at the same depth below the
/// root: the subtree height.
pub proof fn lemma_leaf_depth(root: Node, m: int, n: Node, d: int)
    requires
        root.wf(m),
        root.node_at_depth(n, d),
        n.children@.len() == 0,
    ensures
        d == root.height(),
    decreases root,
{
    if d != 0 {
        let i = choose|i: int|
            0 <= i < root.children@.len() && (#[trigger] root.children@[i]).node_at_depth(
                n,
                d - 1,
            );
        lemma_leaf_depth(root.children@[i], m, n, d - 1);
        assert(root.children@[i].height() == root.children@[0].height());
    }
}

/// A leaf node over the given keys.
fn make_leaf(keys: Vec<i64>) -> (n: Node)
    ensures
        n.keys@ == keys@,
        n.children@.len() == 0,
{
    Node { keys, children: Vec::new() }
}

/// An internal node over the given keys and children; a leaf when the
/// child list is empty.
pub(crate) fn make_inner_node(keys: Vec<i64>, children: Vec<Node>) -> (n: Node)
    ensures
        n.keys@ == keys@,
        n.children@ == children@,
{
    Node { keys, children }
}

impl Node {
    /// Split this overfull node (holding `m` keys) at its median: keep
    /// the left half here, hand back the promoted median key and the
    /// freshly allocated right sibling.
    fn split_overfull(&mut self, m: usize) -> (r: (i64, Node))
        requires
            3 <= m,
            old(self).wf_loose(m as int, m as int),
            old(self).keys@.len() == m,
        ensures
            final(self).wf(m as int),
            r.1.wf(m as int),
            final(self).height() == old(self).height(),
            r.1.height() == old(self).height(),
            below(final(self).key_set(), r.0),
            above(r.1.key_set(), r.0),
            forall|x: i64|
                #![trigger final(self).key_set().contains(x)]
                #![trigger r.1.key_set().contains(x)]
                #![trigger old(self).key_set().contains(x)]
                (final(self).key_set().contains(x) || x == r.0 || r.1.key_set().contains(x))
                    <==> old(self).key_set().contains(x),
            final(self).keys@.len() >= 1,
            r.1.keys@.len() >= 1,
    {
        let mid = m / 2;
        let right_keys = self.keys.split_off(mid + 1);
        let promoted_opt = self.keys.pop();
        let promoted = promoted_opt.unwrap();
        let right_children = if self.children.len() > 0 {
            self.children.split_off(mid + 1)
        } else {
            Vec::new()
        };
        let sib = make_inner_node(right_keys, right_children);
        proof {
            assert(self.keys@ =~= old(self).keys@.subrange(0, mid as int));
            assert(sib.keys@ =~= old(self).keys@.subrange(mid as int + 1, m as int));
            assert(promoted == old(self).keys@[mid as int]);
            lemma_split(*old(self), *self, promoted, sib, m as int);
        }
        (promoted, sib)
    }

    /// Insert `key` into the subtree rooted at this node. On a
    /// duplicate, nothing changes anywhere and `Duplicate` comes back.
    /// Otherwise the subtree afterwards holds exactly its old keys plus
    /// `key`; either it absorbed the key at its old height
    /// (`Inserted`), or it was full, kept the left half of its keys,
    /// and hands the promoted median and the right sibling to the
    /// caller (`SplitUp`).
    #[verifier::rlimit(60)]
    pub fn insert(&mut self, m: usize, key: i64) -> (r: Flow)
        requires
            3 <= m,
            old(self).wf(m as int),
        ensures
            insert_result(*old(self), m as int, key, *final(self), r),
            old(self).children@.len() == 0 && old(self).keys@.len() == m - 1 && !old(
                self,
            ).key_set().contains(key) ==> r is SplitUp,
        decreases old(self).height(),
    {
        let (found, index) = search(&self.keys, key);
        if found {
            proof {
                lemma_node_props(*self, m as int, m as int - 1);
                assert(self.keys@.contains(key));
            }
            return Flow::Duplicate;
        }
        if self.children.len() == 0 {
            // a leaf holds exactly its own keys
            self.keys.insert(index, key);
            proof {
                old(self).keys@.insert_ensures(index as int, key);
                assert(old(self).in_order() == old(self).keys@);
                assert(self.in_order() == self.keys@);
                assert(!old(self).key_set().contains(key));
                assert(sorted(self.keys@)) by {
                    assert forall|p: int, q: int|
                        0 <= p < q < self.keys@.len() implies self.keys@[p] < self.keys@[q] by {
                        let i = index as int;
                        if q < i {
                        } else if q == i {
                            assert(self.keys@[p] == old(self).keys@[p]);
                            assert(old(self).keys@[p] < key);
                        } else {
                            assert(self.keys@[q] == old(self).keys@[q - 1]);
                            if p < i {
                                assert(self.keys@[p] == old(self).keys@[p]);
                            } else if p == i {
                                assert(key < old(self).keys@[i]);
                                assert(old(self).keys@[i] <= old(self).keys@[q - 1]);
                            } else {
                                assert(self.keys@[p] == old(self).keys@[p - 1]);
                            }
                        }
                    }
                }
                assert forall|x: i64|
                    #![trigger self.key_set().contains(x)]
                    #![trigger old(self).key_set().contains(x)]
                    self.key_set().contains(x) <==> (old(self).key_set().contains(x) || x
                        == key) by {
                    let i = index as int;
                    if self.key_set().contains(x) {
                        let p = choose|p: int| 0 <= p < self.keys@.len() && self.keys@[p] == x;
                        if p < i {
                            assert(old(self).keys@[p] == x);
                        } else if p > i {
                            assert(old(self).keys@[p - 1] == x);
                        }
                    }
                    if old(self).key_set().contains(x) {
                        let p = choose|p: int|
                            0 <= p < old(self).keys@.len() && old(self).keys@[p] == x;
                        if p < i {
                            assert(self.keys@[p] == x);
                        } else {
                            assert(self.keys@[p + 1] == x);
                        }
                    }
                    if x == key {
                        assert(self.keys@[i] == x);
                    }
                }
            }
            if self.keys.len() == m {
                let ghost mid_node = *self;
                let (k, sib) = self.split_overfull(m);
                proof {
                    assert forall|x: i64|
                        #![trigger self.key_set().contains(x)]
                        #![trigger sib.key_set().contains(x)]
                        #![trigger old(self).key_set().contains(x)]
                        (self.key_set().contains(x) || x == k || sib.key_set().contains(x)) <==> (
                    old(self).key_set().contains(x) || x == key) by {
                        assert((self.key_set().contains(x) || x == k || sib.key_set().contains(x))
                            <==> mid_node.key_set().contains(x));
                        assert(mid_node.key_set().contains(x) <==> (old(self).key_set().contains(x)
                            || x == key));
                    }
                }
                return Flow::SplitUp(k, sib);
            } else {
                proof {
                    assert(self.wf(m as int));
                    assert(self.key_set() =~= old(self).key_set().insert(key));
                    assert(self.height() == old(self).height());
                }
                return Flow::Inserted;
            }
        }
        // internal node: recurse into the child where the key belongs
        proof {
            lemma_node_props(*self, m as int, m as int - 1);
            assert(old(self).children@[index as int].height() < old(self).height());
        }
        let mut child = self.children.remove(index);
        let fl = child.insert(m, key);
        let ghost pre = *old(self);
        let ghost c0 = pre.children@[index as int];
        let ghost removed = pre.children@.remove(index as int);
        proof {
            pre.children@.remove_ensures(index as int);
            // the key is nowhere else in this node: the keys around the
            // chosen child bound every other subtree away from it
            assert(!pre.key_set().contains(key) || c0.key_set().contains(key)) by {
                if pre.key_set().contains(key) {
                    let j = from_holds_elim(pre, 0, key);
                    if pre.children@[j].key_set().contains(key) {
                        if j < index as int {
                            assert(below(pre.children@[j].key_set(), pre.keys@[j]));
                            assert(pre.keys@[j] < key);
                        } else if j > index as int {
                            assert(above(pre.children@[j].key_set(), pre.keys@[j - 1]));
                            assert(key < pre.keys@[index as int]);
                            assert(pre.keys@[index as int] <= pre.keys@[j - 1]);
                        }
                    } else {
                        assert(pre.keys@.contains(key));
                    }
                }
            }
        }
        match fl {
            Flow::Duplicate => {
                self.children.insert(index, child);
                proof {
                    removed.insert_ensures(index as int, child);
                    assert(c0.key_set().contains(key));
                    assert forall|x: i64|
                        #![trigger child.key_set().contains(x)]
                        #![trigger c0.key_set().contains(x)]
                        child.key_set().contains(x) <==> (c0.key_set().contains(x) || x
                            == key) by {}
                    lemma_replace_child(pre, *self, index as int, m as int, key);
                    assert(self.key_set() =~= pre.key_set());
                }
                Flow::Duplicate
            },
            Flow::Inserted => {
                self.children.insert(index, child);
                proof {
                    removed.insert_ensures(index as int, child);
                    assert(!c0.key_set().contains(key));
                    assert(!pre.key_set().contains(key));
                    assert forall|x: i64|
                        #![trigger child.key_set().contains(x)]
                        #![trigger c0.key_set().contains(x)]
                        child.key_set().contains(x) <==> (c0.key_set().contains(x) || x
                            == key) by {}
                    lemma_replace_child(pre, *self, index as int, m as int, key);
                    assert(self.key_set() =~= pre.key_set().insert(key));
                }
                Flow::Inserted
            },
            Flow::SplitUp(k2, sib2) => {
                let ghost sibg = sib2;
                self.children.insert(index, child);
                let ghost mid1 = self.children@;
                self.children.insert(index + 1, sib2);
                self.keys.insert(index, k2);
                proof {
                    removed.insert_ensures(index as int, child);
                    mid1.insert_ensures(index as int + 1, sibg);
                    assert(!c0.key_set().contains(key));
                    assert(!pre.key_set().contains(key));
                    assert(self.keys@ == pre.keys@.insert(index as int, k2));
                    assert(self.children@.len() == pre.children@.len() + 1);
                    assert forall|j: int| 0 <= j < index as int implies self.children@[j]
                        == pre.children@[j] by {
                        assert(mid1[j] == removed[j]);
                    }
                    assert forall|j: int|
                        index as int + 1 < j < self.children@.len() implies self.children@[j]
                        == pre.children@[j - 1] by {
                        assert(self.children@[j] == mid1[j - 1]);
                        assert(mid1[j - 1] == removed[j - 2]);
                        assert(removed[j - 2] == pre.children@[j - 1]);
                    }
                    assert(self.children@[index as int] == child);
                    assert(self.children@[index as int + 1] == sibg);
                    assert forall|x: i64|
                        #![trigger self.children@[index as int].key_set().contains(x)]
                        #![trigger self.children@[index as int + 1].key_set().contains(x)]
                        #![trigger pre.children@[index as int].key_set().contains(x)]
                        (self.children@[index as int].key_set().contains(x) || x == k2
                            || self.children@[index as int + 1].key_set().contains(x)) <==> (
                        pre.children@[index as int].key_set().contains(x) || x == key) by {
                        assert((child.key_set().contains(x) || x == k2 || sibg.key_set().contains(
                            x,
                        )) <==> (c0.key_set().contains(x) || x == key));
                    }
                    lemma_absorb_split(pre, *self, index as int, m as int, key, k2);
                }
                if self.keys.len() == m {
                    let ghost mid_node = *self;
                    let (k, sib) = self.split_overfull(m);
                    proof {
                        assert forall|x: i64|
                            #![trigger self.key_set().contains(x)]
                            #![trigger sib.key_set().contains(x)]
                            #![trigger pre.key_set().contains(x)]
                            (self.key_set().contains(x) || x == k || sib.key_set().contains(x))
                                <==> (pre.key_set().contains(x) || x == key) by {
                            assert((self.key_set().contains(x) || x == k || sib.key_set().contains(
                                x,
                            )) <==> mid_node.key_set().contains(x));
                            assert(mid_node.key_set().contains(x) <==> (pre.key_set().contains(x)
                                || x == key));
                        }
                    }
                    Flow::SplitUp(k, sib)
                } else {
                    proof {
                        assert(self.wf(m as int));
                        assert(self.key_set() =~= pre.key_set().insert(key));
                    }
                    Flow::Inserted
                }
            },
        }
    }
}

} // verus!
