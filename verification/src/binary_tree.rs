//! An ordered map keyed by process identifier, implemented as a red-black
//! binary search tree.
//!
//! Child links are the sole ownership edges, so the structure is free of
//! aliasing by construction. Insertion and removal rebalance the tree with
//! the standard recoloring and rotation procedures; `well_formed` states the
//! search-tree ordering together with the red-black invariants (no red node
//! has a red child, every path from the root carries the same number of
//! black nodes, the root is black), and every operation is proved to
//! preserve it.

use vstd::prelude::*;

verus! {

/// A process identifier, the ordering key of the index.
pub type Pid = u32;

/// The color of a tree node.
#[derive(Clone, Copy, Debug, PartialEq, Eq, Structural)]
enum NodeColor {
    Red,
    Black,
}

/// One node of the tree: a key/value pair, a color, and the owned children.
pub struct BinaryTreeNode<V> {
    key: Pid,
    value: V,
    color: NodeColor,
    left: Option<Box<BinaryTreeNode<V>>>,
    right: Option<Box<BinaryTreeNode<V>>>,
}

/// The tree itself: an ordered map from `Pid` to `V` with an O(1) entry
/// count.
pub struct BinaryTree<V> {
    root: Option<Box<BinaryTreeNode<V>>>,
    len: usize,
}

/// True when every key of `m` is strictly below `k`.
pub open spec fn keys_below<V>(m: Map<Pid, V>, k: Pid) -> bool {
    forall|e: Pid| m.dom().contains(e) ==> e < k
}

/// True when every key of `m` is strictly above `k`.
pub open spec fn keys_above<V>(m: Map<Pid, V>, k: Pid) -> bool {
    forall|e: Pid| m.dom().contains(e) ==> e > k
}

/// The map represented by an optional subtree.
pub closed spec fn sub_map<V>(t: Option<Box<BinaryTreeNode<V>>>) -> Map<Pid, V>
    decreases t,
{
    match t {
        None => Map::empty(),
        Some(n) => sub_map(n.left).union_prefer_right(sub_map(n.right)).insert(n.key, n.value),
    }
}

/// The map of a subtree assembled from two subtrees and a root entry.
pub closed spec fn joined_map<V>(
    l: Option<Box<BinaryTreeNode<V>>>,
    key: Pid,
    value: V,
    r: Option<Box<BinaryTreeNode<V>>>,
) -> Map<Pid, V> {
    sub_map(l).union_prefer_right(sub_map(r)).insert(key, value)
}

/// The in-order key sequence of an optional subtree.
pub closed spec fn key_seq<V>(t: Option<Box<BinaryTreeNode<V>>>) -> Seq<Pid>
    decreases t,
{
    match t {
        None => Seq::empty(),
        Some(n) => key_seq(n.left) + seq![n.key] + key_seq(n.right),
    }
}

/// The number of nodes of an optional subtree.
pub closed spec fn node_count<V>(t: Option<Box<BinaryTreeNode<V>>>) -> nat
    decreases t,
{
    match t {
        None => 0,
        Some(n) => 1 + node_count(n.left) + node_count(n.right),
    }
}

/// The height of an optional subtree.
pub closed spec fn tree_height<V>(t: Option<Box<BinaryTreeNode<V>>>) -> nat
    decreases t,
{
    match t {
        None => 0,
        Some(n) => 1 + vstd::math::max(
            tree_height(n.left) as int,
            tree_height(n.right) as int,
        ) as nat,
    }
}

/// Search-tree ordering: within every subtree, keys on the left are below
/// the node's key and keys on the right above it.
pub closed spec fn ordered<V>(t: Option<Box<BinaryTreeNode<V>>>) -> bool
    decreases t,
{
    match t {
        None => true,
        Some(n) => {
            &&& keys_below(sub_map(n.left), n.key)
            &&& keys_above(sub_map(n.right), n.key)
            &&& ordered(n.left)
            &&& ordered(n.right)
        },
    }
}

/// True when the root of the optional subtree is black (an empty subtree
/// counts as black).
pub closed spec fn black_rooted<V>(t: Option<Box<BinaryTreeNode<V>>>) -> bool {
    match t {
        None => true,
        Some(n) => n.color == NodeColor::Black,
    }
}

/// First red-black invariant: no red node has a red child.
pub closed spec fn no_red_red<V>(t: Option<Box<BinaryTreeNode<V>>>) -> bool
    decreases t,
{
    match t {
        None => true,
        Some(n) => {
            &&& (n.color == NodeColor::Red ==> black_rooted(n.left) && black_rooted(n.right))
            &&& no_red_red(n.left)
            &&& no_red_red(n.right)
        },
    }
}

/// Weakening of `no_red_red` that permits a violation at the root only:
/// both children are internally valid, but the root may be red with a red
/// child. Balancing helpers accept and repair such subtrees.
pub closed spec fn no_red_red_below<V>(t: Option<Box<BinaryTreeNode<V>>>) -> bool {
    match t {
        None => true,
        Some(n) => no_red_red(n.left) && no_red_red(n.right),
    }
}

/// The black height of an optional subtree, measured along the left spine.
pub closed spec fn black_height<V>(t: Option<Box<BinaryTreeNode<V>>>) -> nat
    decreases t,
{
    match t {
        None => 0,
        Some(n) => black_height(n.left) + if n.color == NodeColor::Black {
            1nat
        } else {
            0nat
        },
    }
}

/// Second red-black invariant: every path from a node to a leaf passes the
/// same number of black nodes.
pub closed spec fn balanced<V>(t: Option<Box<BinaryTreeNode<V>>>) -> bool
    decreases t,
{
    match t {
        None => true,
        Some(n) => {
            &&& black_height(n.left) == black_height(n.right)
            &&& balanced(n.left)
            &&& balanced(n.right)
        },
    }
}


/// The height of a red-black subtree is at most twice its black height,
/// plus one when the root is red.
proof fn lemma_height_le_black_height<V>(t: Option<Box<BinaryTreeNode<V>>>)
    requires
        no_red_red(t),
        balanced(t),
    ensures
        black_rooted(t) ==> tree_height(t) <= 2 * black_height(t),
        tree_height(t) <= 2 * black_height(t) + 1,
    decreases t,
{
    match t {
        None => {},
        Some(n) => {
            lemma_height_le_black_height(n.left);
            lemma_height_le_black_height(n.right);
        },
    }
}

/// A balanced subtree holds at least `2^bh - 1` entries, where `bh` is
/// its black height.
proof fn lemma_count_ge_pow2<V>(t: Option<Box<BinaryTreeNode<V>>>)
    requires
        balanced(t),
    ensures
        node_count(t) + 1 >= vstd::arithmetic::power2::pow2(black_height(t)),
    decreases t,
{
    match t {
        None => {
            vstd::arithmetic::power2::lemma2_to64();
        },
        Some(n) => {
            lemma_count_ge_pow2(n.left);
            lemma_count_ge_pow2(n.right);
            vstd::arithmetic::power2::lemma_pow2_adds(black_height(n.left), 1);
            vstd::arithmetic::power2::lemma2_to64();
        },
    }
}

/// In an ordered subtree the represented map is finite, its key set is
/// exactly the in-order key sequence, that sequence is strictly ascending,
/// and its length is both the node count and the cardinality of the key
/// set.
proof fn lemma_shape<V>(t: Option<Box<BinaryTreeNode<V>>>)
    requires
        ordered(t),
    ensures
        sub_map(t).dom().finite(),
        key_seq(t).len() == node_count(t),
        sub_map(t).dom().len() == node_count(t),
        forall|k: Pid| sub_map(t).dom().contains(k) <==> key_seq(t).contains(k),
        forall|i: int, j: int| 0 <= i < j < key_seq(t).len() ==> key_seq(t)[i] < key_seq(t)[j],
        forall|i: int|
            0 <= i < key_seq(t).len() ==> sub_map(t).dom().contains(#[trigger] key_seq(t)[i]),
    decreases t,
{
    match t {
        None => {
            assert(sub_map(t).dom() =~= Set::empty());
        },
        Some(n) => {
            lemma_shape(n.left);
            lemma_shape(n.right);
            let lm = sub_map(n.left);
            let rm = sub_map(n.right);
            let ls = key_seq(n.left);
            let rs = key_seq(n.right);
            let s = key_seq(t);
            assert(s =~= ls + seq![n.key] + rs);
            assert(forall|k: Pid|
                sub_map(t).dom().contains(k) <==> (lm.dom().contains(k) || rm.dom().contains(k)
                    || k == n.key));
            // Membership of the concatenated sequence.
            assert forall|k: Pid| s.contains(k) implies (ls.contains(k) || k == n.key
                || rs.contains(k)) by {
                let i = choose|i: int| 0 <= i < s.len() && s[i] == k;
                if i < ls.len() {
                    assert(ls[i] == k);
                } else if i == ls.len() {
                } else {
                    assert(rs[i - ls.len() - 1] == k);
                }
            }
            assert forall|k: Pid| ls.contains(k) implies s.contains(k) by {
                let i = choose|i: int| 0 <= i < ls.len() && ls[i] == k;
                assert(s[i] == k);
            }
            assert forall|k: Pid| rs.contains(k) implies s.contains(k) by {
                let i = choose|i: int| 0 <= i < rs.len() && rs[i] == k;
                assert(s[i + ls.len() + 1] == k);
            }
            assert(s[ls.len() as int] == n.key);
            // Cardinality: the three key groups are pairwise disjoint.
            lemma_disjoint_union_len(lm.dom(), rm.dom());
            assert(sub_map(t).dom() =~= lm.dom().union(rm.dom()).insert(n.key));
            assert(!lm.dom().union(rm.dom()).contains(n.key));
            // Strict ascent across the concatenation.
            assert forall|i: int, j: int| 0 <= i < j < s.len() implies s[i] < s[j] by {
                let b = ls.len() as int;
                if i < b {
                    assert(lm.dom().contains(s[i]));
                }
                if j > b {
                    assert(rm.dom().contains(s[j]));
                }
            }
        },
    }
}

/// The cardinality of a union of disjoint finite sets is the sum of the
/// cardinalities.
proof fn lemma_disjoint_union_len(a: Set<Pid>, b: Set<Pid>)
    requires
        a.finite(),
        b.finite(),
        a.intersect(b) =~= Set::empty(),
    ensures
        a.union(b).finite(),
        a.union(b).len() == a.len() + b.len(),
    decreases a.len(),
{
    if a.len() == 0 {
        assert(a =~= Set::empty());
        assert(a.union(b) =~= b);
    } else {
        let x = a.choose();
        assert(a.contains(x));
        lemma_disjoint_union_len(a.remove(x), b);
        assert(a.union(b) =~= a.remove(x).union(b).insert(x));
        assert(!b.contains(x)) by {
            assert(!a.intersect(b).contains(x));
        }
        assert(!a.remove(x).union(b).contains(x));
    }
}


/// The four ways a rotation reassembles two levels of subtrees all
/// represent the same map, provided the keys are layered
/// `t1 < a < t2 < b < t3 < c < t4`.
proof fn lemma_rotation_maps<V>(
    t1: Map<Pid, V>, a: Pid, va: V,
    t2: Map<Pid, V>, b: Pid, vb: V,
    t3: Map<Pid, V>, c: Pid, vc: V,
    t4: Map<Pid, V>,
)
    requires
        keys_below(t1, a),
        keys_above(t2, a),
        keys_below(t2, b),
        a < b,
        keys_above(t3, b),
        keys_below(t3, c),
        b < c,
        keys_above(t4, c),
    ensures
        t1.union_prefer_right(t2).insert(a, va).union_prefer_right(
            t3.union_prefer_right(t4).insert(c, vc),
        ).insert(b, vb) == t1.union_prefer_right(t2).insert(a, va).union_prefer_right(t3).insert(
            b,
            vb,
        ).union_prefer_right(t4).insert(c, vc),
        t1.union_prefer_right(t2).insert(a, va).union_prefer_right(
            t3.union_prefer_right(t4).insert(c, vc),
        ).insert(b, vb) == t1.union_prefer_right(
            t2.union_prefer_right(t3).insert(b, vb),
        ).insert(a, va).union_prefer_right(t4).insert(c, vc),
        t1.union_prefer_right(t2).insert(a, va).union_prefer_right(
            t3.union_prefer_right(t4).insert(c, vc),
        ).insert(b, vb) == t1.union_prefer_right(
            t2.union_prefer_right(t3.union_prefer_right(t4).insert(c, vc)).insert(b, vb),
        ).insert(a, va),
        t1.union_prefer_right(t2).insert(a, va).union_prefer_right(
            t3.union_prefer_right(t4).insert(c, vc),
        ).insert(b, vb) == t1.union_prefer_right(
            t2.union_prefer_right(t3).insert(b, vb).union_prefer_right(t4).insert(c, vc),
        ).insert(a, va),
{
    let lhs = t1.union_prefer_right(t2).insert(a, va).union_prefer_right(
        t3.union_prefer_right(t4).insert(c, vc),
    ).insert(b, vb);
    assert(lhs =~= t1.union_prefer_right(t2).insert(a, va).union_prefer_right(t3).insert(
        b,
        vb,
    ).union_prefer_right(t4).insert(c, vc));
    assert(lhs =~= t1.union_prefer_right(t2.union_prefer_right(t3).insert(b, vb)).insert(
        a,
        va,
    ).union_prefer_right(t4).insert(c, vc));
    assert(lhs =~= t1.union_prefer_right(
        t2.union_prefer_right(t3.union_prefer_right(t4).insert(c, vc)).insert(b, vb),
    ).insert(a, va));
    assert(lhs =~= t1.union_prefer_right(
        t2.union_prefer_right(t3).insert(b, vb).union_prefer_right(t4).insert(c, vc),
    ).insert(a, va));
}


/// The parent of the node holding `k`: the key of the node whose direct
/// child holds `k`. The root and absent keys have no parent.
pub closed spec fn parent_in<V>(t: Option<Box<BinaryTreeNode<V>>>, k: Pid) -> Option<Pid>
    decreases t,
{
    match t {
        None => None,
        Some(n) => {
            if k == n.key {
                None
            } else if k < n.key {
                match n.left {
                    Some(l) => if l.key == k {
                        Some(n.key)
                    } else {
                        parent_in(n.left, k)
                    },
                    None => None,
                }
            } else {
                match n.right {
                    Some(r) => if r.key == k {
                        Some(n.key)
                    } else {
                        parent_in(n.right, k)
                    },
                    None => None,
                }
            }
        },
    }
}

/// The sibling of the node holding `k`: the key of the other child of its
/// parent, if both exist.
pub closed spec fn sibling_in<V>(t: Option<Box<BinaryTreeNode<V>>>, k: Pid) -> Option<Pid>
    decreases t,
{
    match t {
        None => None,
        Some(n) => {
            if k == n.key {
                None
            } else if k < n.key {
                match n.left {
                    Some(l) => if l.key == k {
                        match n.right {
                            Some(r) => Some(r.key),
                            None => None,
                        }
                    } else {
                        sibling_in(n.left, k)
                    },
                    None => None,
                }
            } else {
                match n.right {
                    Some(r) => if r.key == k {
                        match n.left {
                            Some(l) => Some(l.key),
                            None => None,
                        }
                    } else {
                        sibling_in(n.right, k)
                    },
                    None => None,
                }
            }
        },
    }
}

/// A parent or sibling relation only relates keys that are present.
proof fn lemma_relative_props<V>(t: Option<Box<BinaryTreeNode<V>>>, k: Pid)
    requires
        ordered(t),
    ensures
        match parent_in(t, k) {
            Some(p) => sub_map(t).dom().contains(p) && sub_map(t).dom().contains(k) && p != k,
            None => true,
        },
        match sibling_in(t, k) {
            Some(q) => sub_map(t).dom().contains(q) && sub_map(t).dom().contains(k) && q != k,
            None => true,
        },
    decreases t,
{
    match t {
        None => {},
        Some(n) => {
            lemma_relative_props(n.left, k);
            lemma_relative_props(n.right, k);
            if k != n.key && k < n.key {
                if n.left.is_some() {
                    assert(sub_map(t).dom().contains(n.left.unwrap().key));
                }
            }
            if k != n.key && k > n.key {
                if n.right.is_some() {
                    assert(sub_map(t).dom().contains(n.right.unwrap().key));
                }
            }
        },
    }
}

/// The height of a subtree never exceeds its node count.
proof fn lemma_height_le_count<V>(t: Option<Box<BinaryTreeNode<V>>>)
    ensures
        tree_height(t) <= node_count(t),
    decreases t,
{
    match t {
        None => {},
        Some(n) => {
            lemma_height_le_count(n.left);
            lemma_height_le_count(n.right);
        },
    }
}

impl<V> BinaryTreeNode<V> {
    /// The map represented by the subtree rooted at this node.
    pub closed spec fn as_map(self) -> Map<Pid, V> {
        joined_map(self.left, self.key, self.value, self.right)
    }


    /// The number of nodes of the subtree rooted at this node.
    pub closed spec fn spec_size(self) -> nat {
        1 + node_count(self.left) + node_count(self.right)
    }

    /// The height of the subtree rooted at this node.
    pub closed spec fn spec_height(self) -> nat {
        1 + vstd::math::max(tree_height(self.left) as int, tree_height(self.right) as int) as nat
    }

    /// The map of the left child's subtree.
    pub closed spec fn left_map(self) -> Map<Pid, V> {
        sub_map(self.left)
    }

    /// The map of the right child's subtree.
    pub closed spec fn right_map(self) -> Map<Pid, V> {
        sub_map(self.right)
    }

    /// Creates a detached node with the given entry and no children. A
    /// fresh node is red, as an insertion requires.
    pub fn new(key: Pid, value: V) -> (r: Self)
        ensures
            r.as_map() == Map::<Pid, V>::empty().insert(key, value),
            r.left_map() == Map::<Pid, V>::empty(),
            r.right_map() == Map::<Pid, V>::empty(),
            r.spec_size() == 1,
            r.spec_height() == 1,
    {
        BinaryTreeNode { key, value, color: NodeColor::Red, left: None, right: None }
    }

    /// Returns a reference to the left child node, if any.
    pub fn get_left(&self) -> (r: Option<&BinaryTreeNode<V>>)
        ensures
            match r {
                Some(l) => l.as_map() == self.left_map(),
                None => self.left_map() == Map::<Pid, V>::empty(),
            },
    {
        match &self.left {
            Some(l) => Some(&**l),
            None => None,
        }
    }

    /// Returns a reference to the right child node, if any.
    pub fn get_right(&self) -> (r: Option<&BinaryTreeNode<V>>)
        ensures
            match r {
                Some(l) => l.as_map() == self.right_map(),
                None => self.right_map() == Map::<Pid, V>::empty(),
            },
    {
        match &self.right {
            Some(r) => Some(&**r),
            None => None,
        }
    }

    /// Returns the number of nodes in the subtree rooted at this node.
    pub fn nodes_count(&self) -> (r: usize)
        requires
            self.spec_size() <= usize::MAX,
        ensures
            r == self.spec_size(),
        decreases *self,
    {
        let left_count = match &self.left {
            Some(l) => l.nodes_count(),
            None => 0,
        };
        let right_count = match &self.right {
            Some(r) => r.nodes_count(),
            None => 0,
        };
        1 + left_count + right_count
    }

    /// Returns the height of the subtree rooted at this node.
    pub fn get_depth(&self) -> (r: usize)
        requires
            self.spec_size() <= usize::MAX,
        ensures
            r == self.spec_height(),
        decreases *self,
    {
        proof {
            lemma_height_le_count(self.left);
            lemma_height_le_count(self.right);
        }
        let left_depth = match &self.left {
            Some(l) => l.get_depth(),
            None => 0,
        };
        let right_depth = match &self.right {
            Some(r) => r.get_depth(),
            None => 0,
        };
        1 + if left_depth >= right_depth {
            left_depth
        } else {
            right_depth
        }
    }

    /// Finds the parent of the node holding `key`.
    fn sub_parent(t: &Option<Box<BinaryTreeNode<V>>>, key: Pid) -> (r: Option<Pid>)
        ensures
            r == parent_in(*t, key),
        decreases *t,
    {
        match t {
            None => None,
            Some(n) => {
                if key == n.key {
                    None
                } else if key < n.key {
                    match &n.left {
                        Some(l) => {
                            if l.key == key {
                                Some(n.key)
                            } else {
                                Self::sub_parent(&n.left, key)
                            }
                        },
                        None => None,
                    }
                } else {
                    match &n.right {
                        Some(r) => {
                            if r.key == key {
                                Some(n.key)
                            } else {
                                Self::sub_parent(&n.right, key)
                            }
                        },
                        None => None,
                    }
                }
            },
        }
    }

    /// Finds the sibling of the node holding `key`.
    fn sub_sibling(t: &Option<Box<BinaryTreeNode<V>>>, key: Pid) -> (r: Option<Pid>)
        ensures
            r == sibling_in(*t, key),
        decreases *t,
    {
        match t {
            None => None,
            Some(n) => {
                if key == n.key {
                    None
                } else if key < n.key {
                    match &n.left {
                        Some(l) => {
                            if l.key == key {
                                match &n.right {
                                    Some(r) => Some(r.key),
                                    None => None,
                                }
                            } else {
                                Self::sub_sibling(&n.left, key)
                            }
                        },
                        None => None,
                    }
                } else {
                    match &n.right {
                        Some(r) => {
                            if r.key == key {
                                match &n.left {
                                    Some(l) => Some(l.key),
                                    None => None,
                                }
                            } else {
                                Self::sub_sibling(&n.right, key)
                            }
                        },
                        None => None,
                    }
                }
            },
        }
    }

    /// Tells whether the root of the optional subtree is red.
    fn is_red(t: &Option<Box<BinaryTreeNode<V>>>) -> (r: bool)
        ensures
            r == !black_rooted(*t),
    {
        match t {
            Some(n) => matches!(n.color, NodeColor::Red),
            None => false,
        }
    }

    /// Rebuilds a node whose left subtree may carry a red-red violation at
    /// its root, restoring the red-black invariants by rotation and
    /// recoloring.
    #[verifier::rlimit(100)]
    fn balance_left(
        l: Option<Box<BinaryTreeNode<V>>>,
        key: Pid,
        value: V,
        r: Option<Box<BinaryTreeNode<V>>>,
    ) -> (res: Box<BinaryTreeNode<V>>)
        requires
            ordered(l),
            ordered(r),
            keys_below(sub_map(l), key),
            keys_above(sub_map(r), key),
            balanced(l),
            balanced(r),
            black_height(l) == black_height(r),
            no_red_red_below(l),
            no_red_red(r),
        ensures
            res.as_map() == joined_map(l, key, value, r),
            ordered(Some(res)),
            balanced(Some(res)),
            black_height(Some(res)) == black_height(l) + 1,
            no_red_red(Some(res)),
    {
        let ghost jm = joined_map(l, key, value, r);
        match l {
            Some(lb) => {
                let ln = *lb;
                if matches!(ln.color, NodeColor::Red) && (Self::is_red(&ln.left) || Self::is_red(
                    &ln.right,
                )) {
                    if Self::is_red(&ln.left) {
                        // Rotate the left-left red pair up.
                        let llb = ln.left.unwrap();
                        let mut lln = *llb;
                        lln.color = NodeColor::Black;
                        let res = Box::new(BinaryTreeNode {
                            key: ln.key,
                            value: ln.value,
                            color: NodeColor::Red,
                            left: Some(Box::new(lln)),
                            right: Some(Box::new(BinaryTreeNode {
                                key,
                                value,
                                color: NodeColor::Black,
                                left: ln.right,
                                right: r,
                            })),
                        });
                        proof {
                            reveal_with_fuel(sub_map, 4);
                            reveal_with_fuel(ordered, 3);
                            reveal_with_fuel(no_red_red, 3);
                            reveal_with_fuel(balanced, 3);
                            reveal_with_fuel(black_height, 3);
                            let t1 = sub_map(lln.left);
                            let t2 = sub_map(lln.right);
                            let t3 = sub_map(ln.right);
                            let t4 = sub_map(r);
                            let a = lln.key;
                            let b = ln.key;
                            let c = key;
                            assert(sub_map(Some(llb)) == t1.union_prefer_right(t2).insert(
                                a,
                                lln.value,
                            ));
                            assert(sub_map(l) == sub_map(Some(llb)).union_prefer_right(t3).insert(
                                b,
                                ln.value,
                            ));
                            assert(sub_map(Some(llb)).dom().contains(a));
                            assert(sub_map(l).dom().contains(b));
                            assert(keys_below(t2, b)) by {
                                assert forall|e: Pid| t2.dom().contains(e) implies e < b by {
                                    assert(sub_map(Some(llb)).dom().contains(e));
                                }
                            }
                            assert(keys_below(t3, c)) by {
                                assert forall|e: Pid| t3.dom().contains(e) implies e < c by {
                                    assert(sub_map(l).dom().contains(e));
                                }
                            }
                            lemma_rotation_maps(t1, a, lln.value, t2, b, ln.value, t3, c, value, t4);
                            assert(res.as_map() == t1.union_prefer_right(t2).insert(
                                a,
                                lln.value,
                            ).union_prefer_right(t3.union_prefer_right(t4).insert(c, value)).insert(
                                b,
                                ln.value,
                            ));
                            assert(res.as_map() == jm);
                            assert(keys_above(sub_map(res.right), b)) by {
                                assert forall|e: Pid|
                                    sub_map(res.right).dom().contains(e) implies e > b by {}
                            }
                            assert(ordered(Some(res)));
                        }
                        res
                    } else {
                        // Rotate the left-right red pair up.
                        let lrb = ln.right.unwrap();
                        let lrn = *lrb;
                        let res = Box::new(BinaryTreeNode {
                            key: lrn.key,
                            value: lrn.value,
                            color: NodeColor::Red,
                            left: Some(Box::new(BinaryTreeNode {
                                key: ln.key,
                                value: ln.value,
                                color: NodeColor::Black,
                                left: ln.left,
                                right: lrn.left,
                            })),
                            right: Some(Box::new(BinaryTreeNode {
                                key,
                                value,
                                color: NodeColor::Black,
                                left: lrn.right,
                                right: r,
                            })),
                        });
                        proof {
                            reveal_with_fuel(sub_map, 4);
                            reveal_with_fuel(ordered, 3);
                            reveal_with_fuel(no_red_red, 3);
                            reveal_with_fuel(balanced, 3);
                            reveal_with_fuel(black_height, 3);
                            let t1 = sub_map(ln.left);
                            let t2 = sub_map(lrn.left);
                            let t3 = sub_map(lrn.right);
                            let t4 = sub_map(r);
                            let a = ln.key;
                            let b = lrn.key;
                            let c = key;
                            assert(sub_map(Some(lrb)) == t2.union_prefer_right(t3).insert(
                                b,
                                lrn.value,
                            ));
                            assert(sub_map(l) == t1.union_prefer_right(
                                sub_map(Some(lrb)),
                            ).insert(a, ln.value));
                            assert(sub_map(Some(lrb)).dom().contains(b));
                            assert(sub_map(l).dom().contains(a));
                            assert(sub_map(ln.right).dom().contains(b));
                            assert(a < b);
                            assert(sub_map(l).dom().contains(b));
                            assert(b < c);
                            assert(keys_above(t2, a)) by {
                                assert forall|e: Pid| t2.dom().contains(e) implies e > a by {
                                    assert(sub_map(Some(lrb)).dom().contains(e));
                                }
                            }
                            assert(keys_below(t3, c)) by {
                                assert forall|e: Pid| t3.dom().contains(e) implies e < c by {
                                    assert(sub_map(Some(lrb)).dom().contains(e));
                                    assert(sub_map(l).dom().contains(e));
                                }
                            }
                            lemma_rotation_maps(t1, a, ln.value, t2, b, lrn.value, t3, c, value, t4);
                            assert(res.as_map() == t1.union_prefer_right(t2).insert(
                                a,
                                ln.value,
                            ).union_prefer_right(t3.union_prefer_right(t4).insert(c, value)).insert(
                                b,
                                lrn.value,
                            ));
                            assert(res.as_map() == jm);
                            assert(keys_below(sub_map(res.left), b)) by {
                                assert forall|e: Pid|
                                    sub_map(res.left).dom().contains(e) implies e < b by {}
                            }
                            assert(keys_above(sub_map(res.right), b)) by {
                                assert forall|e: Pid|
                                    sub_map(res.right).dom().contains(e) implies e > b by {}
                            }
                            assert(ordered(Some(res)));
                        }
                        res
                    }
                } else {
                    let res = Box::new(BinaryTreeNode {
                        key,
                        value,
                        color: NodeColor::Black,
                        left: Some(Box::new(ln)),
                        right: r,
                    });
                    proof {
                        reveal_with_fuel(sub_map, 4);
                        reveal_with_fuel(ordered, 3);
                        reveal_with_fuel(no_red_red, 3);
                        reveal_with_fuel(balanced, 3);
                        reveal_with_fuel(black_height, 3);
                        assert(res.as_map() =~= jm);
                    }
                    res
                }
            },
            None => {
                let res = Box::new(BinaryTreeNode {
                    key,
                    value,
                    color: NodeColor::Black,
                    left: None,
                    right: r,
                });
                proof {
                    reveal_with_fuel(sub_map, 4);
                    assert(res.as_map() =~= jm);
                }
                res
            },
        }
    }

    /// Mirror image of `balance_left`: the right subtree may carry the
    /// violation.
    #[verifier::rlimit(100)]
    fn balance_right(
        l: Option<Box<BinaryTreeNode<V>>>,
        key: Pid,
        value: V,
        r: Option<Box<BinaryTreeNode<V>>>,
    ) -> (res: Box<BinaryTreeNode<V>>)
        requires
            ordered(l),
            ordered(r),
            keys_below(sub_map(l), key),
            keys_above(sub_map(r), key),
            balanced(l),
            balanced(r),
            black_height(l) == black_height(r),
            no_red_red(l),
            no_red_red_below(r),
        ensures
            res.as_map() == joined_map(l, key, value, r),
            ordered(Some(res)),
            balanced(Some(res)),
            black_height(Some(res)) == black_height(l) + 1,
            no_red_red(Some(res)),
    {
        let ghost jm = joined_map(l, key, value, r);
        match r {
            Some(rb) => {
                let rn = *rb;
                if matches!(rn.color, NodeColor::Red) && (Self::is_red(&rn.left) || Self::is_red(
                    &rn.right,
                )) {
                    if Self::is_red(&rn.right) {
                        // Rotate the right-right red pair up.
                        let rrb = rn.right.unwrap();
                        let mut rrn = *rrb;
                        rrn.color = NodeColor::Black;
                        let res = Box::new(BinaryTreeNode {
                            key: rn.key,
                            value: rn.value,
                            color: NodeColor::Red,
                            left: Some(Box::new(BinaryTreeNode {
                                key,
                                value,
                                color: NodeColor::Black,
                                left: l,
                                right: rn.left,
                            })),
                            right: Some(Box::new(rrn)),
                        });
                        proof {
                            reveal_with_fuel(sub_map, 4);
                            reveal_with_fuel(ordered, 3);
                            reveal_with_fuel(no_red_red, 3);
                            reveal_with_fuel(balanced, 3);
                            reveal_with_fuel(black_height, 3);
                            let t1 = sub_map(l);
                            let t2 = sub_map(rn.left);
                            let t3 = sub_map(rrn.left);
                            let t4 = sub_map(rrn.right);
                            let a = key;
                            let b = rn.key;
                            let c = rrn.key;
                            assert(sub_map(Some(rrb)) == t3.union_prefer_right(t4).insert(
                                c,
                                rrn.value,
                            ));
                            assert(sub_map(r) == t2.union_prefer_right(
                                sub_map(Some(rrb)),
                            ).insert(b, rn.value));
                            assert(sub_map(Some(rrb)).dom().contains(c));
                            assert(sub_map(r).dom().contains(b));
                            assert(a < b);
                            assert(sub_map(rn.right).dom().contains(c));
                            assert(b < c);
                            assert(keys_above(t2, a)) by {
                                assert forall|e: Pid| t2.dom().contains(e) implies e > a by {
                                    assert(sub_map(r).dom().contains(e));
                                }
                            }
                            assert(keys_above(t3, b)) by {
                                assert forall|e: Pid| t3.dom().contains(e) implies e > b by {
                                    assert(sub_map(Some(rrb)).dom().contains(e));
                                    assert(sub_map(rn.right).dom().contains(e));
                                }
                            }
                            lemma_rotation_maps(t1, a, value, t2, b, rn.value, t3, c, rrn.value, t4);
                            assert(res.as_map() == t1.union_prefer_right(t2).insert(
                                a,
                                value,
                            ).union_prefer_right(
                                t3.union_prefer_right(t4).insert(c, rrn.value),
                            ).insert(b, rn.value));
                            assert(res.as_map() == jm);
                            assert(keys_below(sub_map(res.left), b)) by {
                                assert forall|e: Pid|
                                    sub_map(res.left).dom().contains(e) implies e < b by {}
                            }
                            assert(keys_above(sub_map(res.right), b)) by {
                                assert forall|e: Pid|
                                    sub_map(res.right).dom().contains(e) implies e > b by {}
                            }
                            assert(ordered(Some(res)));
                        }
                        res
                    } else {
                        // Rotate the right-left red pair up.
                        let rlb = rn.left.unwrap();
                        let rln = *rlb;
                        let res = Box::new(BinaryTreeNode {
                            key: rln.key,
                            value: rln.value,
                            color: NodeColor::Red,
                            left: Some(Box::new(BinaryTreeNode {
                                key,
                                value,
                                color: NodeColor::Black,
                                left: l,
                                right: rln.left,
                            })),
                            right: Some(Box::new(BinaryTreeNode {
                                key: rn.key,
                                value: rn.value,
                                color: NodeColor::Black,
                                left: rln.right,
                                right: rn.right,
                            })),
                        });
                        proof {
                            reveal_with_fuel(sub_map, 4);
                            reveal_with_fuel(ordered, 3);
                            reveal_with_fuel(no_red_red, 3);
                            reveal_with_fuel(balanced, 3);
                            reveal_with_fuel(black_height, 3);
                            let t1 = sub_map(l);
                            let t2 = sub_map(rln.left);
                            let t3 = sub_map(rln.right);
                            let t4 = sub_map(rn.right);
                            let a = key;
                            let b = rln.key;
                            let c = rn.key;
                            assert(sub_map(Some(rlb)) == t2.union_prefer_right(t3).insert(
                                b,
                                rln.value,
                            ));
                            assert(sub_map(r) == sub_map(Some(rlb)).union_prefer_right(t4).insert(
                                c,
                                rn.value,
                            ));
                            assert(sub_map(Some(rlb)).dom().contains(b));
                            assert(sub_map(r).dom().contains(c));
                            assert(sub_map(rn.left).dom().contains(b));
                            assert(sub_map(r).dom().contains(b));
                            assert(a < b);
                            assert(b < c);
                            assert(keys_above(t2, a)) by {
                                assert forall|e: Pid| t2.dom().contains(e) implies e > a by {
                                    assert(sub_map(Some(rlb)).dom().contains(e));
                                    assert(sub_map(rn.left).dom().contains(e));
                                    assert(sub_map(r).dom().contains(e));
                                }
                            }
                            assert(keys_below(t3, c)) by {
                                assert forall|e: Pid| t3.dom().contains(e) implies e < c by {
                                    assert(sub_map(Some(rlb)).dom().contains(e));
                                    assert(sub_map(rn.left).dom().contains(e));
                                }
                            }
                            lemma_rotation_maps(t1, a, value, t2, b, rln.value, t3, c, rn.value, t4);
                            assert(res.as_map() == t1.union_prefer_right(t2).insert(
                                a,
                                value,
                            ).union_prefer_right(
                                t3.union_prefer_right(t4).insert(c, rn.value),
                            ).insert(b, rln.value));
                            assert(res.as_map() == jm);
                            assert(keys_below(sub_map(res.left), b)) by {
                                assert forall|e: Pid|
                                    sub_map(res.left).dom().contains(e) implies e < b by {}
                            }
                            assert(keys_above(sub_map(res.right), b)) by {
                                assert forall|e: Pid|
                                    sub_map(res.right).dom().contains(e) implies e > b by {}
                            }
                            assert(ordered(Some(res)));
                        }
                        res
                    }
                } else {
                    let res = Box::new(BinaryTreeNode {
                        key,
                        value,
                        color: NodeColor::Black,
                        left: l,
                        right: Some(Box::new(rn)),
                    });
                    proof {
                        reveal_with_fuel(sub_map, 4);
                        reveal_with_fuel(ordered, 3);
                        reveal_with_fuel(no_red_red, 3);
                        reveal_with_fuel(balanced, 3);
                        reveal_with_fuel(black_height, 3);
                        assert(res.as_map() =~= jm);
                    }
                    res
                }
            },
            None => {
                let res = Box::new(BinaryTreeNode {
                    key,
                    value,
                    color: NodeColor::Black,
                    left: l,
                    right: None,
                });
                proof {
                    reveal_with_fuel(sub_map, 4);
                    assert(res.as_map() =~= jm);
                }
                res
            },
        }
    }


    /// Rebuilds a node whose left subtree is one black level short
    /// (typically after a removal below it), restoring equal black heights.
    #[verifier::rlimit(100)]
    fn deficit_left(
        l: Option<Box<BinaryTreeNode<V>>>,
        key: Pid,
        value: V,
        r: Option<Box<BinaryTreeNode<V>>>,
    ) -> (res: Box<BinaryTreeNode<V>>)
        requires
            ordered(l),
            ordered(r),
            keys_below(sub_map(l), key),
            keys_above(sub_map(r), key),
            balanced(l),
            balanced(r),
            black_height(l) + 1 == black_height(r),
            no_red_red_below(l),
            no_red_red(r),
        ensures
            res.as_map() == joined_map(l, key, value, r),
            ordered(Some(res)),
            balanced(Some(res)),
            black_height(Some(res)) == black_height(r),
            no_red_red_below(Some(res)),
            black_rooted(r) ==> no_red_red(Some(res)),
    {
        let ghost jm = joined_map(l, key, value, r);
        if Self::is_red(&l) {
            // A red left root absorbs the missing black level.
            let lb = l.unwrap();
            let mut ln = *lb;
            ln.color = NodeColor::Black;
            let res = Box::new(BinaryTreeNode {
                key,
                value,
                color: NodeColor::Red,
                left: Some(Box::new(ln)),
                right: r,
            });
            proof {
                reveal_with_fuel(sub_map, 4);
                reveal_with_fuel(ordered, 3);
                reveal_with_fuel(no_red_red, 3);
                reveal_with_fuel(balanced, 3);
                reveal_with_fuel(black_height, 3);
                assert(res.as_map() =~= jm);
            }
            res
        } else {
            match r {
                Some(rb) => {
                    let rn = *rb;
                    if matches!(rn.color, NodeColor::Black) {
                        // Lend the right subtree's black level to the whole.
                        let mut rn2 = rn;
                        rn2.color = NodeColor::Red;
                        let ghost rr = Some(Box::new(rn2));
                        proof {
                            reveal_with_fuel(sub_map, 4);
                            reveal_with_fuel(ordered, 3);
                            reveal_with_fuel(no_red_red, 3);
                            reveal_with_fuel(balanced, 3);
                            reveal_with_fuel(black_height, 3);
                            assert(sub_map(rr) =~= sub_map(r));
                        }
                        let res = Self::balance_right(l, key, value, Some(Box::new(rn2)));
                        proof {
                            assert(res.as_map() =~= jm);
                        }
                        res
                    } else {
                        // The red right root is rotated up; its left child
                        // supplies the new top.
                        match rn.left {
                            Some(rlb) => {
                                let rln = *rlb;
                                if matches!(rln.color, NodeColor::Black) {
                                    proof {
                                        reveal_with_fuel(sub_map, 4);
                                        reveal_with_fuel(ordered, 3);
                                        reveal_with_fuel(no_red_red, 3);
                                        reveal_with_fuel(balanced, 3);
                                        reveal_with_fuel(black_height, 3);
                                    }
                                    let t4b = rn.right.unwrap();
                                    let mut t4n = *t4b;
                                    t4n.color = NodeColor::Red;
                                    let ghost t4r = Some(Box::new(t4n));
                                    proof {
                                        assert(sub_map(t4r) =~= sub_map(rn.right));
                                        assert(sub_map(Some(rlb)) == sub_map(rn.left));
                                        assert(keys_below(sub_map(rln.right), rn.key)) by {
                                            assert forall|e: Pid|
                                                sub_map(rln.right).dom().contains(e) implies e
                                                    < rn.key by {
                                                assert(sub_map(Some(rlb)).dom().contains(e));
                                                assert(sub_map(rn.left).dom().contains(e));
                                            }
                                        }
                                        assert(keys_above(sub_map(t4r), rn.key));
                                        assert(black_rooted(rn.right));
                                        assert(black_height(t4r) + 1 == black_height(rn.right));
                                        assert(black_height(rln.right) == black_height(t4r));
                                        assert(ordered(t4r));
                                        assert(no_red_red_below(t4r));
                                        assert(balanced(t4r));
                                    }
                                    let inner = Self::balance_right(
                                        rln.right,
                                        rn.key,
                                        rn.value,
                                        Some(Box::new(t4n)),
                                    );
                                    let res = Box::new(BinaryTreeNode {
                                        key: rln.key,
                                        value: rln.value,
                                        color: NodeColor::Red,
                                        left: Some(Box::new(BinaryTreeNode {
                                            key,
                                            value,
                                            color: NodeColor::Black,
                                            left: l,
                                            right: rln.left,
                                        })),
                                        right: Some(inner),
                                    });
                                    proof {
                                        let t1 = sub_map(l);
                                        let t2 = sub_map(rln.left);
                                        let t3 = sub_map(rln.right);
                                        let t4 = sub_map(rn.right);
                                        let a = key;
                                        let b = rln.key;
                                        let c = rn.key;
                                        assert(sub_map(Some(rlb)) == t2.union_prefer_right(
                                            t3,
                                        ).insert(b, rln.value));
                                        assert(sub_map(r) == sub_map(
                                            Some(rlb),
                                        ).union_prefer_right(t4).insert(c, rn.value));
                                        assert(sub_map(Some(rlb)).dom().contains(b));
                                        assert(sub_map(r).dom().contains(c));
                                        assert(sub_map(rn.left).dom().contains(b));
                                        assert(sub_map(r).dom().contains(b));
                                        assert(a < b);
                                        assert(b < c);
                                        assert(keys_above(t2, a)) by {
                                            assert forall|e: Pid|
                                                t2.dom().contains(e) implies e > a by {
                                                assert(sub_map(Some(rlb)).dom().contains(e));
                                                assert(sub_map(rn.left).dom().contains(e));
                                                assert(sub_map(r).dom().contains(e));
                                            }
                                        }
                                        assert(keys_below(t3, c)) by {
                                            assert forall|e: Pid|
                                                t3.dom().contains(e) implies e < c by {
                                                assert(sub_map(Some(rlb)).dom().contains(e));
                                                assert(sub_map(rn.left).dom().contains(e));
                                            }
                                        }
                                        lemma_rotation_maps(
                                            t1,
                                            a,
                                            value,
                                            t2,
                                            b,
                                            rln.value,
                                            t3,
                                            c,
                                            rn.value,
                                            t4,
                                        );
                                        assert(inner.as_map() == t3.union_prefer_right(t4).insert(
                                            c,
                                            rn.value,
                                        ));
                                        assert(res.as_map() == t1.union_prefer_right(t2).insert(
                                            a,
                                            value,
                                        ).union_prefer_right(
                                            t3.union_prefer_right(t4).insert(c, rn.value),
                                        ).insert(b, rln.value));
                                        assert(res.as_map() == jm);
                                        assert(keys_below(sub_map(res.left), b)) by {
                                            assert forall|e: Pid|
                                                sub_map(res.left).dom().contains(e) implies e
                                                    < b by {}
                                        }
                                        assert(keys_above(sub_map(res.right), b)) by {
                                            assert forall|e: Pid|
                                                sub_map(res.right).dom().contains(e) implies e
                                                    > b by {}
                                        }
                                        assert(ordered(Some(res)));
                                    }
                                    res
                                } else {
                                    proof {
                                        reveal_with_fuel(black_height, 3);
                                        reveal_with_fuel(no_red_red, 3);
                                        assert(false);
                                    }
                                    vstd::pervasive::unreached()
                                }
                            },
                            None => {
                                proof {
                                    reveal_with_fuel(black_height, 3);
                                    assert(false);
                                }
                                vstd::pervasive::unreached()
                            },
                        }
                    }
                },
                None => {
                    proof {
                        assert(false);
                    }
                    vstd::pervasive::unreached()
                },
            }
        }
    }


    /// Mirror image of `deficit_left`: the right subtree is one black level
    /// short.
    #[verifier::rlimit(100)]
    fn deficit_right(
        l: Option<Box<BinaryTreeNode<V>>>,
        key: Pid,
        value: V,
        r: Option<Box<BinaryTreeNode<V>>>,
    ) -> (res: Box<BinaryTreeNode<V>>)
        requires
            ordered(l),
            ordered(r),
            keys_below(sub_map(l), key),
            keys_above(sub_map(r), key),
            balanced(l),
            balanced(r),
            black_height(l) == black_height(r) + 1,
            no_red_red(l),
            no_red_red_below(r),
        ensures
            res.as_map() == joined_map(l, key, value, r),
            ordered(Some(res)),
            balanced(Some(res)),
            black_height(Some(res)) == black_height(l),
            no_red_red_below(Some(res)),
            black_rooted(l) ==> no_red_red(Some(res)),
    {
        let ghost jm = joined_map(l, key, value, r);
        if Self::is_red(&r) {
            // A red right root absorbs the missing black level.
            let rb = r.unwrap();
            let mut rn = *rb;
            rn.color = NodeColor::Black;
            let res = Box::new(BinaryTreeNode {
                key,
                value,
                color: NodeColor::Red,
                left: l,
                right: Some(Box::new(rn)),
            });
            proof {
                reveal_with_fuel(sub_map, 4);
                reveal_with_fuel(ordered, 3);
                reveal_with_fuel(no_red_red, 3);
                reveal_with_fuel(balanced, 3);
                reveal_with_fuel(black_height, 3);
                assert(res.as_map() =~= jm);
            }
            res
        } else {
            match l {
                Some(lb) => {
                    let ln = *lb;
                    if matches!(ln.color, NodeColor::Black) {
                        // Lend the left subtree's black level to the whole.
                        let mut ln2 = ln;
                        ln2.color = NodeColor::Red;
                        let ghost ll = Some(Box::new(ln2));
                        proof {
                            reveal_with_fuel(sub_map, 4);
                            reveal_with_fuel(ordered, 3);
                            reveal_with_fuel(no_red_red, 3);
                            reveal_with_fuel(balanced, 3);
                            reveal_with_fuel(black_height, 3);
                            assert(sub_map(ll) =~= sub_map(l));
                        }
                        let res = Self::balance_left(Some(Box::new(ln2)), key, value, r);
                        proof {
                            assert(res.as_map() =~= jm);
                        }
                        res
                    } else {
                        // The red left root is rotated up; its right child
                        // supplies the new top.
                        match ln.right {
                            Some(lrb) => {
                                let lrn = *lrb;
                                if matches!(lrn.color, NodeColor::Black) {
                                    proof {
                                        reveal_with_fuel(sub_map, 4);
                                        reveal_with_fuel(ordered, 3);
                                        reveal_with_fuel(no_red_red, 3);
                                        reveal_with_fuel(balanced, 3);
                                        reveal_with_fuel(black_height, 3);
                                    }
                                    let t1b = ln.left.unwrap();
                                    let mut t1n = *t1b;
                                    t1n.color = NodeColor::Red;
                                    let ghost t1r = Some(Box::new(t1n));
                                    proof {
                                        assert(sub_map(t1r) =~= sub_map(ln.left));
                                        assert(sub_map(Some(lrb)) == sub_map(ln.right));
                                        assert(keys_above(sub_map(lrn.left), ln.key)) by {
                                            assert forall|e: Pid|
                                                sub_map(lrn.left).dom().contains(e) implies e
                                                    > ln.key by {
                                                assert(sub_map(Some(lrb)).dom().contains(e));
                                                assert(sub_map(ln.right).dom().contains(e));
                                            }
                                        }
                                        assert(keys_below(sub_map(t1r), ln.key));
                                        assert(black_rooted(ln.left));
                                        assert(black_height(t1r) + 1 == black_height(ln.left));
                                        assert(black_height(lrn.left) == black_height(t1r));
                                        assert(ordered(t1r));
                                        assert(no_red_red_below(t1r));
                                        assert(balanced(t1r));
                                    }
                                    let inner = Self::balance_left(
                                        Some(Box::new(t1n)),
                                        ln.key,
                                        ln.value,
                                        lrn.left,
                                    );
                                    let res = Box::new(BinaryTreeNode {
                                        key: lrn.key,
                                        value: lrn.value,
                                        color: NodeColor::Red,
                                        left: Some(inner),
                                        right: Some(Box::new(BinaryTreeNode {
                                            key,
                                            value,
                                            color: NodeColor::Black,
                                            left: lrn.right,
                                            right: r,
                                        })),
                                    });
                                    proof {
                                        let t1 = sub_map(ln.left);
                                        let t2 = sub_map(lrn.left);
                                        let t3 = sub_map(lrn.right);
                                        let t4 = sub_map(r);
                                        let a = ln.key;
                                        let b = lrn.key;
                                        let c = key;
                                        assert(sub_map(Some(lrb)) == t2.union_prefer_right(
                                            t3,
                                        ).insert(b, lrn.value));
                                        assert(sub_map(l) == t1.union_prefer_right(
                                            sub_map(Some(lrb)),
                                        ).insert(a, ln.value));
                                        assert(sub_map(Some(lrb)).dom().contains(b));
                                        assert(sub_map(l).dom().contains(a));
                                        assert(sub_map(ln.right).dom().contains(b));
                                        assert(a < b);
                                        assert(sub_map(l).dom().contains(b));
                                        assert(b < c);
                                        assert(keys_below(t3, c)) by {
                                            assert forall|e: Pid|
                                                t3.dom().contains(e) implies e < c by {
                                                assert(sub_map(Some(lrb)).dom().contains(e));
                                                assert(sub_map(l).dom().contains(e));
                                            }
                                        }
                                        lemma_rotation_maps(
                                            t1,
                                            a,
                                            ln.value,
                                            t2,
                                            b,
                                            lrn.value,
                                            t3,
                                            c,
                                            value,
                                            t4,
                                        );
                                        assert(inner.as_map() == t1.union_prefer_right(t2).insert(
                                            a,
                                            ln.value,
                                        ));
                                        assert(res.as_map() == t1.union_prefer_right(t2).insert(
                                            a,
                                            ln.value,
                                        ).union_prefer_right(
                                            t3.union_prefer_right(t4).insert(c, value),
                                        ).insert(b, lrn.value));
                                        assert(res.as_map() == jm);
                                        assert(keys_below(sub_map(res.left), b)) by {
                                            assert forall|e: Pid|
                                                sub_map(res.left).dom().contains(e) implies e
                                                    < b by {}
                                        }
                                        assert(keys_above(sub_map(res.right), b)) by {
                                            assert forall|e: Pid|
                                                sub_map(res.right).dom().contains(e) implies e
                                                    > b by {}
                                        }
                                        assert(ordered(Some(res)));
                                    }
                                    res
                                } else {
                                    proof {
                                        reveal_with_fuel(black_height, 3);
                                        reveal_with_fuel(no_red_red, 3);
                                        assert(false);
                                    }
                                    vstd::pervasive::unreached()
                                }
                            },
                            None => {
                                proof {
                                    reveal_with_fuel(black_height, 3);
                                    reveal_with_fuel(balanced, 3);
                                    assert(false);
                                }
                                vstd::pervasive::unreached()
                            },
                        }
                    }
                },
                None => {
                    proof {
                        assert(false);
                    }
                    vstd::pervasive::unreached()
                },
            }
        }
    }

    /// Inserts a fresh key into an ordered red-black subtree. The result
    /// keeps the black height and is valid except possibly for a red root
    /// with a red child, which the caller repaints or rebalances.
    fn sub_insert(t: Option<Box<BinaryTreeNode<V>>>, key: Pid, value: V) -> (res: Box<
        BinaryTreeNode<V>,
    >)
        requires
            ordered(t),
            no_red_red(t),
            balanced(t),
            !sub_map(t).dom().contains(key),
        ensures
            res.as_map() == sub_map(t).insert(key, value),
            ordered(Some(res)),
            balanced(Some(res)),
            black_height(Some(res)) == black_height(t),
            no_red_red_below(Some(res)),
            black_rooted(t) ==> no_red_red(Some(res)),
        decreases t,
    {
        match t {
            None => {
                let res = Box::new(BinaryTreeNode {
                    key,
                    value,
                    color: NodeColor::Red,
                    left: None,
                    right: None,
                });
                proof {
                    reveal_with_fuel(sub_map, 2);
                    assert(res.as_map() =~= Map::empty().insert(key, value));
                }
                res
            },
            Some(b) => {
                let n = *b;
                let ghost old_map = sub_map(Some(b));
                if matches!(n.color, NodeColor::Black) {
                    if key < n.key {
                        let nl = Self::sub_insert(n.left, key, value);
                        let res = Self::balance_left(Some(nl), n.key, n.value, n.right);
                        proof {
                            assert(res.as_map() =~= old_map.insert(key, value));
                        }
                        res
                    } else {
                        let nr = Self::sub_insert(n.right, key, value);
                        let res = Self::balance_right(n.left, n.key, n.value, Some(nr));
                        proof {
                            assert(res.as_map() =~= old_map.insert(key, value));
                        }
                        res
                    }
                } else {
                    // A red node keeps its shape; a violation with the new
                    // child is repaired one level up.
                    if key < n.key {
                        let nl = Self::sub_insert(n.left, key, value);
                        let res = Box::new(BinaryTreeNode {
                            key: n.key,
                            value: n.value,
                            color: NodeColor::Red,
                            left: Some(nl),
                            right: n.right,
                        });
                        proof {
                            assert(res.as_map() =~= old_map.insert(key, value));
                        }
                        res
                    } else {
                        let nr = Self::sub_insert(n.right, key, value);
                        let res = Box::new(BinaryTreeNode {
                            key: n.key,
                            value: n.value,
                            color: NodeColor::Red,
                            left: n.left,
                            right: Some(nr),
                        });
                        proof {
                            assert(res.as_map() =~= old_map.insert(key, value));
                        }
                        res
                    }
                }
            },
        }
    }


    /// Removes and returns the smallest entry of a nonempty red-black
    /// subtree, repairing the black height on the way back up.
    fn split_min(t: Box<BinaryTreeNode<V>>) -> (res: (Pid, V, Option<Box<BinaryTreeNode<V>>>))
        requires
            ordered(Some(t)),
            no_red_red(Some(t)),
            balanced(Some(t)),
        ensures
            sub_map(Some(t)).dom().contains(res.0),
            res.1 == sub_map(Some(t))[res.0],
            forall|e: Pid| sub_map(Some(t)).dom().contains(e) ==> res.0 <= e,
            keys_above(sub_map(res.2), res.0),
            sub_map(res.2) == sub_map(Some(t)).remove(res.0),
            ordered(res.2),
            balanced(res.2),
            black_rooted(Some(t)) ==> black_height(res.2) + 1 == black_height(Some(t))
                && no_red_red_below(res.2),
            !black_rooted(Some(t)) ==> black_height(res.2) == black_height(Some(t))
                && no_red_red(res.2),
        decreases t,
    {
        let n = *t;
        let ghost whole = sub_map(Some(t));
        if n.left.is_none() {
            proof {
                reveal_with_fuel(sub_map, 3);
                reveal_with_fuel(ordered, 3);
                reveal_with_fuel(no_red_red, 3);
                reveal_with_fuel(balanced, 3);
                reveal_with_fuel(black_height, 3);
                assert(sub_map(n.left) =~= Map::empty());
                assert(sub_map(n.right) =~= whole.remove(n.key));
            }
            (n.key, n.value, n.right)
        } else {
            let left_black = !Self::is_red(&n.left);
            let lb = n.left.unwrap();
            let (k, v, l2) = Self::split_min(lb);
            proof {
                reveal_with_fuel(sub_map, 3);
                reveal_with_fuel(ordered, 3);
                reveal_with_fuel(no_red_red, 3);
                reveal_with_fuel(balanced, 3);
                reveal_with_fuel(black_height, 3);
                assert(sub_map(Some(lb)) == sub_map(n.left));
                assert(sub_map(n.left).dom().contains(k));
                assert(k < n.key);
            }
            let res2 = if left_black {
                Self::deficit_left(l2, n.key, n.value, n.right)
            } else {
                Box::new(BinaryTreeNode {
                    key: n.key,
                    value: n.value,
                    color: NodeColor::Red,
                    left: l2,
                    right: n.right,
                })
            };
            proof {
                assert(sub_map(l2) == sub_map(n.left).remove(k));
                assert(res2.as_map() == sub_map(l2).union_prefer_right(
                    sub_map(n.right),
                ).insert(n.key, n.value));
                assert(whole == sub_map(n.left).union_prefer_right(sub_map(n.right)).insert(
                    n.key,
                    n.value,
                ));
                assert(!sub_map(n.right).dom().contains(k));
                assert(res2.as_map() =~= whole.remove(k));
            }
            (k, v, Some(res2))
        }
    }

    /// Removes a key from an ordered red-black subtree. Returns the new
    /// subtree (whose black height may have dropped by one when the root
    /// was black) and the removed value, if the key was present.
    fn sub_del(t: Option<Box<BinaryTreeNode<V>>>, key: Pid) -> (res: (
        Option<Box<BinaryTreeNode<V>>>,
        Option<V>,
    ))
        requires
            ordered(t),
            no_red_red(t),
            balanced(t),
        ensures
            sub_map(res.0) == sub_map(t).remove(key),
            res.1 == if sub_map(t).dom().contains(key) {
                Some(sub_map(t)[key])
            } else {
                None::<V>
            },
            ordered(res.0),
            balanced(res.0),
            t.is_none() ==> res.0.is_none(),
            (t.is_some() && black_rooted(t)) ==> black_height(res.0) + 1 == black_height(t)
                && no_red_red_below(res.0),
            !black_rooted(t) ==> black_height(res.0) == black_height(t) && no_red_red(res.0),
        decreases t,
    {
        match t {
            None => {
                proof {
                    assert(sub_map(t).remove(key) =~= sub_map(t));
                }
                (None, None)
            },
            Some(b) => {
                let n = *b;
                let ghost whole = sub_map(Some(b));
                proof {
                    reveal_with_fuel(sub_map, 3);
                    reveal_with_fuel(ordered, 3);
                    reveal_with_fuel(no_red_red, 3);
                    reveal_with_fuel(balanced, 3);
                    reveal_with_fuel(black_height, 3);
                }
                if key < n.key {
                    let use_deficit = n.left.is_some() && !Self::is_red(&n.left);
                    let (l2, vopt) = Self::sub_del(n.left, key);
                    let res0 = if use_deficit {
                        Self::deficit_left(l2, n.key, n.value, n.right)
                    } else {
                        Box::new(BinaryTreeNode {
                            key: n.key,
                            value: n.value,
                            color: NodeColor::Red,
                            left: l2,
                            right: n.right,
                        })
                    };
                    proof {
                        assert(!sub_map(n.right).dom().contains(key));
                        assert(sub_map(l2) == sub_map(n.left).remove(key));
                        assert(res0.as_map() == sub_map(l2).union_prefer_right(
                            sub_map(n.right),
                        ).insert(n.key, n.value));
                        assert(whole == sub_map(n.left).union_prefer_right(
                            sub_map(n.right),
                        ).insert(n.key, n.value));
                        assert(res0.as_map() =~= whole.remove(key));
                    }
                    (Some(res0), vopt)
                } else if key > n.key {
                    let use_deficit = n.right.is_some() && !Self::is_red(&n.right);
                    let (r2, vopt) = Self::sub_del(n.right, key);
                    let res0 = if use_deficit {
                        Self::deficit_right(n.left, n.key, n.value, r2)
                    } else {
                        Box::new(BinaryTreeNode {
                            key: n.key,
                            value: n.value,
                            color: NodeColor::Red,
                            left: n.left,
                            right: r2,
                        })
                    };
                    proof {
                        assert(!sub_map(n.left).dom().contains(key));
                        assert(sub_map(r2) == sub_map(n.right).remove(key));
                        assert(res0.as_map() == sub_map(n.left).union_prefer_right(
                            sub_map(r2),
                        ).insert(n.key, n.value));
                        assert(whole == sub_map(n.left).union_prefer_right(
                            sub_map(n.right),
                        ).insert(n.key, n.value));
                        assert(res0.as_map() =~= whole.remove(key));
                    }
                    (Some(res0), vopt)
                } else {
                    // The node itself goes; its successor (if any) replaces
                    // it.
                    let right_black = !Self::is_red(&n.right);
                    match n.right {
                        None => {
                            proof {
                                assert(sub_map(n.left) =~= whole.remove(key));
                            }
                            (n.left, Some(n.value))
                        },
                        Some(rb) => {
                            let (k, v, r2) = Self::split_min(rb);
                            proof {
                                assert(sub_map(Some(rb)) == sub_map(n.right));
                                assert(sub_map(n.right).dom().contains(k));
                                assert(k > n.key);
                                assert(keys_below(sub_map(n.left), k));
                            }
                            let res0 = if right_black {
                                Self::deficit_right(n.left, k, v, r2)
                            } else {
                                Box::new(BinaryTreeNode {
                                    key: k,
                                    value: v,
                                    color: NodeColor::Red,
                                    left: n.left,
                                    right: r2,
                                })
                            };
                            proof {
                                assert(sub_map(r2) == sub_map(n.right).remove(k));
                                assert(res0.as_map() == sub_map(n.left).union_prefer_right(
                                    sub_map(r2),
                                ).insert(k, v));
                                assert(whole == sub_map(n.left).union_prefer_right(
                                    sub_map(n.right),
                                ).insert(n.key, n.value));
                                assert(!sub_map(n.left).dom().contains(key));
                                assert(v == sub_map(n.right)[k]);
                                assert(res0.as_map() =~= whole.remove(key));
                            }
                            (Some(res0), Some(n.value))
                        },
                    }
                }
            },
        }
    }


    /// Appends the in-order key sequence of the subtree to `out`.
    fn sub_collect_keys(t: &Option<Box<BinaryTreeNode<V>>>, out: &mut Vec<Pid>)
        requires
            key_seq(*t).len() + old(out)@.len() <= usize::MAX,
        ensures
            final(out)@ == old(out)@ + key_seq(*t),
        decreases *t,
    {
        match t {
            None => {
                proof {
                    assert(final(out)@ =~= old(out)@ + key_seq(*t));
                }
            },
            Some(n) => {
                proof {
                    reveal_with_fuel(key_seq, 2);
                }
                Self::sub_collect_keys(&n.left, out);
                out.push(n.key);
                Self::sub_collect_keys(&n.right, out);
                proof {
                    assert(final(out)@ =~= old(out)@ + key_seq(*t));
                }
            },
        }
    }

    /// Replaces the value stored under an existing key, leaving the shape,
    /// the keys and the colors of the subtree untouched. A missing key is
    /// rejected and the value handed back.
    fn sub_set_value(t: &mut Option<Box<BinaryTreeNode<V>>>, key: Pid, value: V) -> (r: Result<
        (),
        V,
    >)
        requires
            ordered(*old(t)),
        ensures
            ordered(*final(t)),
            key_seq(*final(t)) == key_seq(*old(t)),
            black_height(*final(t)) == black_height(*old(t)),
            balanced(*old(t)) ==> balanced(*final(t)),
            no_red_red(*old(t)) ==> no_red_red(*final(t)),
            black_rooted(*old(t)) ==> black_rooted(*final(t)),
            match r {
                Ok(()) => sub_map(*old(t)).dom().contains(key) && sub_map(*final(t)) == sub_map(
                    *old(t),
                ).insert(key, value),
                Err(v) => !sub_map(*old(t)).dom().contains(key) && v == value && *final(t) == *old(
                    t,
                ),
            },
        decreases *old(t),
    {
        match t.take() {
            None => Err(value),
            Some(mut b) => {
                let ghost old_sub = Some(b);
                let r;
                if key == b.key {
                    let mut n = *b;
                    n.value = value;
                    b = Box::new(n);
                    r = Ok(());
                    proof {
                        assert(!sub_map(n.left).dom().contains(key));
                        assert(!sub_map(n.right).dom().contains(key));
                        assert(sub_map(Some(b)) =~= sub_map(old_sub).insert(key, value));
                    }
                } else if key < b.key {
                    proof {
                        assert(!sub_map(b.right).dom().contains(key));
                    }
                    let mut n = *b;
                    r = Self::sub_set_value(&mut n.left, key, value);
                    b = Box::new(n);
                    proof {
                        if r.is_ok() {
                            assert(sub_map(Some(b)) =~= sub_map(old_sub).insert(key, value));
                        }
                    }
                } else {
                    proof {
                        assert(!sub_map(b.left).dom().contains(key));
                    }
                    let mut n = *b;
                    r = Self::sub_set_value(&mut n.right, key, value);
                    b = Box::new(n);
                    proof {
                        if r.is_ok() {
                            assert(sub_map(Some(b)) =~= sub_map(old_sub).insert(key, value));
                        }
                    }
                }
                proof {
                    reveal_with_fuel(key_seq, 2);
                    assert(key_seq(Some(b)) =~= key_seq(old_sub));
                }
                *t = Some(b);
                r
            },
        }
    }

    /// The smallest key of an ordered subtree.
    fn sub_min(t: &Option<Box<BinaryTreeNode<V>>>) -> (r: Option<Pid>)
        requires
            ordered(*t),
        ensures
            match r {
                None => sub_map(*t) == Map::<Pid, V>::empty(),
                Some(k) => sub_map(*t).dom().contains(k) && (forall|e: Pid|
                    sub_map(*t).dom().contains(e) ==> k <= e),
            },
        decreases *t,
    {
        match t {
            None => None,
            Some(n) => match Self::sub_min(&n.left) {
                Some(k) => Some(k),
                None => {
                    proof {
                        assert(sub_map(n.left).dom() =~= Set::empty());
                    }
                    Some(n.key)
                },
            },
        }
    }

    /// The smallest key of an ordered subtree that is strictly greater than
    /// `key`.
    fn sub_next(t: &Option<Box<BinaryTreeNode<V>>>, key: Pid) -> (r: Option<Pid>)
        requires
            ordered(*t),
        ensures
            match r {
                None => forall|e: Pid| sub_map(*t).dom().contains(e) ==> e <= key,
                Some(k) => sub_map(*t).dom().contains(k) && k > key && (forall|e: Pid|
                    sub_map(*t).dom().contains(e) && e > key ==> k <= e),
            },
        decreases *t,
    {
        match t {
            None => None,
            Some(n) => {
                if n.key <= key {
                    Self::sub_next(&n.right, key)
                } else {
                    match Self::sub_next(&n.left, key) {
                        Some(k) => Some(k),
                        None => Some(n.key),
                    }
                }
            },
        }
    }

    /// Looks the key up in an ordered subtree.
    fn sub_get(t: &Option<Box<BinaryTreeNode<V>>>, key: Pid) -> (r: Option<&V>)
        requires
            ordered(*t),
        ensures
            match r {
                Some(v) => sub_map(*t).dom().contains(key) && *v == sub_map(*t)[key],
                None => !sub_map(*t).dom().contains(key),
            },
        decreases *t,
    {
        match t {
            None => None,
            Some(n) => {
                if key == n.key {
                    Some(&n.value)
                } else if key < n.key {
                    proof {
                        assert(!sub_map(n.right).dom().contains(key));
                    }
                    Self::sub_get(&n.left, key)
                } else {
                    proof {
                        assert(!sub_map(n.left).dom().contains(key));
                    }
                    Self::sub_get(&n.right, key)
                }
            },
        }
    }
}

impl<V> BinaryTree<V> {
    /// The map this tree represents; contracts are stated over it.
    pub closed spec fn as_map(self) -> Map<Pid, V> {
        sub_map(self.root)
    }

    /// The in-order key sequence of the tree.
    pub closed spec fn spec_key_seq(self) -> Seq<Pid> {
        key_seq(self.root)
    }

    /// Well-formedness: search-tree ordering, the red-black invariants with
    /// a black root, and an entry count that matches the map.
    pub closed spec fn well_formed(self) -> bool {
        &&& ordered(self.root)
        &&& no_red_red(self.root)
        &&& balanced(self.root)
        &&& black_rooted(self.root)
        &&& self.len == self.as_map().dom().len()
        &&& self.as_map().dom().finite()
    }


    /// Facts a client may rely on for a well-formed tree: the key set is
    /// finite, and the in-order key sequence is strictly ascending and
    /// names exactly the keys of the map.
    pub proof fn lemma_well_formed_props(self)
        requires
            self.well_formed(),
        ensures
            self@.dom().finite(),
            self.spec_key_seq().len() == self@.dom().len(),
            forall|i: int, j: int|
                0 <= i < j < self.spec_key_seq().len() ==> self.spec_key_seq()[i]
                    < self.spec_key_seq()[j],
            forall|i: int|
                0 <= i < self.spec_key_seq().len() ==> self@.dom().contains(
                    #[trigger] self.spec_key_seq()[i],
                ),
            forall|k: Pid| self@.dom().contains(k) ==> self.spec_key_seq().contains(k),
            forall|k: Pid| self.spec_key_seq().contains(k) ==> self@.dom().contains(k),
    {
        lemma_shape(self.root);
    }

    /// Creates an empty tree.
    pub fn new() -> (tree: Self)
        ensures
            tree.well_formed(),
            tree@ == Map::<Pid, V>::empty(),
            tree.spec_height() == 0,
    {
        proof {
            assert(Map::<Pid, V>::empty().dom() =~= Set::empty());
        }
        BinaryTree { root: None, len: 0 }
    }

    /// Searches for the value associated with the given key.
    pub fn get(&self, key: Pid) -> (r: Option<&V>)
        requires
            self.well_formed(),
        ensures
            match r {
                Some(v) => self@.dom().contains(key) && *v == self@[key],
                None => !self@.dom().contains(key),
            },
    {
        BinaryTreeNode::<V>::sub_get(&self.root, key)
    }

    /// Inserts an entry. A key that is already present is rejected and the
    /// value is handed back unchanged.
    pub fn insert(&mut self, key: Pid, value: V) -> (r: Result<(), V>)
        requires
            old(self).well_formed(),
            old(self)@.dom().len() < usize::MAX,
        ensures
            final(self).well_formed(),
            match r {
                Ok(()) => !old(self)@.dom().contains(key) && final(self)@ == old(self)@.insert(
                    key,
                    value,
                ),
                Err(v) => old(self)@.dom().contains(key) && v == value && final(self)@ == old(
                    self,
                )@,
            },
    {
        if self.get(key).is_some() {
            return Err(value);
        }
        let root = self.root.take();
        let b = BinaryTreeNode::<V>::sub_insert(root, key, value);
        let mut n = *b;
        n.color = NodeColor::Black;
        proof {
            assert(n.as_map() =~= old(self)@.insert(key, value));
        }
        self.root = Some(Box::new(n));
        self.len = self.len + 1;
        Ok(())
    }


    /// Removes the entry with the given key, returning its value if it was
    /// present.
    pub fn remove(&mut self, key: Pid) -> (r: Option<V>)
        requires
            old(self).well_formed(),
        ensures
            final(self).well_formed(),
            final(self)@ == old(self)@.remove(key),
            r == if old(self)@.dom().contains(key) {
                Some(old(self)@[key])
            } else {
                None::<V>
            },
    {
        let root = self.root.take();
        let (r2, vopt) = BinaryTreeNode::<V>::sub_del(root, key);
        match r2 {
            None => {
                self.root = None;
            },
            Some(b) => {
                let mut n = *b;
                n.color = NodeColor::Black;
                proof {
                    assert(n.as_map() =~= old(self)@.remove(key));
                }
                self.root = Some(Box::new(n));
            },
        }
        if vopt.is_some() {
            proof {
                assert(self@.dom() =~= old(self)@.dom().remove(key));
            }
            self.len = self.len - 1;
        } else {
            proof {
                assert(self@.dom() =~= old(self)@.dom());
            }
        }
        vopt
    }

    /// Returns the number of entries, in constant time.
    pub fn count(&self) -> (r: usize)
        requires
            self.well_formed(),
        ensures
            r == self@.dom().len(),
    {
        self.len
    }

    /// Returns the keys of all entries in ascending order.
    pub fn in_order_keys(&self) -> (r: Vec<Pid>)
        requires
            self.well_formed(),
        ensures
            r@ == self.spec_key_seq(),
            r@.len() == self@.dom().len(),
            forall|i: int, j: int| 0 <= i < j < r@.len() ==> r@[i] < r@[j],
            forall|i: int| 0 <= i < r@.len() ==> self@.dom().contains(#[trigger] r@[i]),
            forall|k: Pid| self@.dom().contains(k) ==> r@.contains(k),
    {
        proof {
            lemma_shape(self.root);
        }
        let mut out = Vec::new();
        BinaryTreeNode::<V>::sub_collect_keys(&self.root, &mut out);
        out
    }

    /// Replaces the value stored under an existing key. A missing key is
    /// rejected and the value handed back unchanged.
    pub fn set_value(&mut self, key: Pid, value: V) -> (r: Result<(), V>)
        requires
            old(self).well_formed(),
        ensures
            final(self).well_formed(),
            final(self).spec_key_seq() == old(self).spec_key_seq(),
            match r {
                Ok(()) => old(self)@.dom().contains(key) && final(self)@ == old(self)@.insert(
                    key,
                    value,
                ),
                Err(v) => !old(self)@.dom().contains(key) && v == value && final(self)@ == old(
                    self,
                )@,
            },
    {
        let r = BinaryTreeNode::<V>::sub_set_value(&mut self.root, key, value);
        proof {
            if r.is_ok() {
                assert(final(self)@.dom() =~= old(self)@.dom());
            }
        }
        r
    }

    /// Returns the smallest key, or `None` if the tree is empty.
    pub fn get_min(&self) -> (r: Option<Pid>)
        requires
            self.well_formed(),
        ensures
            match r {
                None => self@ == Map::<Pid, V>::empty(),
                Some(k) => self@.dom().contains(k) && (forall|e: Pid|
                    self@.dom().contains(e) ==> k <= e),
            },
    {
        BinaryTreeNode::<V>::sub_min(&self.root)
    }

    /// Returns the smallest key strictly greater than `key`, the next stop
    /// of an ordered traversal positioned at `key`.
    pub fn get_next(&self, key: Pid) -> (r: Option<Pid>)
        requires
            self.well_formed(),
        ensures
            match r {
                None => forall|e: Pid| self@.dom().contains(e) ==> e <= key,
                Some(k) => self@.dom().contains(k) && k > key && (forall|e: Pid|
                    self@.dom().contains(e) && e > key ==> k <= e),
            },
    {
        BinaryTreeNode::<V>::sub_next(&self.root, key)
    }


    /// The parent key of the node holding `key`, as `parent_in` defines.
    pub closed spec fn spec_parent_of(self, key: Pid) -> Option<Pid> {
        parent_in(self.root, key)
    }

    /// The sibling key of the node holding `key`, as `sibling_in` defines.
    pub closed spec fn spec_sibling_of(self, key: Pid) -> Option<Pid> {
        sibling_in(self.root, key)
    }

    /// The height of the tree.
    pub closed spec fn spec_height(self) -> nat {
        tree_height(self.root)
    }


    /// The balancing guarantee: a well-formed tree of `n` entries has
    /// height `h <= 2 * log2(n + 1)`, so lookups, insertions and removals
    /// all walk O(log n) nodes. Stated through powers of two:
    /// `2^((h + 1) / 2) <= n + 1` for the height `h`.
    pub proof fn lemma_logarithmic_height(self)
        requires
            self.well_formed(),
        ensures
            vstd::arithmetic::power2::pow2(((self.spec_height() + 1) / 2) as nat) <= self@.dom().len()
                + 1,
    {
        lemma_shape(self.root);
        lemma_height_le_black_height(self.root);
        lemma_count_ge_pow2(self.root);
        let h = self.spec_height();
        let bh = black_height(self.root);
        // The root is black, so the height is at most twice the black
        // height and `(h + 1) / 2` still fits under it.
        assert(h <= 2 * bh);
        assert((h + 1) / 2 <= bh);
        if ((h + 1) / 2) as nat != bh {
            vstd::arithmetic::power2::lemma_pow2_strictly_increases(((h + 1) / 2) as nat, bh);
        }
    }

    /// A well-formed tree is empty exactly when its height is zero.
    pub proof fn lemma_height_zero_iff_empty(self)
        requires
            self.well_formed(),
        ensures
            (self.spec_height() == 0) <==> (self@ == Map::<Pid, V>::empty()),
    {
        match self.root {
            None => {
                assert(self@ =~= Map::<Pid, V>::empty());
            },
            Some(n) => {
                assert(self@.dom().contains(n.key));
                assert(Map::<Pid, V>::empty().dom().contains(n.key) == false);
            },
        }
    }

    /// Returns the number of nodes in the tree, by walking it.
    pub fn nodes_count(&self) -> (r: usize)
        requires
            self.well_formed(),
        ensures
            r == self@.dom().len(),
    {
        proof {
            lemma_shape(self.root);
        }
        match &self.root {
            Some(n) => n.nodes_count(),
            None => {
                proof {
                    assert(self@.dom() =~= Set::empty());
                }
                0
            },
        }
    }

    /// Returns the height of the tree: zero when empty, and otherwise the
    /// number of nodes on the longest root-to-leaf path.
    pub fn get_depth(&self) -> (r: usize)
        requires
            self.well_formed(),
        ensures
            r == self.spec_height(),
    {
        proof {
            lemma_shape(self.root);
            lemma_height_le_count(self.root);
        }
        match &self.root {
            Some(n) => n.get_depth(),
            None => 0,
        }
    }

    /// Returns the key of the parent of the node holding `key`: the root
    /// and absent keys have none. A parent is always another present key.
    pub fn get_parent(&self, key: Pid) -> (r: Option<Pid>)
        requires
            self.well_formed(),
        ensures
            r == self.spec_parent_of(key),
            match r {
                Some(p) => self@.dom().contains(p) && self@.dom().contains(key) && p != key,
                None => true,
            },
    {
        proof {
            lemma_relative_props(self.root, key);
        }
        BinaryTreeNode::<V>::sub_parent(&self.root, key)
    }

    /// Returns the key of the sibling of the node holding `key`: the other
    /// child of its parent, when both exist.
    pub fn get_sibling(&self, key: Pid) -> (r: Option<Pid>)
        requires
            self.well_formed(),
        ensures
            r == self.spec_sibling_of(key),
            match r {
                Some(q) => self@.dom().contains(q) && self@.dom().contains(key) && q != key,
                None => true,
            },
    {
        proof {
            lemma_relative_props(self.root, key);
        }
        BinaryTreeNode::<V>::sub_sibling(&self.root, key)
    }

    /// Returns the key of the grandparent of the node holding `key`: the
    /// parent of its parent.
    pub fn get_grandparent(&self, key: Pid) -> (r: Option<Pid>)
        requires
            self.well_formed(),
        ensures
            r == match self.spec_parent_of(key) {
                Some(p) => self.spec_parent_of(p),
                None => None::<Pid>,
            },
    {
        match self.get_parent(key) {
            Some(p) => self.get_parent(p),
            None => None,
        }
    }

    /// Returns the key of the uncle of the node holding `key`: the sibling
    /// of its parent.
    pub fn get_uncle(&self, key: Pid) -> (r: Option<Pid>)
        requires
            self.well_formed(),
        ensures
            r == match self.spec_parent_of(key) {
                Some(p) => self.spec_sibling_of(p),
                None => None::<Pid>,
            },
    {
        match self.get_parent(key) {
            Some(p) => self.get_sibling(p),
            None => None,
        }
    }

}

impl<V> View for BinaryTree<V> {
    type V = Map<Pid, V>;

    open spec fn view(&self) -> Map<Pid, V> {
        self.as_map()
    }
}

} // verus!

