//! The AVL engine: an ordered map from `i64` keys to values of any type,
//! stored as a binary search tree in which every node caches the height of
//! its subtree and the heights of the two subtrees of any node differ by at
//! most one. Each mutation rebalances the path it touched by single or
//! double rotations, so the height of the whole tree stays logarithmic in
//! the number of stored keys.
//!
//! A node owns its children outright, so every node has exactly one parent
//! (the root's owner is the tree itself) and no cycle or dangling link can
//! form. Inserting a key that is already present replaces the stored value
//! in place; the tree never holds two nodes with equal keys.
//!
//! Heights follow one fixed convention: an absent subtree has height 0 and
//! every node's height is one more than the larger of its children's
//! heights, so a lone leaf has height 1.

use vstd::prelude::*;
use vstd::arithmetic::power2::pow2;
use vstd::arithmetic::power2::lemma_pow2_adds;
use vstd::arithmetic::power2::lemma_pow2_strictly_increases;
use vstd::arithmetic::power2::lemma2_to64;
use vstd::arithmetic::div_mod::lemma_div_is_ordered;

verus! {

/// The larger of two natural numbers.
pub open spec fn nmax(a: nat, b: nat) -> nat {
    if a >= b {
        a
    } else {
        b
    }
}

/// One tree cell: a key, its value, the cached height of the subtree
/// rooted here, and the two owned subtrees.
pub struct Node<V> {
    key: i64,
    value: V,
    height: usize,
    left: Option<Box<Node<V>>>,
    right: Option<Box<Node<V>>>,
}

/// An ordered key-value map with guaranteed logarithmic height,
/// holding the root node of an AVL tree, or nothing when empty.
pub struct AVLTree<V> {
    root: Option<Box<Node<V>>>,
}

impl<V> Node<V> {
    /// The mapping stored in an optional subtree.
    pub closed spec fn as_map_opt(node: Option<Box<Node<V>>>) -> Map<i64, V>
        decreases node,
    {
        match node {
            None => Map::empty(),
            Some(n) => n.as_map(),
        }
    }

    /// The mapping stored in the subtree rooted at this node.
    pub closed spec fn as_map(self) -> Map<i64, V>
        decreases self,
    {
        Node::<V>::as_map_opt(self.left).union_prefer_right(Node::<V>::as_map_opt(self.right))
            .insert(self.key, self.value)
    }

    /// The height of an optional subtree: 0 when absent, otherwise one more
    /// than the larger child height.
    pub closed spec fn height_opt(node: Option<Box<Node<V>>>) -> nat
        decreases node,
    {
        match node {
            None => 0,
            Some(n) => 1 + nmax(
                Node::<V>::height_opt(n.left),
                Node::<V>::height_opt(n.right),
            ),
        }
    }

    /// The number of nodes in an optional subtree.
    pub closed spec fn size_opt(node: Option<Box<Node<V>>>) -> nat
        decreases node,
    {
        match node {
            None => 0,
            Some(n) => 1 + Node::<V>::size_opt(n.left) + Node::<V>::size_opt(n.right),
        }
    }

    /// The keys of an optional subtree, listed in symmetric (in-order)
    /// order: left subtree first, then this node's key, then the right
    /// subtree.
    pub closed spec fn in_order(node: Option<Box<Node<V>>>) -> Seq<i64>
        decreases node,
    {
        match node {
            None => Seq::empty(),
            Some(n) => Node::<V>::in_order(n.left) + seq![n.key] + Node::<V>::in_order(n.right),
        }
    }

    /// Structural soundness of the subtree rooted at this node:
    /// every key to the left is smaller and every key to the right larger
    /// than this node's key, the cached height equals one plus the larger
    /// child height, and the child heights differ by at most one --
    /// recursively at every node.
    pub closed spec fn well_formed(self) -> bool
        decreases self,
    {
        &&& forall|k: i64| Node::<V>::as_map_opt(self.left).dom().contains(k) ==> k < self.key
        &&& forall|k: i64| Node::<V>::as_map_opt(self.right).dom().contains(k) ==> k > self.key
        &&& match self.left {
            Some(l) => l.well_formed(),
            None => true,
        }
        &&& match self.right {
            Some(r) => r.well_formed(),
            None => true,
        }
        &&& self.height == 1 + nmax(
            Node::<V>::height_opt(self.left),
            Node::<V>::height_opt(self.right),
        )
        &&& -1 <= Node::<V>::height_opt(self.left) as int - Node::<V>::height_opt(self.right) as int
            <= 1
    }

    /// Structural soundness of an optional subtree.
    pub closed spec fn wf_opt(node: Option<Box<Node<V>>>) -> bool {
        match node {
            Some(n) => n.well_formed(),
            None => true,
        }
    }

    /// A fresh leaf holding one mapping.
    pub fn new(key: i64, value: V) -> (n: Node<V>)
        ensures
            n.well_formed(),
            n.as_map() == Map::<i64, V>::empty().insert(key, value),
            Node::<V>::height_opt(Some(Box::new(n))) == 1,
    {
        let n = Node { key, value, height: 1, left: None, right: None };
        proof {
            assert(n.as_map() =~= Map::<i64, V>::empty().insert(key, value));
        }
        n
    }
}

/// Two to the given power is no smaller than two to a smaller power.
proof fn lemma_pow2_le(a: nat, b: nat)
    requires
        a <= b,
    ensures
        pow2(a) <= pow2(b),
{
    if a < b {
        lemma_pow2_strictly_increases(a, b);
    }
}

/// If two subtree heights differ by at most one, two to half the height of
/// their joined node is at most the sum of two to half of each.
proof fn lemma_balanced_split(hl: nat, hr: nat)
    requires
        -1 <= hl as int - hr as int <= 1,
    ensures
        pow2((1 + nmax(hl, hr)) / 2) <= pow2(hl / 2) + pow2(hr / 2),
{
    let h: nat = 1 + nmax(hl, hr);
    lemma2_to64();
    if h >= 2 {
        assert(hl >= h - 2 && hr >= h - 2);
        lemma_div_is_ordered(h - 2, hl as int, 2);
        lemma_div_is_ordered(h - 2, hr as int, 2);
        assert(h / 2 == (h - 2) / 2 + 1);
        lemma_pow2_adds(((h - 2) / 2) as nat, 1);
        lemma_pow2_le(((h - 2) / 2) as nat, hl / 2);
        lemma_pow2_le(((h - 2) / 2) as nat, hr / 2);
    }
}

impl<V> Node<V> {
    /// The AVL height bound: a well-formed subtree of height `h` holds at
    /// least `2^(h / 2) - 1` nodes, so the height grows at most
    /// logarithmically with the number of stored keys.
    pub proof fn lemma_height_le_size(node: Option<Box<Node<V>>>)
        requires
            Node::<V>::wf_opt(node),
        ensures
            pow2(Node::<V>::height_opt(node) / 2) <= Node::<V>::size_opt(node) + 1,
        decreases node,
    {
        lemma2_to64();
        match node {
            None => {},
            Some(n) => {
                Node::<V>::lemma_height_le_size(n.left);
                Node::<V>::lemma_height_le_size(n.right);
                lemma_balanced_split(
                    Node::<V>::height_opt(n.left),
                    Node::<V>::height_opt(n.right),
                );
            },
        }
    }

    /// In a well-formed subtree whose keys all lie between `lo` and `hi`,
    /// two to half the height is bounded by the width of that key range:
    /// the node count is at least `2^(h / 2) - 1` and all keys are distinct.
    proof fn lemma_height_le_range(node: Option<Box<Node<V>>>, lo: int, hi: int)
        requires
            Node::<V>::wf_opt(node),
            lo <= hi + 1,
            forall|k: i64| Node::<V>::as_map_opt(node).dom().contains(k) ==> lo <= k <= hi,
        ensures
            pow2(Node::<V>::height_opt(node) / 2) <= hi - lo + 2,
        decreases node,
    {
        lemma2_to64();
        match node {
            None => {},
            Some(n) => {
                assert(Node::<V>::as_map_opt(node).dom().contains(n.key));
                assert forall|k: i64|
                    Node::<V>::as_map_opt(n.left).dom().contains(k) implies lo <= k <= n.key
                    - 1 by {
                    assert(Node::<V>::as_map_opt(node).dom().contains(k));
                }
                assert forall|k: i64|
                    Node::<V>::as_map_opt(n.right).dom().contains(k) implies n.key + 1 <= k
                    <= hi by {
                    assert(Node::<V>::as_map_opt(node).dom().contains(k));
                }
                Node::<V>::lemma_height_le_range(n.left, lo, n.key - 1);
                Node::<V>::lemma_height_le_range(n.right, n.key + 1, hi);
                lemma_balanced_split(
                    Node::<V>::height_opt(n.left),
                    Node::<V>::height_opt(n.right),
                );
            },
        }
    }

    /// In a well-formed subtree the stored keys are pairwise distinct, so
    /// the node count equals the number of keys of the stored mapping.
    proof fn lemma_size_is_key_count(node: Option<Box<Node<V>>>)
        requires
            Node::<V>::wf_opt(node),
        ensures
            Node::<V>::as_map_opt(node).dom().finite(),
            Node::<V>::as_map_opt(node).dom().len() == Node::<V>::size_opt(node),
        decreases node,
    {
        match node {
            None => {
                assert(Node::<V>::as_map_opt(node).dom() =~= Set::<i64>::empty());
            },
            Some(n) => {
                Node::<V>::lemma_unfold(*n);
                Node::<V>::lemma_size_is_key_count(n.left);
                Node::<V>::lemma_size_is_key_count(n.right);
                let dl = Node::<V>::as_map_opt(n.left).dom();
                let dr = Node::<V>::as_map_opt(n.right).dom();
                assert(Node::<V>::as_map_opt(node).dom() =~= (dl + dr).insert(n.key));
                assert(dl.disjoint(dr)) by {
                    assert forall|k: i64| dl.contains(k) implies !dr.contains(k) by {}
                }
                vstd::set_lib::lemma_set_disjoint_lens(dl, dr);
                assert(!(dl + dr).contains(n.key));
            },
        }
    }

    /// Since the keys are 64-bit integers, no well-formed subtree can be
    /// taller than 129: its node count would exceed the number of distinct
    /// keys. In particular the cached height never overflows.
    proof fn lemma_height_fits(node: Option<Box<Node<V>>>)
        requires
            Node::<V>::wf_opt(node),
        ensures
            Node::<V>::height_opt(node) <= 129,
    {
        Node::<V>::lemma_height_le_range(node, i64::MIN as int, i64::MAX as int);
        lemma2_to64();
        let h = Node::<V>::height_opt(node);
        if h > 129 {
            lemma_pow2_adds(64, 1);
            lemma_pow2_le(65, h / 2);
            assert(false);
        }
    }
}

impl<V> Node<V> {
    /// The cached height of an optional subtree, read without descending.
    fn height_of(node: &Option<Box<Node<V>>>) -> (h: usize)
        requires
            Node::<V>::wf_opt(*node),
        ensures
            h == Node::<V>::height_opt(*node),
    {
        match node {
            None => 0,
            Some(n) => n.height,
        }
    }

    /// Recomputes this node's cached height from its children's, which must
    /// already be current; nothing else changes.
    fn update_height(&mut self)
        requires
            Node::<V>::wf_opt(old(self).left),
            Node::<V>::wf_opt(old(self).right),
        ensures
            final(self).key == old(self).key,
            final(self).value == old(self).value,
            final(self).left == old(self).left,
            final(self).right == old(self).right,
            final(self).height == 1 + nmax(
                Node::<V>::height_opt(old(self).left),
                Node::<V>::height_opt(old(self).right),
            ),
    {
        proof {
            Node::<V>::lemma_height_fits(self.left);
            Node::<V>::lemma_height_fits(self.right);
        }
        let lh = Node::<V>::height_of(&self.left);
        let rh = Node::<V>::height_of(&self.right);
        self.height = if lh >= rh {
            lh + 1
        } else {
            rh + 1
        };
    }

    /// This node's balance factor: left subtree height minus right subtree
    /// height. A well-formed node keeps it in `{-1, 0, 1}`.
    fn balance_factor(&self) -> (b: i64)
        requires
            self.well_formed(),
        ensures
            b == Node::<V>::height_opt(self.left) as int - Node::<V>::height_opt(
                self.right,
            ) as int,
            -1 <= b <= 1,
    {
        proof {
            Node::<V>::lemma_unfold(*self);
            Node::<V>::lemma_height_fits(self.left);
            Node::<V>::lemma_height_fits(self.right);
        }
        let lh = Node::<V>::height_of(&self.left);
        let rh = Node::<V>::height_of(&self.right);
        if lh >= rh {
            (lh - rh) as i64
        } else {
            -((rh - lh) as i64)
        }
    }

    /// Joins two subtrees under a fresh node, computing its cached height.
    /// The subtrees must already be in balance with each other; rebalancing
    /// is `fixup`'s business.
    fn join(key: i64, value: V, left: Option<Box<Node<V>>>, right: Option<Box<Node<V>>>) -> (n:
        Box<Node<V>>)
        requires
            Node::<V>::wf_opt(left),
            Node::<V>::wf_opt(right),
            forall|k: i64| Node::<V>::as_map_opt(left).dom().contains(k) ==> k < key,
            forall|k: i64| Node::<V>::as_map_opt(right).dom().contains(k) ==> k > key,
            -1 <= Node::<V>::height_opt(left) as int - Node::<V>::height_opt(right) as int <= 1,
        ensures
            n.well_formed(),
            n.as_map() == Node::<V>::as_map_opt(left).union_prefer_right(
                Node::<V>::as_map_opt(right),
            ).insert(key, value),
            Node::<V>::height_opt(Some(n)) == 1 + nmax(
                Node::<V>::height_opt(left),
                Node::<V>::height_opt(right),
            ),
    {
        let mut n = Node { key, value, height: 0, left, right };
        n.update_height();
        Box::new(n)
    }
}

impl<V> Node<V> {
    /// Single right rotation: the left child `l` rises to take the place of
    /// the node `(key, value)`, which descends to be `l`'s right child,
    /// adopting `l`'s former right subtree as its new left subtree. Applies
    /// when the node would lean left by two and `l` does not lean right.
    fn rotate_right(key: i64, value: V, l: Box<Node<V>>, right: Option<Box<Node<V>>>) -> (n: Box<
        Node<V>,
    >)
        requires
            l.well_formed(),
            Node::<V>::wf_opt(right),
            forall|k: i64| l.as_map().dom().contains(k) ==> k < key,
            forall|k: i64| Node::<V>::as_map_opt(right).dom().contains(k) ==> k > key,
            Node::<V>::height_opt(Some(l)) == Node::<V>::height_opt(right) + 2,
            Node::<V>::height_opt(l.left) >= Node::<V>::height_opt(l.right),
        ensures
            n.well_formed(),
            n.as_map() == l.as_map().union_prefer_right(Node::<V>::as_map_opt(right)).insert(
                key,
                value,
            ),
            Node::<V>::height_opt(Some(l)) <= Node::<V>::height_opt(Some(n)) <= Node::<
                V,
            >::height_opt(Some(l)) + 1,
    {
        proof {
            assert(l.as_map().dom().contains(l.key));
        }
        let Node { key: lk, value: lv, height: _, left: ll, right: lr } = *l;
        proof {
            assert forall|k: i64| Node::<V>::as_map_opt(lr).dom().contains(k) implies k < key by {
                assert(l.as_map().dom().contains(k));
            }
        }
        let inner = Node::<V>::join(key, value, lr, right);
        proof {
            assert forall|k: i64| inner.as_map().dom().contains(k) implies k > lk by {
                if k != key && !Node::<V>::as_map_opt(lr).dom().contains(k) {
                    assert(Node::<V>::as_map_opt(right).dom().contains(k));
                }
            }
        }
        let n = Node::<V>::join(lk, lv, ll, Some(inner));
        proof {
            assert(n.as_map() =~= l.as_map().union_prefer_right(
                Node::<V>::as_map_opt(right),
            ).insert(key, value));
        }
        n
    }

    /// Single left rotation, the mirror image of `rotate_right`: the right
    /// child `r` rises and the node descends to be its left child.
    fn rotate_left(key: i64, value: V, left: Option<Box<Node<V>>>, r: Box<Node<V>>) -> (n: Box<
        Node<V>,
    >)
        requires
            r.well_formed(),
            Node::<V>::wf_opt(left),
            forall|k: i64| Node::<V>::as_map_opt(left).dom().contains(k) ==> k < key,
            forall|k: i64| r.as_map().dom().contains(k) ==> k > key,
            Node::<V>::height_opt(Some(r)) == Node::<V>::height_opt(left) + 2,
            Node::<V>::height_opt(r.right) >= Node::<V>::height_opt(r.left),
        ensures
            n.well_formed(),
            n.as_map() == Node::<V>::as_map_opt(left).union_prefer_right(r.as_map()).insert(
                key,
                value,
            ),
            Node::<V>::height_opt(Some(r)) <= Node::<V>::height_opt(Some(n)) <= Node::<
                V,
            >::height_opt(Some(r)) + 1,
    {
        proof {
            assert(r.as_map().dom().contains(r.key));
        }
        let Node { key: rk, value: rv, height: _, left: rl, right: rr } = *r;
        proof {
            assert forall|k: i64| Node::<V>::as_map_opt(rl).dom().contains(k) implies k > key by {
                assert(r.as_map().dom().contains(k));
            }
        }
        let inner = Node::<V>::join(key, value, left, rl);
        proof {
            assert forall|k: i64| inner.as_map().dom().contains(k) implies k < rk by {
                if k != key && !Node::<V>::as_map_opt(rl).dom().contains(k) {
                    assert(Node::<V>::as_map_opt(left).dom().contains(k));
                }
            }
        }
        let n = Node::<V>::join(rk, rv, Some(inner), rr);
        proof {
            assert(n.as_map() =~= Node::<V>::as_map_opt(left).union_prefer_right(
                r.as_map(),
            ).insert(key, value));
        }
        n
    }
    /// Opens one level of the invariant: the facts `well_formed` and
    /// `as_map` state about a node's own fields, for use where a proof
    /// descends more than one level into a subtree.
    proof fn lemma_unfold(n: Node<V>)
        requires
            n.well_formed(),
        ensures
            Node::<V>::wf_opt(n.left),
            Node::<V>::wf_opt(n.right),
            forall|k: i64| #[trigger]
                Node::<V>::as_map_opt(n.left).dom().contains(k) ==> k < n.key,
            forall|k: i64| #[trigger]
                Node::<V>::as_map_opt(n.right).dom().contains(k) ==> k > n.key,
            n.height == 1 + nmax(
                Node::<V>::height_opt(n.left),
                Node::<V>::height_opt(n.right),
            ),
            -1 <= Node::<V>::height_opt(n.left) as int - Node::<V>::height_opt(n.right) as int
                <= 1,
            n.as_map() == Node::<V>::as_map_opt(n.left).union_prefer_right(
                Node::<V>::as_map_opt(n.right),
            ).insert(n.key, n.value),
            n.as_map().dom().contains(n.key),
    {
    }

    /// Double rotation for a node that would lean left by two while its
    /// left child `l` leans right: `l`'s right child rises two levels to
    /// take the node's place, built in one piece so that no half-rotated
    /// state ever exists. The result is always exactly as tall as `l` was.
    fn rotate_left_right(key: i64, value: V, l: Box<Node<V>>, right: Option<Box<Node<V>>>) -> (n:
        Box<Node<V>>)
        requires
            l.well_formed(),
            Node::<V>::wf_opt(right),
            forall|k: i64| l.as_map().dom().contains(k) ==> k < key,
            forall|k: i64| Node::<V>::as_map_opt(right).dom().contains(k) ==> k > key,
            Node::<V>::height_opt(Some(l)) == Node::<V>::height_opt(right) + 2,
            Node::<V>::height_opt(l.left) < Node::<V>::height_opt(l.right),
        ensures
            n.well_formed(),
            n.as_map() == l.as_map().union_prefer_right(Node::<V>::as_map_opt(right)).insert(
                key,
                value,
            ),
            Node::<V>::height_opt(Some(n)) == Node::<V>::height_opt(Some(l)),
    {
        proof {
            Node::<V>::lemma_unfold(*l);
            assert(l.as_map().dom().contains(l.key));
        }
        let Node { key: lk, value: lv, height: _, left: ll, right: lr } = *l;
        let m = lr.unwrap();
        proof {
            assert(lr == Some(m));
            Node::<V>::lemma_unfold(*m);
            assert(Node::<V>::as_map_opt(lr) == m.as_map());
            assert(Node::<V>::height_opt(lr) == m.height);
            assert(Node::<V>::as_map_opt(lr).dom().contains(m.key));
            assert(l.as_map().dom().contains(m.key));
        }
        let Node { key: mk, value: mv, height: _, left: ml, right: mr } = *m;
        proof {
            assert forall|k: i64| Node::<V>::as_map_opt(ml).dom().contains(k) implies k > lk by {
                assert(m.as_map().dom().contains(k));
                assert(Node::<V>::as_map_opt(lr).dom().contains(k));
            }
        }
        let a = Node::<V>::join(lk, lv, ll, ml);
        proof {
            assert forall|k: i64| Node::<V>::as_map_opt(mr).dom().contains(k) implies k < key by {
                assert(m.as_map().dom().contains(k));
                assert(Node::<V>::as_map_opt(lr).dom().contains(k));
                assert(l.as_map().dom().contains(k));
            }
        }
        let b = Node::<V>::join(key, value, mr, right);
        proof {
            assert forall|k: i64| a.as_map().dom().contains(k) implies k < mk by {
                if k != lk && !Node::<V>::as_map_opt(ml).dom().contains(k) {
                    assert(Node::<V>::as_map_opt(ll).dom().contains(k));
                }
            }
            assert forall|k: i64| b.as_map().dom().contains(k) implies k > mk by {
                if k != key && !Node::<V>::as_map_opt(mr).dom().contains(k) {
                    assert(Node::<V>::as_map_opt(right).dom().contains(k));
                }
            }
        }
        let n = Node::<V>::join(mk, mv, Some(a), Some(b));
        proof {
            assert(Node::<V>::as_map_opt(Some(a)) == a.as_map());
            assert(Node::<V>::as_map_opt(Some(b)) == b.as_map());
            assert(n.as_map() =~= l.as_map().union_prefer_right(
                Node::<V>::as_map_opt(right),
            ).insert(key, value));
        }
        n
    }

    /// Mirror image of `rotate_left_right`: the node would lean right by
    /// two while its right child `r` leans left, so `r`'s left child rises
    /// two levels.
    fn rotate_right_left(key: i64, value: V, left: Option<Box<Node<V>>>, r: Box<Node<V>>) -> (n:
        Box<Node<V>>)
        requires
            r.well_formed(),
            Node::<V>::wf_opt(left),
            forall|k: i64| Node::<V>::as_map_opt(left).dom().contains(k) ==> k < key,
            forall|k: i64| r.as_map().dom().contains(k) ==> k > key,
            Node::<V>::height_opt(Some(r)) == Node::<V>::height_opt(left) + 2,
            Node::<V>::height_opt(r.right) < Node::<V>::height_opt(r.left),
        ensures
            n.well_formed(),
            n.as_map() == Node::<V>::as_map_opt(left).union_prefer_right(r.as_map()).insert(
                key,
                value,
            ),
            Node::<V>::height_opt(Some(n)) == Node::<V>::height_opt(Some(r)),
    {
        proof {
            Node::<V>::lemma_unfold(*r);
            assert(r.as_map().dom().contains(r.key));
        }
        let Node { key: rk, value: rv, height: _, left: rl, right: rr } = *r;
        let m = rl.unwrap();
        proof {
            assert(rl == Some(m));
            Node::<V>::lemma_unfold(*m);
            assert(Node::<V>::as_map_opt(rl) == m.as_map());
            assert(Node::<V>::height_opt(rl) == m.height);
            assert(Node::<V>::as_map_opt(rl).dom().contains(m.key));
            assert(r.as_map().dom().contains(m.key));
        }
        let Node { key: mk, value: mv, height: _, left: ml, right: mr } = *m;
        proof {
            assert forall|k: i64| Node::<V>::as_map_opt(ml).dom().contains(k) implies k > key by {
                assert(m.as_map().dom().contains(k));
                assert(Node::<V>::as_map_opt(rl).dom().contains(k));
                assert(r.as_map().dom().contains(k));
            }
        }
        let a = Node::<V>::join(key, value, left, ml);
        proof {
            assert forall|k: i64| Node::<V>::as_map_opt(mr).dom().contains(k) implies k < rk by {
                assert(m.as_map().dom().contains(k));
                assert(Node::<V>::as_map_opt(rl).dom().contains(k));
            }
        }
        let b = Node::<V>::join(rk, rv, mr, rr);
        proof {
            assert forall|k: i64| a.as_map().dom().contains(k) implies k < mk by {
                if k != key && !Node::<V>::as_map_opt(ml).dom().contains(k) {
                    assert(Node::<V>::as_map_opt(left).dom().contains(k));
                }
            }
            assert forall|k: i64| b.as_map().dom().contains(k) implies k > mk by {
                if k != rk && !Node::<V>::as_map_opt(mr).dom().contains(k) {
                    assert(Node::<V>::as_map_opt(rr).dom().contains(k));
                    assert(r.as_map().dom().contains(k));
                }
            }
        }
        let n = Node::<V>::join(mk, mv, Some(a), Some(b));
        proof {
            assert(Node::<V>::as_map_opt(Some(a)) == a.as_map());
            assert(Node::<V>::as_map_opt(Some(b)) == b.as_map());
            assert(n.as_map() =~= Node::<V>::as_map_opt(left).union_prefer_right(
                r.as_map(),
            ).insert(key, value));
        }
        n
    }

    /// The rebalance step: joins two well-formed subtrees whose heights may
    /// differ by up to two under the node `(key, value)`, restoring the
    /// balance invariant. Of the four classic cases, the two where the
    /// heavy child leans the same way (or not at all) take a single
    /// rotation; the two where it leans the opposite way take a double
    /// rotation. The result's height is the joined height or one less, and
    /// exactly the joined height when no rotation was needed.
    fn fixup(key: i64, value: V, left: Option<Box<Node<V>>>, right: Option<Box<Node<V>>>) -> (n:
        Box<Node<V>>)
        requires
            Node::<V>::wf_opt(left),
            Node::<V>::wf_opt(right),
            forall|k: i64| Node::<V>::as_map_opt(left).dom().contains(k) ==> k < key,
            forall|k: i64| Node::<V>::as_map_opt(right).dom().contains(k) ==> k > key,
            -2 <= Node::<V>::height_opt(left) as int - Node::<V>::height_opt(right) as int <= 2,
        ensures
            n.well_formed(),
            n.as_map() == Node::<V>::as_map_opt(left).union_prefer_right(
                Node::<V>::as_map_opt(right),
            ).insert(key, value),
            nmax(Node::<V>::height_opt(left), Node::<V>::height_opt(right)) <= Node::<
                V,
            >::height_opt(Some(n)) <= 1 + nmax(
                Node::<V>::height_opt(left),
                Node::<V>::height_opt(right),
            ),
            -1 <= Node::<V>::height_opt(left) as int - Node::<V>::height_opt(right) as int <= 1
                ==> Node::<V>::height_opt(Some(n)) == 1 + nmax(
                Node::<V>::height_opt(left),
                Node::<V>::height_opt(right),
            ),
    {
        let lh = Node::<V>::height_of(&left);
        let rh = Node::<V>::height_of(&right);
        proof {
            Node::<V>::lemma_height_fits(left);
            Node::<V>::lemma_height_fits(right);
        }
        if lh >= rh + 2 {
            let l = left.unwrap();
            proof {
                assert(left == Some(l));
                assert(Node::<V>::as_map_opt(left) == l.as_map());
                assert(Node::<V>::height_opt(left) == Node::<V>::height_opt(Some(l)));
                assert forall|k: i64| l.as_map().dom().contains(k) implies k < key by {
                    assert(Node::<V>::as_map_opt(left).dom().contains(k));
                }
            }
            if l.balance_factor() >= 0 {
                Node::<V>::rotate_right(key, value, l, right)
            } else {
                Node::<V>::rotate_left_right(key, value, l, right)
            }
        } else if rh >= lh + 2 {
            let r = right.unwrap();
            proof {
                assert(right == Some(r));
                assert(Node::<V>::as_map_opt(right) == r.as_map());
                assert(Node::<V>::height_opt(right) == Node::<V>::height_opt(Some(r)));
                assert forall|k: i64| r.as_map().dom().contains(k) implies k > key by {
                    assert(Node::<V>::as_map_opt(right).dom().contains(k));
                }
            }
            if r.balance_factor() <= 0 {
                Node::<V>::rotate_left(key, value, left, r)
            } else {
                Node::<V>::rotate_right_left(key, value, left, r)
            }
        } else {
            Node::<V>::join(key, value, left, right)
        }
    }
}

impl<V> Node<V> {
    /// Adds one mapping to a well-formed subtree, replacing the stored
    /// value in place when the key is already present, and rebalancing the
    /// descent path on the way back up. The result is at most one taller.
    fn insert_at(node: Option<Box<Node<V>>>, key: i64, value: V) -> (n: Box<Node<V>>)
        requires
            Node::<V>::wf_opt(node),
        ensures
            n.well_formed(),
            n.as_map() == Node::<V>::as_map_opt(node).insert(key, value),
            Node::<V>::height_opt(node) <= Node::<V>::height_opt(Some(n)) <= Node::<
                V,
            >::height_opt(node) + 1,
        decreases node,
    {
        match node {
            None => {
                let n = Box::new(Node { key, value, height: 1, left: None, right: None });
                proof {
                    assert(n.as_map() =~= Node::<V>::as_map_opt(node).insert(key, value));
                }
                n
            },
            Some(b) => {
                proof {
                    Node::<V>::lemma_unfold(*b);
                }
                let Node { key: nk, value: nv, height: _, left, right } = *b;
                if key < nk {
                    let nl = Node::<V>::insert_at(left, key, value);
                    proof {
                        assert(Node::<V>::as_map_opt(Some(nl)) == nl.as_map());
                        assert forall|k: i64|
                            Node::<V>::as_map_opt(Some(nl)).dom().contains(k) implies k < nk by {
                            if k != key {
                                assert(Node::<V>::as_map_opt(left).dom().contains(k));
                            }
                        }
                    }
                    let n = Node::<V>::fixup(nk, nv, Some(nl), right);
                    proof {
                        assert(n.as_map() =~= Node::<V>::as_map_opt(node).insert(key, value));
                    }
                    n
                } else if key > nk {
                    let nr = Node::<V>::insert_at(right, key, value);
                    proof {
                        assert(Node::<V>::as_map_opt(Some(nr)) == nr.as_map());
                        assert forall|k: i64|
                            Node::<V>::as_map_opt(Some(nr)).dom().contains(k) implies k > nk by {
                            if k != key {
                                assert(Node::<V>::as_map_opt(right).dom().contains(k));
                            }
                        }
                    }
                    let n = Node::<V>::fixup(nk, nv, left, Some(nr));
                    proof {
                        assert(n.as_map() =~= Node::<V>::as_map_opt(node).insert(key, value));
                    }
                    n
                } else {
                    // Equal key: the node keeps its place and height; only
                    // the stored value changes.
                    let n = Node::<V>::join(nk, value, left, right);
                    proof {
                        assert(n.as_map() =~= Node::<V>::as_map_opt(node).insert(key, value));
                    }
                    n
                }
            },
        }
    }

    /// Removes and returns the smallest mapping of a well-formed subtree,
    /// along with the rebalanced remainder, which is at most one shorter.
    fn remove_min(node: Box<Node<V>>) -> (res: (i64, V, Option<Box<Node<V>>>))
        requires
            node.well_formed(),
        ensures
            Node::<V>::wf_opt(res.2),
            node.as_map().dom().contains(res.0),
            node.as_map()[res.0] == res.1,
            forall|k: i64| #[trigger]
                node.as_map().dom().contains(k) && k != res.0 ==> res.0 < k,
            Node::<V>::as_map_opt(res.2) == node.as_map().remove(res.0),
            Node::<V>::height_opt(Some(node)) - 1 <= Node::<V>::height_opt(res.2) <= Node::<
                V,
            >::height_opt(Some(node)),
        decreases node,
    {
        proof {
            Node::<V>::lemma_unfold(*node);
        }
        let Node { key: nk, value: nv, height: _, left, right } = *node;
        match left {
            None => {
                proof {
                    assert(node.as_map().dom().contains(nk));
                    assert(!Node::<V>::as_map_opt(right).dom().contains(nk));
                    assert(Node::<V>::as_map_opt(right) =~= node.as_map().remove(nk));
                    assert(node.as_map()[nk] == nv);
                }
                (nk, nv, right)
            },
            Some(lb) => {
                proof {
                    assert(left == Some(lb));
                    assert(Node::<V>::as_map_opt(left) == lb.as_map());
                }
                let (mink, minv, nl) = Node::<V>::remove_min(lb);
                proof {
                    assert forall|k: i64|
                        Node::<V>::as_map_opt(nl).dom().contains(k) implies k < nk by {
                        assert(lb.as_map().dom().contains(k));
                        assert(Node::<V>::as_map_opt(left).dom().contains(k));
                    }
                }
                let n = Node::<V>::fixup(nk, nv, nl, right);
                proof {
                    assert(Node::<V>::as_map_opt(left).dom().contains(mink));
                    assert(node.as_map().dom().contains(mink));
                    assert(!Node::<V>::as_map_opt(right).dom().contains(mink));
                    assert(node.as_map()[mink] == minv);
                    assert forall|k: i64|
                        node.as_map().dom().contains(k) && k != mink implies mink < k by {
                        if k != nk && !Node::<V>::as_map_opt(right).dom().contains(k) {
                            assert(Node::<V>::as_map_opt(left).dom().contains(k));
                            assert(lb.as_map().dom().contains(k));
                        }
                    }
                    assert(Node::<V>::as_map_opt(Some(n)) == n.as_map());
                    assert(n.as_map() =~= node.as_map().remove(mink));
                }
                (mink, minv, Some(n))
            },
        }
    }

    /// Removes the mapping for `key` from a well-formed subtree if one is
    /// present, rebalancing the descent path; absent keys leave the subtree
    /// unchanged. The result is at most one shorter.
    fn delete_at(node: Option<Box<Node<V>>>, key: i64) -> (r: Option<Box<Node<V>>>)
        requires
            Node::<V>::wf_opt(node),
        ensures
            Node::<V>::wf_opt(r),
            Node::<V>::as_map_opt(r) == Node::<V>::as_map_opt(node).remove(key),
            Node::<V>::height_opt(node) - 1 <= Node::<V>::height_opt(r) <= Node::<
                V,
            >::height_opt(node),
        decreases node,
    {
        match node {
            None => {
                proof {
                    assert(Node::<V>::as_map_opt(node).remove(key) =~= Node::<V>::as_map_opt(
                        node,
                    ));
                }
                None
            },
            Some(b) => {
                proof {
                    Node::<V>::lemma_unfold(*b);
                }
                let Node { key: nk, value: nv, height: _, left, right } = *b;
                if key < nk {
                    let nl = Node::<V>::delete_at(left, key);
                    proof {
                        assert forall|k: i64|
                            Node::<V>::as_map_opt(nl).dom().contains(k) implies k < nk by {
                            assert(Node::<V>::as_map_opt(left).dom().contains(k));
                        }
                    }
                    let n = Node::<V>::fixup(nk, nv, nl, right);
                    proof {
                        assert(Node::<V>::as_map_opt(Some(n)) == n.as_map());
                        assert(n.as_map() =~= Node::<V>::as_map_opt(node).remove(key));
                    }
                    Some(n)
                } else if key > nk {
                    let nr = Node::<V>::delete_at(right, key);
                    proof {
                        assert forall|k: i64|
                            Node::<V>::as_map_opt(nr).dom().contains(k) implies k > nk by {
                            assert(Node::<V>::as_map_opt(right).dom().contains(k));
                        }
                    }
                    let n = Node::<V>::fixup(nk, nv, left, nr);
                    proof {
                        assert(Node::<V>::as_map_opt(Some(n)) == n.as_map());
                        assert(n.as_map() =~= Node::<V>::as_map_opt(node).remove(key));
                    }
                    Some(n)
                } else {
                    if left.is_none() {
                        proof {
                            assert(!Node::<V>::as_map_opt(right).dom().contains(nk));
                            assert(Node::<V>::as_map_opt(right) =~= Node::<V>::as_map_opt(
                                node,
                            ).remove(key));
                        }
                        right
                    } else if right.is_none() {
                        proof {
                            assert(!Node::<V>::as_map_opt(left).dom().contains(nk));
                            assert(Node::<V>::as_map_opt(left) =~= Node::<V>::as_map_opt(
                                node,
                            ).remove(key));
                        }
                        left
                    } else {
                        // Two children: the in-order successor (the smallest
                        // key of the right subtree) takes this node's place.
                        let rb = right.unwrap();
                        proof {
                            assert(right == Some(rb));
                            assert(Node::<V>::as_map_opt(right) == rb.as_map());
                        }
                        let (mink, minv, nr) = Node::<V>::remove_min(rb);
                        proof {
                            assert(Node::<V>::as_map_opt(right).dom().contains(mink));
                            assert forall|k: i64|
                                Node::<V>::as_map_opt(left).dom().contains(k) implies k
                                < mink by {}
                            assert forall|k: i64|
                                Node::<V>::as_map_opt(nr).dom().contains(k) implies k > mink by {
                                assert(rb.as_map().dom().contains(k));
                            }
                        }
                        let n = Node::<V>::fixup(mink, minv, left, nr);
                        proof {
                            assert(!Node::<V>::as_map_opt(left).dom().contains(nk));
                            assert(Node::<V>::as_map_opt(Some(n)) == n.as_map());
                            assert(n.as_map() =~= Node::<V>::as_map_opt(node).remove(key));
                        }
                        Some(n)
                    }
                }
            },
        }
    }
}

impl<V> Node<V> {
    /// Binary-search descent: returns the stored value for `key`, or
    /// nothing when the subtree does not hold the key.
    fn search<'a>(node: &'a Option<Box<Node<V>>>, key: i64) -> (r: Option<&'a V>)
        requires
            Node::<V>::wf_opt(*node),
        ensures
            match r {
                Some(v) => Node::<V>::as_map_opt(*node).dom().contains(key) && *v == Node::<
                    V,
                >::as_map_opt(*node)[key],
                None => !Node::<V>::as_map_opt(*node).dom().contains(key),
            },
        decreases node,
    {
        match node {
            None => None,
            Some(n) => {
                proof {
                    Node::<V>::lemma_unfold(**n);
                }
                if key < n.key {
                    proof {
                        assert(!Node::<V>::as_map_opt(n.right).dom().contains(key));
                    }
                    Node::<V>::search(&n.left, key)
                } else if key > n.key {
                    proof {
                        assert(!Node::<V>::as_map_opt(n.left).dom().contains(key));
                    }
                    Node::<V>::search(&n.right, key)
                } else {
                    proof {
                        assert(Node::<V>::as_map_opt(*node)[key] == n.value);
                    }
                    Some(&n.value)
                }
            },
        }
    }

    /// Appends the subtree's keys to `out` in symmetric order.
    fn in_order_walk(node: &Option<Box<Node<V>>>, out: &mut Vec<i64>)
        ensures
            final(out)@ == old(out)@ + Node::<V>::in_order(*node),
        decreases node,
    {
        match node {
            None => {
                proof {
                    assert(out@ =~= old(out)@ + Node::<V>::in_order(*node));
                }
            },
            Some(n) => {
                Node::<V>::in_order_walk(&n.left, out);
                out.push(n.key);
                Node::<V>::in_order_walk(&n.right, out);
                proof {
                    assert(out@ =~= old(out)@ + Node::<V>::in_order(*node));
                }
            },
        }
    }

    /// The symmetric-order key sequence of a well-formed subtree is
    /// strictly ascending, lists each stored key exactly once, and lists
    /// nothing else.
    proof fn lemma_in_order_props(node: Option<Box<Node<V>>>)
        requires
            Node::<V>::wf_opt(node),
        ensures
            Node::<V>::in_order(node).len() == Node::<V>::size_opt(node),
            forall|k: i64| #[trigger]
                Node::<V>::in_order(node).contains(k) <==> Node::<V>::as_map_opt(
                    node,
                ).dom().contains(k),
            forall|i: int, j: int|
                0 <= i < j < Node::<V>::in_order(node).len() ==> Node::<V>::in_order(node)[i]
                    < Node::<V>::in_order(node)[j],
        decreases node,
    {
        match node {
            None => {
                assert(Node::<V>::as_map_opt(node).dom() =~= Set::<i64>::empty());
            },
            Some(n) => {
                Node::<V>::lemma_unfold(*n);
                Node::<V>::lemma_in_order_props(n.left);
                Node::<V>::lemma_in_order_props(n.right);
                let s = Node::<V>::in_order(node);
                let ls = Node::<V>::in_order(n.left);
                let rs = Node::<V>::in_order(n.right);
                assert(s == ls + seq![n.key] + rs);
                assert forall|k: i64| #[trigger]
                    s.contains(k) implies Node::<V>::as_map_opt(node).dom().contains(k) by {
                    let i = choose|i: int| 0 <= i < s.len() && s[i] == k;
                    if i < ls.len() {
                        assert(ls[i] == k);
                        assert(ls.contains(k));
                        assert(Node::<V>::as_map_opt(n.left).dom().contains(k));
                    } else if i == ls.len() {
                        assert(k == n.key);
                    } else {
                        assert(rs[i - ls.len() - 1] == k);
                        assert(rs.contains(k));
                        assert(Node::<V>::as_map_opt(n.right).dom().contains(k));
                    }
                }
                assert forall|k: i64|
                    Node::<V>::as_map_opt(node).dom().contains(k) implies #[trigger] s.contains(
                    k,
                ) by {
                    if k == n.key {
                        assert(s[ls.len() as int] == k);
                    } else if Node::<V>::as_map_opt(n.left).dom().contains(k) {
                        assert(ls.contains(k));
                        let i = choose|i: int| 0 <= i < ls.len() && ls[i] == k;
                        assert(s[i] == k);
                    } else {
                        assert(Node::<V>::as_map_opt(n.right).dom().contains(k));
                        assert(rs.contains(k));
                        let i = choose|i: int| 0 <= i < rs.len() && rs[i] == k;
                        assert(s[ls.len() + 1 + i] == k);
                    }
                }
                assert forall|i: int, j: int| 0 <= i < j < s.len() implies s[i] < s[j] by {
                    if i < ls.len() {
                        assert(s[i] == ls[i]);
                        assert(ls.contains(ls[i]));
                        assert(Node::<V>::as_map_opt(n.left).dom().contains(ls[i]));
                    } else if i == ls.len() {
                        assert(s[i] == n.key);
                    } else {
                        assert(s[i] == rs[i - ls.len() - 1]);
                    }
                    if j < ls.len() {
                        assert(s[j] == ls[j]);
                    } else if j == ls.len() {
                        assert(s[j] == n.key);
                    } else {
                        assert(s[j] == rs[j - ls.len() - 1]);
                        assert(rs.contains(rs[j - ls.len() - 1]));
                        assert(Node::<V>::as_map_opt(n.right).dom().contains(
                            rs[j - ls.len() - 1],
                        ));
                    }
                }
            },
        }
    }
}

impl<V> AVLTree<V> {
    /// The mapping this tree stores.
    pub closed spec fn as_map(self) -> Map<i64, V> {
        Node::<V>::as_map_opt(self.root)
    }

    /// The tree's height: 0 when empty, otherwise the root's height.
    pub closed spec fn height(self) -> nat {
        Node::<V>::height_opt(self.root)
    }

    /// The number of nodes the tree holds.
    pub closed spec fn size(self) -> nat {
        Node::<V>::size_opt(self.root)
    }

    /// The stored keys in ascending order.
    pub closed spec fn key_seq(self) -> Seq<i64> {
        Node::<V>::in_order(self.root)
    }

    /// The tree's invariant: the root subtree, if any, is a well-formed
    /// AVL tree.
    pub closed spec fn well_formed(self) -> bool {
        Node::<V>::wf_opt(self.root)
    }

    /// An empty tree.
    pub fn new() -> (t: AVLTree<V>)
        ensures
            t.well_formed(),
            t.as_map() == Map::<i64, V>::empty(),
            t.height() == 0,
            t.size() == 0,
    {
        AVLTree { root: None }
    }

    /// Adds the mapping `key -> value`, replacing the stored value when the
    /// key is already present. The whole descent path is rebalanced, so the
    /// tree stays well formed and grows by at most one level.
    pub fn insert(&mut self, key: i64, value: V)
        requires
            old(self).well_formed(),
        ensures
            final(self).well_formed(),
            final(self).as_map() == old(self).as_map().insert(key, value),
            old(self).height() <= final(self).height() <= old(self).height() + 1,
    {
        let root = self.root.take();
        let n = Node::<V>::insert_at(root, key, value);
        proof {
            assert(Node::<V>::as_map_opt(Some(n)) == n.as_map());
        }
        self.root = Some(n);
    }

    /// Removes the mapping for `key` if one is present; a no-op otherwise.
    /// The remaining tree is rebalanced and shrinks by at most one level.
    pub fn delete(&mut self, key: &i64)
        requires
            old(self).well_formed(),
        ensures
            final(self).well_formed(),
            final(self).as_map() == old(self).as_map().remove(*key),
            old(self).height() - 1 <= final(self).height() <= old(self).height(),
    {
        let root = self.root.take();
        self.root = Node::<V>::delete_at(root, *key);
    }

    /// Looks `key` up: a borrow of the most recently inserted value for it,
    /// or nothing when the key was never inserted or has been deleted.
    pub fn get(&self, key: &i64) -> (r: Option<&V>)
        requires
            self.well_formed(),
        ensures
            match r {
                Some(v) => self.as_map().dom().contains(*key) && *v == self.as_map()[*key],
                None => !self.as_map().dom().contains(*key),
            },
    {
        Node::<V>::search(&self.root, *key)
    }

    /// The root's cached height, 0 for an empty tree: a constant-time
    /// diagnostic, zero exactly when the tree holds nothing.
    pub fn get_height(&self) -> (h: usize)
        requires
            self.well_formed(),
        ensures
            h == self.height(),
            h == 0 <==> self.as_map() == Map::<i64, V>::empty(),
    {
        match &self.root {
            None => {
                proof {
                    assert(self.as_map() =~= Map::<i64, V>::empty());
                }
                0
            },
            Some(n) => {
                proof {
                    Node::<V>::lemma_unfold(**n);
                    assert(self.as_map().dom().contains(n.key));
                    assert(!Map::<i64, V>::empty().dom().contains(n.key));
                }
                n.height
            },
        }
    }

    /// Walks the tree in symmetric order: the stored keys, each exactly
    /// once, strictly ascending.
    pub fn travel(&self) -> (keys: Vec<i64>)
        requires
            self.well_formed(),
        ensures
            keys@ == self.key_seq(),
            keys@.len() == self.size(),
            forall|i: int, j: int| 0 <= i < j < keys@.len() ==> keys@[i] < keys@[j],
            forall|k: i64| #[trigger] keys@.contains(k) <==> self.as_map().dom().contains(k),
    {
        let mut keys = Vec::new();
        Node::<V>::in_order_walk(&self.root, &mut keys);
        proof {
            assert(keys@ =~= Node::<V>::in_order(self.root));
            Node::<V>::lemma_in_order_props(self.root);
        }
        keys
    }

    /// The AVL height bound: a tree holding `n` keys is at most about twice
    /// the base-two logarithm of `n` high, stated exactly as
    /// `2^(height / 2) <= n + 1`. The node count equals the key count,
    /// since the keys are pairwise distinct.
    pub proof fn lemma_height_bound(t: AVLTree<V>)
        requires
            t.well_formed(),
        ensures
            t.as_map().dom().finite(),
            t.size() == t.as_map().dom().len(),
            pow2(t.height() / 2) <= t.as_map().dom().len() + 1,
    {
        Node::<V>::lemma_size_is_key_count(t.root);
        Node::<V>::lemma_height_le_size(t.root);
    }

    /// Deleting a key that was absent before it was inserted restores the
    /// stored mapping exactly; in particular every other key still holds
    /// the value it held before.
    pub proof fn lemma_insert_delete_inverse(t: AVLTree<V>, key: i64, value: V)
        requires
            t.well_formed(),
            !t.as_map().dom().contains(key),
        ensures
            t.as_map().insert(key, value).remove(key) == t.as_map(),
    {
        assert(t.as_map().insert(key, value).remove(key) =~= t.as_map());
    }
}

impl<V> View for AVLTree<V> {
    type V = Map<i64, V>;

    open spec fn view(&self) -> Map<i64, V> {
        self.as_map()
    }
}

} // verus!
