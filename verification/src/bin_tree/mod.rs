//! The tree type, its mathematical model and its basic accessors.

use vstd::prelude::*;

pub mod formatted;
pub mod heights;
pub mod iter;
pub mod laws;
pub mod order;
pub mod search;
pub mod utils_insertion;
pub mod utils_lookup;
pub mod utils_removal;
pub mod utils_swap;
pub mod utils;

verus! {

/// A binary tree: either empty, or a boxed node with a value and two subtrees.
///
/// `height` caches the height of the tree. The functions that keep it up to
/// date say so in their contracts through [`BinTree::heights_ok`]; structural
/// edits through the accessors leave it alone.
#[derive(Debug, PartialEq)]
pub struct BinTree<Item> {
    pub root: Option<Box<BinTreeNode<Item>>>,
    pub height: isize,
}

/// The node at the top of a non-empty tree.
#[derive(Debug, PartialEq)]
pub struct BinTreeNode<Item> {
    pub value: Item,
    pub left: BinTree<Item>,
    pub right: BinTree<Item>,
}

/// The larger of two integers.
pub open spec fn max_int(a: int, b: int) -> int {
    if a >= b {
        a
    } else {
        b
    }
}

/// A machine position as a mathematical integer.
pub open spec fn index_of(i: usize) -> int {
    i as int
}

/// Taking as many items as there are takes them all.
pub proof fn lemma_take_all<T>(s: Seq<T>)
    ensures
        s.take(s.len() as int) == s,
{
    assert(s.take(s.len() as int) =~= s);
}

impl<Item> BinTree<Item> {
    /// The empty tree.
    pub open spec fn spec_new() -> Self {
        BinTree { root: None, height: 0 }
    }

    /// A node over two subtrees, with the cached height taken from theirs.
    pub open spec fn spec_new_node(value: Item, left: Self, right: Self) -> Self {
        BinTree {
            root: Some(Box::new(BinTreeNode { value, left, right })),
            height: (max_int(left.height as int, right.height as int) + 1) as isize,
        }
    }

    /// A node without children.
    pub open spec fn spec_new_leaf(value: Item) -> Self {
        Self::spec_new_node(value, Self::spec_new(), Self::spec_new())
    }

    /// The value at the top; meaningful on a non-empty tree only.
    pub open spec fn top(self) -> Item
        recommends
            self.root is Some,
    {
        self.root.unwrap().value
    }

    /// The left subtree; meaningful on a non-empty tree only.
    pub open spec fn lhs(self) -> Self
        recommends
            self.root is Some,
    {
        self.root.unwrap().left
    }

    /// The right subtree; meaningful on a non-empty tree only.
    pub open spec fn rhs(self) -> Self
        recommends
            self.root is Some,
    {
        self.root.unwrap().right
    }

    /// The same tree with another cached height at the top.
    pub open spec fn with_height(self, height: isize) -> Self {
        BinTree { root: self.root, height }
    }

    /// The items from left to right: left subtree, value, right subtree.
    pub open spec fn inorder(self) -> Seq<Item>
        decreases self,
    {
        match self.root {
            None => Seq::empty(),
            Some(node) => node.left.inorder().push(node.value) + node.right.inorder(),
        }
    }

    /// The items with each value before its subtrees.
    pub open spec fn preorder(self) -> Seq<Item>
        decreases self,
    {
        match self.root {
            None => Seq::empty(),
            Some(node) => seq![node.value] + node.left.preorder() + node.right.preorder(),
        }
    }

    /// The items with each value after its subtrees.
    pub open spec fn postorder(self) -> Seq<Item>
        decreases self,
    {
        match self.root {
            None => Seq::empty(),
            Some(node) => (node.left.postorder() + node.right.postorder()).push(node.value),
        }
    }

    /// The tree with the item at position `i`, counted from the left, replaced
    /// by `v`; shape and heights stay.
    pub open spec fn update_at(self, i: int, v: Item) -> Self
        decreases self,
    {
        match self.root {
            None => self,
            Some(node) => {
                let n = node.left.inorder().len();
                if i < n {
                    Self::spec_new_node(node.value, node.left.update_at(i, v), node.right).with_height(
                        self.height,
                    )
                } else if i == n {
                    Self::spec_new_node(v, node.left, node.right).with_height(self.height)
                } else {
                    Self::spec_new_node(
                        node.value,
                        node.left,
                        node.right.update_at(i - n - 1, v),
                    ).with_height(self.height)
                }
            },
        }
    }

    /// Replacing an item leaves everything but that item as it was.
    pub proof fn lemma_update_at(self, i: int, v: Item)
        requires
            0 <= i < self.inorder().len(),
        ensures
            self.update_at(i, v).inorder() == self.inorder().update(i, v),
            self.update_at(i, v).height == self.height,
            self.update_at(i, v).size() == self.size(),
            self.update_at(i, v).heights_ok() == self.heights_ok(),
            self.update_at(i, v).balanced() == self.balanced(),
            self.update_at(i, v).root is Some,
        decreases self,
    {
        match self.root {
            None => {},
            Some(node) => {
                let n = node.left.inorder().len();
                if i < n {
                    node.left.lemma_update_at(i, v);
                } else if i > n {
                    node.right.lemma_update_at(i - n - 1, v);
                }
                assert(self.update_at(i, v).inorder() =~= self.inorder().update(i, v));
            },
        }
    }

    /// Whether `other` has the same shape and the same cached heights.
    pub open spec fn same_shape<Other>(self, other: BinTree<Other>) -> bool
        decreases self,
    {
        &&& self.height == other.height
        &&& match self.root {
            None => other.root is None,
            Some(node) => {
                &&& other.root is Some
                &&& node.left.same_shape(other.lhs())
                &&& node.right.same_shape(other.rhs())
            },
        }
    }

    /// A tree of the same shape as this one has as many items, the same
    /// depth, and right heights and balance exactly when this one has them.
    pub proof fn lemma_same_shape<Other>(self, other: BinTree<Other>)
        requires
            self.same_shape(other),
        ensures
            self.height == other.height,
            self.count() == other.count(),
            self.depth() == other.depth(),
            self.heights_ok() == other.heights_ok(),
            self.balanced() == other.balanced(),
        decreases self,
    {
        if self.root is None {
            assert(self.inorder() =~= Seq::<Item>::empty());
            assert(other.inorder() =~= Seq::<Other>::empty());
            assert(other.root is None);
            assert(self.heights_ok() == (self.height == 0));
            assert(other.heights_ok() == (other.height == 0));
            assert(self.balanced());
            assert(other.balanced());
        } else {
            assert(other.root is Some);
            self.lhs().lemma_same_shape(other.lhs());
            self.rhs().lemma_same_shape(other.rhs());
            assert(self.inorder().len() == self.lhs().inorder().len() + 1
                + self.rhs().inorder().len());
            assert(other.inorder().len() == other.lhs().inorder().len() + 1
                + other.rhs().inorder().len());
            assert(self.lhs().height == other.lhs().height);
            assert(self.rhs().height == other.rhs().height);
            assert(self.heights_ok() == (self.lhs().heights_ok() && self.rhs().heights_ok()
                && self.height == max_int(self.lhs().height as int, self.rhs().height as int)
                + 1));
            assert(other.heights_ok() == (other.lhs().heights_ok() && other.rhs().heights_ok()
                && other.height == max_int(
                other.lhs().height as int,
                other.rhs().height as int,
            ) + 1));
            assert(self.balanced() == (-1 <= self.spec_balance() <= 1 && self.lhs().balanced()
                && self.rhs().balanced()));
            assert(other.balanced() == (-1 <= other.spec_balance() <= 1
                && other.lhs().balanced() && other.rhs().balanced()));
        }
    }

    /// Every tree has its own shape, and keeps it when an item is replaced.
    pub proof fn lemma_same_shape_self(self)
        ensures
            self.same_shape(self),
            forall|i: int, v: Item| self.same_shape(#[trigger] self.update_at(i, v)),
        decreases self,
    {
        match self.root {
            None => {},
            Some(node) => {
                node.left.lemma_same_shape_self();
                node.right.lemma_same_shape_self();
                assert forall|i: int, v: Item| self.same_shape(#[trigger] self.update_at(i, v)) by {
                    let n = node.left.inorder().len();
                    let u = self.update_at(i, v);
                    if i < n {
                        assert(u.lhs() == node.left.update_at(i, v));
                        assert(u.rhs() == node.right);
                    } else if i == n {
                        assert(u.lhs() == node.left);
                        assert(u.rhs() == node.right);
                    } else {
                        assert(u.lhs() == node.left);
                        assert(u.rhs() == node.right.update_at(i - n - 1, v));
                    }
                }
            },
        }
    }

    /// The number of items, as an integer.
    pub open spec fn count(self) -> int {
        self.inorder().len() as int
    }

    /// The number of nodes.
    pub open spec fn size(self) -> nat
        decreases self,
    {
        match self.root {
            None => 0,
            Some(node) => node.left.size() + 1 + node.right.size(),
        }
    }

    /// The number of nodes on the longest path from the top downwards.
    pub open spec fn depth(self) -> nat
        decreases self,
    {
        match self.root {
            None => 0,
            Some(node) => (max_int(node.left.depth() as int, node.right.depth() as int) + 1) as nat,
        }
    }

    /// Every cached height, at the top and below, equals the real one.
    pub open spec fn heights_ok(self) -> bool
        decreases self,
    {
        match self.root {
            None => self.height == 0,
            Some(node) => {
                &&& node.left.heights_ok()
                &&& node.right.heights_ok()
                &&& self.height == max_int(node.left.height as int, node.right.height as int) + 1
            },
        }
    }

    /// No cached height, at the top or below, is negative.
    pub open spec fn heights_nonneg(self) -> bool
        decreases self,
    {
        &&& self.height >= 0
        &&& match self.root {
            None => true,
            Some(node) => node.left.heights_nonneg() && node.right.heights_nonneg(),
        }
    }

    /// Cached height of the left subtree minus that of the right one; 0 when empty.
    pub open spec fn spec_balance(self) -> int {
        match self.root {
            None => 0,
            Some(node) => node.left.height - node.right.height,
        }
    }

    /// Every node's balance factor lies between -1 and 1.
    pub open spec fn balanced(self) -> bool
        decreases self,
    {
        match self.root {
            None => true,
            Some(node) => {
                &&& -1 <= self.spec_balance() <= 1
                &&& node.left.balanced()
                &&& node.right.balanced()
            },
        }
    }

    /// The heights are right and the tree is balanced.
    pub open spec fn is_avl(self) -> bool {
        self.heights_ok() && self.balanced()
    }

    /// On a tree with right heights, the cached height is the depth.
    pub proof fn lemma_heights_ok_depth(self)
        requires
            self.heights_ok(),
        ensures
            self.height == self.depth(),
            self.heights_nonneg(),
        decreases self,
    {
        match self.root {
            None => {},
            Some(node) => {
                node.left.lemma_heights_ok_depth();
                node.right.lemma_heights_ok_depth();
            },
        }
    }

    /// What right heights say about the top of a tree: the cached height is not
    /// negative and is 0 exactly for the empty tree, and the subtrees of a node
    /// have right heights themselves.
    pub proof fn lemma_heights_top(self)
        requires
            self.heights_ok(),
        ensures
            self.height >= 0,
            self.root is None <==> self.height == 0,
            self.root is Some ==> self.lhs().heights_ok() && self.rhs().heights_ok() && self.height
                == max_int(self.lhs().height as int, self.rhs().height as int) + 1
                && self.lhs().height >= 0 && self.rhs().height >= 0,
    {
        self.lemma_heights_ok_depth();
        if self.root is Some {
            self.lhs().lemma_heights_ok_depth();
            self.rhs().lemma_heights_ok_depth();
        }
    }

    /// A tree is no deeper than it has items.
    pub proof fn lemma_depth_le_count(self)
        ensures
            self.depth() <= self.count(),
        decreases self,
    {
        match self.root {
            None => {},
            Some(node) => {
                node.left.lemma_depth_le_count();
                node.right.lemma_depth_le_count();
                assert(self.inorder().len() == node.left.inorder().len() + 1
                    + node.right.inorder().len());
            },
        }
    }

    /// The three orders hold the same number of items, the size of the tree.
    pub proof fn lemma_order_lengths(self)
        ensures
            self.inorder().len() == self.size(),
            self.preorder().len() == self.size(),
            self.postorder().len() == self.size(),
        decreases self,
    {
        match self.root {
            None => {},
            Some(node) => {
                node.left.lemma_order_lengths();
                node.right.lemma_order_lengths();
            },
        }
    }

    /// Creates a branch over two subtrees.
    pub fn new_node(value: Item, left: BinTree<Item>, right: BinTree<Item>) -> (t: Self)
        requires
            left.height < isize::MAX,
            right.height < isize::MAX,
        ensures
            t == Self::spec_new_node(value, left, right),
    {
        let height = if left.height >= right.height {
            left.height + 1
        } else {
            right.height + 1
        };
        Self { root: Some(Box::new(BinTreeNode { value, left, right })), height }
    }

    /// Creates a leaf.
    pub fn new_leaf(item: Item) -> (t: Self)
        ensures
            t == Self::spec_new_leaf(item),
            t.inorder() == seq![item],
            t.is_avl(),
            t.height == 1,
    {
        let t = Self::new_node(item, Self::new(), Self::new());
        proof {
            assert(t.lhs().inorder() =~= Seq::<Item>::empty());
            assert(t.rhs().inorder() =~= Seq::<Item>::empty());
            assert(t.inorder() =~= seq![item]);
            assert(t.lhs().is_avl() && t.rhs().is_avl());
        }
        t
    }

    /// Creates an empty tree.
    pub fn new() -> (t: Self)
        ensures
            t == Self::spec_new(),
    {
        Self { root: None, height: 0 }
    }

    /// The cached height of the tree, 0 for an empty one.
    pub fn height(&self) -> (h: isize)
        ensures
            h == self.height,
    {
        self.height
    }

    /// Recomputes the cached height of the top node from its two subtrees and
    /// returns it; an empty tree is left alone and 0 is returned.
    pub fn update_height(&mut self) -> (h: isize)
        requires
            old(self).root is Some ==> old(self).lhs().height < isize::MAX && old(self).rhs().height
                < isize::MAX,
        ensures
            old(self).root is None ==> h == 0 && *final(self) == *old(self),
            old(self).root is Some ==> h == max_int(
                old(self).lhs().height as int,
                old(self).rhs().height as int,
            ) + 1 && *final(self) == old(self).with_height(h),
    {
        match &self.root {
            None => 0,
            Some(node) => {
                let h = if node.left.height >= node.right.height {
                    node.left.height + 1
                } else {
                    node.right.height + 1
                };
                self.height = h;
                h
            },
        }
    }

    /// Balance factor of the top node: cached height of the left subtree minus
    /// that of the right one; 0 for an empty tree.
    pub fn balance(&self) -> (b: isize)
        requires
            isize::MIN <= self.spec_balance() <= isize::MAX,
        ensures
            b == self.spec_balance(),
    {
        match &self.root {
            None => 0,
            Some(node) => node.left.height - node.right.height,
        }
    }

    /// Whether every node's balance factor lies between -1 and 1.
    pub fn is_balanced(&self) -> (b: bool)
        requires
            self.heights_nonneg(),
        ensures
            b == self.balanced(),
        decreases self,
    {
        match &self.root {
            None => true,
            Some(node) => {
                assert(node.left.heights_nonneg() && node.right.heights_nonneg());
                let b = node.left.height - node.right.height;
                b >= -1 && b <= 1 && node.left.is_balanced() && node.right.is_balanced()
            },
        }
    }

    /// Whether the tree is a node with at least one non-empty subtree.
    pub fn is_branch(&self) -> (b: bool)
        ensures
            b == (self.root is Some && (self.lhs().root is Some || self.rhs().root is Some)),
    {
        !self.is_empty() && !self.is_leaf()
    }

    /// Whether the tree is a node with two empty subtrees.
    pub fn is_leaf(&self) -> (b: bool)
        ensures
            b == (self.root is Some && self.lhs().root is None && self.rhs().root is None),
    {
        match &self.root {
            None => false,
            Some(node) => node.left.is_empty() && node.right.is_empty(),
        }
    }

    /// Whether the tree holds no node.
    pub fn is_empty(&self) -> (b: bool)
        ensures
            b == (self.root is None),
    {
        self.root.is_none()
    }

    /// The value at the top of the tree, if there is one.
    pub fn value(&self) -> (r: Option<&Item>)
        ensures
            self.root is None ==> r is None,
            self.root is Some ==> r == Some(&self.top()),
    {
        match &self.root {
            None => None,
            Some(node) => Some(&node.value),
        }
    }

    /// The left subtree, if the tree is not empty.
    pub fn left(&self) -> (r: Option<&BinTree<Item>>)
        ensures
            self.root is None ==> r is None,
            self.root is Some ==> r == Some(&self.lhs()),
    {
        match &self.root {
            None => None,
            Some(node) => Some(&node.left),
        }
    }

    /// The right subtree, if the tree is not empty.
    pub fn right(&self) -> (r: Option<&BinTree<Item>>)
        ensures
            self.root is None ==> r is None,
            self.root is Some ==> r == Some(&self.rhs()),
    {
        match &self.root {
            None => None,
            Some(node) => Some(&node.right),
        }
    }

    /// The value and both subtrees of the top node at once, by reference.
    pub fn node(&self) -> (r: Option<(&Item, &BinTree<Item>, &BinTree<Item>)>)
        ensures
            self.root is None ==> r is None,
            self.root is Some ==> r == Some((&self.top(), &self.lhs(), &self.rhs())),
    {
        match &self.root {
            None => None,
            Some(node) => Some((&node.value, &node.left, &node.right)),
        }
    }

    /// The value and both subtrees of the top node at once, each by an
    /// exclusive reference; what is written through them ends up in the tree,
    /// and the cached height at the top stays as it was.
    pub fn node_mut(&mut self) -> (r: Option<(&mut Item, &mut BinTree<Item>, &mut BinTree<Item>)>)
        ensures
            old(self).root is None ==> r is None && *final(self) == *old(self),
            old(self).root is Some ==> r is Some && *r.unwrap().0 == old(self).top()
                && *r.unwrap().1
                == old(self).lhs() && *r.unwrap().2 == old(self).rhs() && *final(self) == (BinTree {
                root: Some(
                    Box::new(
                        BinTreeNode {
                            value: *final(r.unwrap().0),
                            left: *final(r.unwrap().1),
                            right: *final(r.unwrap().2),
                        },
                    ),
                ),
                height: old(self).height,
            }),
    {
        match &mut self.root {
            None => None,
            Some(node) => {
                let n = &mut **node;
                Some((&mut n.value, &mut n.left, &mut n.right))
            },
        }
    }

    /// An exclusive reference to the value at the top, if there is one.
    pub fn value_mut(&mut self) -> (r: Option<&mut Item>)
        ensures
            old(self).root is None ==> r is None && *final(self) == *old(self),
            old(self).root is Some ==> r is Some && *r.unwrap() == old(self).top() && *final(self)
                == (
            BinTree {
                root: Some(
                    Box::new(
                        BinTreeNode {
                            value: *final(r.unwrap()),
                            left: old(self).lhs(),
                            right: old(self).rhs(),
                        },
                    ),
                ),
                height: old(self).height,
            }),
    {
        match &mut self.root {
            None => None,
            Some(node) => Some(&mut node.value),
        }
    }

    /// An exclusive reference to the left subtree, if the tree is not empty.
    pub fn left_mut(&mut self) -> (r: Option<&mut BinTree<Item>>)
        ensures
            old(self).root is None ==> r is None && *final(self) == *old(self),
            old(self).root is Some ==> r is Some && *r.unwrap() == old(self).lhs() && *final(self)
                == (
            BinTree {
                root: Some(
                    Box::new(
                        BinTreeNode {
                            value: old(self).top(),
                            left: *final(r.unwrap()),
                            right: old(self).rhs(),
                        },
                    ),
                ),
                height: old(self).height,
            }),
    {
        match &mut self.root {
            None => None,
            Some(node) => Some(&mut node.left),
        }
    }

    /// An exclusive reference to the right subtree, if the tree is not empty.
    pub fn right_mut(&mut self) -> (r: Option<&mut BinTree<Item>>)
        ensures
            old(self).root is None ==> r is None && *final(self) == *old(self),
            old(self).root is Some ==> r is Some && *r.unwrap() == old(self).rhs() && *final(self)
                == (
            BinTree {
                root: Some(
                    Box::new(
                        BinTreeNode {
                            value: old(self).top(),
                            left: old(self).lhs(),
                            right: *final(r.unwrap()),
                        },
                    ),
                ),
                height: old(self).height,
            }),
    {
        match &mut self.root {
            None => None,
            Some(node) => Some(&mut node.right),
        }
    }

    /// Consumes the tree and returns the value and both subtrees of its top node.
    pub fn into_node(self) -> (r: Option<(Item, BinTree<Item>, BinTree<Item>)>)
        ensures
            self.root is None ==> r is None,
            self.root is Some ==> r == Some((self.top(), self.lhs(), self.rhs())),
    {
        match self.root {
            None => None,
            Some(node) => {
                let n = *node;
                Some((n.value, n.left, n.right))
            },
        }
    }

    /// Consumes the tree and returns the value at its top.
    pub fn into_value(self) -> (r: Option<Item>)
        ensures
            self.root is None ==> r is None,
            self.root is Some ==> r == Some(self.top()),
    {
        match self.root {
            None => None,
            Some(node) => {
                let n = *node;
                Some(n.value)
            },
        }
    }

    /// Consumes the tree and returns its left subtree.
    pub fn into_left(self) -> (r: Option<BinTree<Item>>)
        ensures
            self.root is None ==> r is None,
            self.root is Some ==> r == Some(self.lhs()),
    {
        match self.root {
            None => None,
            Some(node) => {
                let n = *node;
                Some(n.left)
            },
        }
    }

    /// Consumes the tree and returns its right subtree.
    pub fn into_right(self) -> (r: Option<BinTree<Item>>)
        ensures
            self.root is None ==> r is None,
            self.root is Some ==> r == Some(self.rhs()),
    {
        match self.root {
            None => None,
            Some(node) => {
                let n = *node;
                Some(n.right)
            },
        }
    }

    /// Replaces the top node. An empty tree becomes a fresh node with its
    /// height taken from the subtrees; a non-empty one keeps its cached height.
    pub fn set_node(&mut self, value: Item, left: BinTree<Item>, right: BinTree<Item>)
        requires
            old(self).root is None ==> left.height < isize::MAX && right.height < isize::MAX,
        ensures
            old(self).root is None ==> *final(self) == Self::spec_new_node(value, left, right),
            old(self).root is Some ==> *final(self) == Self::spec_new_node(
                value,
                left,
                right,
            ).with_height(old(self).height),
    {
        match &mut self.root {
            None => {
                *self = Self::new_node(value, left, right);
            },
            Some(node) => {
                node.value = value;
                node.left = left;
                node.right = right;
            },
        }
    }

    /// Replaces the value at the top; an empty tree becomes a leaf.
    pub fn set_value(&mut self, value: Item)
        ensures
            old(self).root is None ==> *final(self) == Self::spec_new_leaf(value),
            old(self).root is Some ==> *final(self) == Self::spec_new_node(
                value,
                old(self).lhs(),
                old(self).rhs(),
            ).with_height(old(self).height),
    {
        match &mut self.root {
            None => {
                *self = Self::new_leaf(value);
            },
            Some(node) => {
                node.value = value;
            },
        }
    }

    /// Replaces the left subtree and says whether there was a node to hold it.
    pub fn set_left(&mut self, left: BinTree<Item>) -> (done: bool)
        ensures
            done == (old(self).root is Some),
            !done ==> *final(self) == *old(self),
            done ==> *final(self) == Self::spec_new_node(
                old(self).top(),
                left,
                old(self).rhs(),
            ).with_height(old(self).height),
    {
        match &mut self.root {
            None => false,
            Some(node) => {
                node.left = left;
                true
            },
        }
    }

    /// Replaces the right subtree and says whether there was a node to hold it.
    pub fn set_right(&mut self, right: BinTree<Item>) -> (done: bool)
        ensures
            done == (old(self).root is Some),
            !done ==> *final(self) == *old(self),
            done ==> *final(self) == Self::spec_new_node(
                old(self).top(),
                old(self).lhs(),
                right,
            ).with_height(old(self).height),
    {
        match &mut self.root {
            None => false,
            Some(node) => {
                node.right = right;
                true
            },
        }
    }

    /// Replaces the whole tree.
    pub fn set(&mut self, tree: BinTree<Item>)
        ensures
            *final(self) == tree,
    {
        *self = tree;
    }
}


impl<T> From<()> for BinTree<T> {
    /// The empty tree, written as `()`.
    fn from(_unit: ()) -> (t: Self)
        ensures
            t == Self::spec_new(),
    {
        Self::new()
    }
}

impl<T> vstd::std_specs::convert::FromSpecImpl<()> for BinTree<T> {
    open spec fn obeys_from_spec() -> bool {
        true
    }

    open spec fn from_spec(_unit: ()) -> Self {
        Self::spec_new()
    }
}

/// std's conversion of a value into its own type, `From<T> for T`, which its
/// documentation describes as returning the argument unchanged: the result is
/// the argument.
pub assume_specification<Whole>[ <Whole as core::convert::From<Whole>>::from ](
    given: Whole,
) -> (same: Whole)
    ensures
        same == given,
;

/// Builds a tree from a value and two subtrees, each of which may be given
/// as a tree or, for the empty tree, as `()`.
pub fn tree<T, L: Into<BinTree<T>>, R: Into<BinTree<T>>>(value: T, left: L, right: R) -> (t:
    BinTree<T>)
    requires
        forall|l: BinTree<T>| call_ensures(L::into, (left,), l) ==> l.height < isize::MAX,
        forall|r: BinTree<T>| call_ensures(R::into, (right,), r) ==> r.height < isize::MAX,
    ensures
        exists|l: BinTree<T>, r: BinTree<T>|
            call_ensures(L::into, (left,), l) && call_ensures(R::into, (right,), r) && t
                == BinTree::spec_new_node(value, l, r),
{
    let l: BinTree<T> = left.into();
    let r: BinTree<T> = right.into();
    BinTree::new_node(value, l, r)
}

/// Builds a leaf from a value.
pub fn leaf<T>(value: T) -> (t: BinTree<T>)
    ensures
        t == BinTree::<T>::spec_new_leaf(value),
        t.inorder() == seq![value],
        t.is_avl(),
{
    BinTree::new_leaf(value)
}

} // verus!
