//! Taking items out of a tree: the top node, the ends of the spines, an item
//! found by value, or an item found by its key in a sorted tree.

use crate::bin_tree::order::{
    cmp_fn_is, cmp_fn_total, identity_key, is_greater, is_less, is_same, key_fn_is, key_fn_total,
    lemma_cmp_fn_ref, lemma_cmp_fn_total_ref, lemma_identity_key, lemma_key_fn_ref,
    lemma_key_fn_total_ref, lemma_natural_cmp, lemma_remove_sorted, lemma_taken_out_part,
    natural_cmp, natural_order, own_key, sorted_by, taken_out,
};
use crate::bin_tree::utils_lookup::equals;
use crate::bin_tree::BinTree;
use core::cmp::Ordering;
use vstd::prelude::*;
use vstd::std_specs::cmp::{PartialEqSpec, PartialOrdSpec};

verus! {

/// What a sorted removal by `key` makes of the tree `before`: the item that a
/// search for the key finds leaves and is handed back, the others keep their
/// order; where the search finds nothing, nothing changes.
pub open spec fn removed<Item, Key>(
    before: BinTree<Item>,
    after: BinTree<Item>,
    taken: Option<Item>,
    kf: spec_fn(Item) -> Key,
    c: spec_fn(Key, Key) -> Option<Ordering>,
    key: Key,
) -> bool {
    match before.locate(kf, c, key) {
        Some(i) => taken == Some(before.inorder()[i]) && after.inorder()
            == before.inorder().remove(i),
        None => taken is None && after == before,
    }
}

/// A sorted removal leaves a sorted tree sorted.
pub proof fn lemma_removed_sorted<Item, Key>(
    before: BinTree<Item>,
    after: BinTree<Item>,
    taken: Option<Item>,
    kf: spec_fn(Item) -> Key,
    c: spec_fn(Key, Key) -> Option<Ordering>,
    key: Key,
)
    requires
        removed(before, after, taken, kf, c, key),
        sorted_by(before.inorder(), kf, c),
    ensures
        sorted_by(after.inorder(), kf, c),
{
    before.lemma_locate_found(kf, c, key);
    if let Some(i) = before.locate(kf, c, key) {
        lemma_remove_sorted(before.inorder(), kf, c, i);
    }
}

/// A removal from the left subtree of a node, where the search goes left, is
/// a removal from the node.
pub proof fn lemma_removed_left<Item, Key>(
    before: BinTree<Item>,
    after: BinTree<Item>,
    left: BinTree<Item>,
    taken: Option<Item>,
    kf: spec_fn(Item) -> Key,
    c: spec_fn(Key, Key) -> Option<Ordering>,
    key: Key,
)
    requires
        before.root is Some,
        is_less(c, key, kf(before.top())),
        removed(before.lhs(), left, taken, kf, c, key),
        taken is Some ==> after.inorder() == left.inorder().push(before.top())
            + before.rhs().inorder(),
        taken is None ==> after == before,
    ensures
        removed(before, after, taken, kf, c, key),
{
    before.lemma_inorder_parts();
    let l = before.lhs();
    l.lemma_locate_found(kf, c, key);
    if let Some(i) = l.locate(kf, c, key) {
        assert(after.inorder() =~= before.inorder().remove(i));
        assert(before.inorder()[i] == l.inorder()[i]);
    }
}

/// A removal from the right subtree of a node, where the search goes right,
/// is a removal from the node.
pub proof fn lemma_removed_right<Item, Key>(
    before: BinTree<Item>,
    after: BinTree<Item>,
    right: BinTree<Item>,
    taken: Option<Item>,
    kf: spec_fn(Item) -> Key,
    c: spec_fn(Key, Key) -> Option<Ordering>,
    key: Key,
)
    requires
        before.root is Some,
        is_greater(c, key, kf(before.top())),
        removed(before.rhs(), right, taken, kf, c, key),
        taken is Some ==> after.inorder() == before.lhs().inorder().push(before.top())
            + right.inorder(),
        taken is None ==> after == before,
    ensures
        removed(before, after, taken, kf, c, key),
{
    before.lemma_inorder_parts();
    let r = before.rhs();
    let n = before.lhs().count();
    r.lemma_locate_found(kf, c, key);
    if let Some(i) = r.locate(kf, c, key) {
        assert(after.inorder() =~= before.inorder().remove(n + 1 + i));
        assert(before.inorder()[n + 1 + i] == r.inorder()[i]);
    }
}

impl<Item> BinTree<Item> {
    /// The tree after its top node was taken out without regard to order: the
    /// top of the left subtree moves up, or that of the right subtree where
    /// the left one is empty, and the same happens below it. The cached height
    /// at the top becomes the one that the subtree moving up had.
    pub open spec fn spec_pop(self) -> Self
        decreases self,
    {
        match self.root {
            None => self,
            Some(node) => {
                if node.left.root is Some {
                    Self::spec_new_node(
                        node.left.top(),
                        node.left.spec_pop(),
                        node.right,
                    ).with_height(node.left.height)
                } else if node.right.root is Some {
                    Self::spec_new_node(
                        node.right.top(),
                        node.left,
                        node.right.spec_pop(),
                    ).with_height(node.right.height)
                } else {
                    Self::spec_new()
                }
            },
        }
    }

    /// The node that `pop_tree` hands back: the top node with its cached
    /// height, over the two empty subtrees of the leaf at which the moving up
    /// came to an end.
    pub open spec fn spec_popped(self) -> Self
        decreases self,
    {
        match self.root {
            None => self,
            Some(node) => {
                if node.left.root is Some {
                    Self::spec_new_node(
                        node.value,
                        node.left.spec_popped().lhs(),
                        node.left.spec_popped().rhs(),
                    ).with_height(self.height)
                } else if node.right.root is Some {
                    Self::spec_new_node(
                        node.value,
                        node.right.spec_popped().lhs(),
                        node.right.spec_popped().rhs(),
                    ).with_height(self.height)
                } else {
                    self
                }
            },
        }
    }

    /// The node that `pop_tree` hands back holds the old top value and has no
    /// children.
    pub proof fn lemma_popped(self)
        requires
            self.root is Some,
        ensures
            self.spec_popped().root is Some,
            self.spec_popped().top() == self.top(),
            self.spec_popped().height == self.height,
            self.spec_popped().lhs().root is None,
            self.spec_popped().rhs().root is None,
        decreases self,
    {
        if self.lhs().root is Some {
            self.lhs().lemma_popped();
        } else if self.rhs().root is Some {
            self.rhs().lemma_popped();
        }
    }

    /// Taking out the top node takes the first item out of the pre-order.
    pub proof fn lemma_pop_preorder(self)
        requires
            self.root is Some,
        ensures
            self.spec_pop().preorder() == self.preorder().drop_first(),
            self.spec_pop().count() == self.count() - 1,
        decreases self,
    {
        let l = self.lhs();
        let r = self.rhs();
        self.lemma_inorder_parts();
        if l.root is Some {
            l.lemma_pop_preorder();
            let p = self.spec_pop();
            p.lemma_inorder_parts();
            assert(p.preorder() =~= seq![l.top()] + l.spec_pop().preorder() + r.preorder());
            assert(l.preorder() =~= seq![l.top()] + l.preorder().drop_first());
            assert(p.preorder() =~= self.preorder().drop_first());
        } else if r.root is Some {
            r.lemma_pop_preorder();
            let p = self.spec_pop();
            p.lemma_inorder_parts();
            assert(l.preorder() =~= Seq::<Item>::empty());
            assert(l.inorder() =~= Seq::<Item>::empty());
            assert(p.preorder() =~= seq![r.top()] + r.spec_pop().preorder());
            assert(r.preorder() =~= seq![r.top()] + r.preorder().drop_first());
            assert(p.preorder() =~= self.preorder().drop_first());
        } else {
            assert(l.preorder() =~= Seq::<Item>::empty());
            assert(r.preorder() =~= Seq::<Item>::empty());
            assert(l.inorder() =~= Seq::<Item>::empty());
            assert(r.inorder() =~= Seq::<Item>::empty());
            assert(self.spec_pop().preorder() =~= self.preorder().drop_first());
            assert(self.spec_pop().inorder() =~= Seq::<Item>::empty());
        }
    }

    /// Takes the top node out of the tree without regard to order and returns
    /// it as a tree of its own; the heights are not maintained.
    pub fn pop_tree(&mut self) -> (popped: Option<BinTree<Item>>)
        ensures
            old(self).root is None ==> popped is None && *final(self) == *old(self),
            old(self).root is Some ==> popped == Some(old(self).spec_popped()),
            *final(self) == old(self).spec_pop(),
        decreases *old(self),
    {
        proof {
            if self.root is Some {
                if self.lhs().root is Some {
                    self.lhs().lemma_popped();
                } else if self.rhs().root is Some {
                    self.rhs().lemma_popped();
                }
            }
        }
        match &mut self.root {
            None => None,
            Some(node) => {
                let mut p = node.left.pop_tree();
                if p.is_none() {
                    p = node.right.pop_tree();
                }
                match p {
                    None => {
                        let mut whole = Self::new();
                        core::mem::swap(self, &mut whole);
                        Some(whole)
                    },
                    Some(mut new_self) => {
                        match &mut new_self.root {
                            None => {},
                            Some(fresh) => {
                                core::mem::swap(&mut node.left, &mut fresh.left);
                                core::mem::swap(&mut node.right, &mut fresh.right);
                            },
                        }
                        core::mem::swap(self, &mut new_self);
                        Some(new_self)
                    },
                }
            },
        }
    }

    /// Takes the value at the top out of the tree without regard to order: the
    /// first item of the pre-order leaves, the others keep their pre-order.
    /// The heights are not maintained.
    pub fn pop(&mut self) -> (popped: Option<Item>)
        ensures
            old(self).root is None ==> popped is None && *final(self) == *old(self),
            old(self).root is Some ==> popped == Some(old(self).top()) && final(self).preorder()
                == old(self).preorder().drop_first() && final(self).count() == old(self).count()
                - 1,
            *final(self) == old(self).spec_pop(),
    {
        proof {
            if self.root is Some {
                self.lemma_pop_preorder();
                self.lemma_popped();
            }
        }
        match self.pop_tree() {
            None => None,
            Some(pop_tree) => pop_tree.into_value(),
        }
    }

    /// The tree after the node at the end of its left spine was taken out as
    /// `pop_left` does it.
    pub open spec fn spec_pop_left(self) -> Self
        decreases self,
    {
        match self.root {
            None => self,
            Some(node) => {
                if node.left.root is None && node.right.root is None {
                    Self::spec_new()
                } else if node.left.root is None {
                    self.spec_pop()
                } else {
                    self.with_left(node.left.spec_pop_left())
                }
            },
        }
    }

    /// The tree after the node at the end of its right spine was taken out as
    /// `pop_right` does it.
    pub open spec fn spec_pop_right(self) -> Self
        decreases self,
    {
        match self.root {
            None => self,
            Some(node) => {
                if node.left.root is None && node.right.root is None {
                    Self::spec_new()
                } else if node.right.root is None {
                    self.spec_pop()
                } else {
                    self.with_right(node.right.spec_pop_right())
                }
            },
        }
    }

    /// Taking out the end of the left spine takes out the first item; where
    /// that node has no right subtree, the other items keep their order.
    pub proof fn lemma_pop_left(self)
        requires
            self.root is Some,
        ensures
            self.spec_pop_left().count() == self.count() - 1,
            self.leftmost_is_leaf() ==> self.spec_pop_left().inorder()
                == self.inorder().drop_first(),
        decreases self,
    {
        let l = self.lhs();
        let r = self.rhs();
        self.lemma_inorder_parts();
        if l.root is None && r.root is None {
            assert(l.inorder() =~= Seq::<Item>::empty());
            assert(r.inorder() =~= Seq::<Item>::empty());
            assert(self.spec_pop_left().inorder() =~= self.inorder().drop_first());
        } else if l.root is None {
            self.lemma_pop_preorder();
        } else {
            l.lemma_pop_left();
            let p = self.spec_pop_left();
            p.lemma_inorder_parts();
            l.lemma_inorder_parts();
            if self.leftmost_is_leaf() {
                assert(p.inorder() =~= self.inorder().drop_first());
            }
        }
    }

    /// Taking out the end of the right spine takes out the last item; where
    /// that node has no left subtree, the other items keep their order.
    pub proof fn lemma_pop_right(self)
        requires
            self.root is Some,
        ensures
            self.spec_pop_right().count() == self.count() - 1,
            self.rightmost_is_leaf() ==> self.spec_pop_right().inorder()
                == self.inorder().drop_last(),
        decreases self,
    {
        let l = self.lhs();
        let r = self.rhs();
        self.lemma_inorder_parts();
        if l.root is None && r.root is None {
            assert(l.inorder() =~= Seq::<Item>::empty());
            assert(r.inorder() =~= Seq::<Item>::empty());
            assert(self.spec_pop_right().inorder() =~= self.inorder().drop_last());
        } else if r.root is None {
            self.lemma_pop_preorder();
        } else {
            r.lemma_pop_right();
            let p = self.spec_pop_right();
            p.lemma_inorder_parts();
            r.lemma_inorder_parts();
            if self.rightmost_is_leaf() {
                assert(p.inorder() =~= self.inorder().drop_last());
            }
        }
    }

    /// The node at the end of the left spine has no right subtree.
    pub open spec fn leftmost_is_leaf(self) -> bool
        decreases self,
    {
        match self.root {
            None => true,
            Some(node) => if node.left.root is None {
                node.right.root is None
            } else {
                node.left.leftmost_is_leaf()
            },
        }
    }

    /// The node at the end of the right spine has no left subtree.
    pub open spec fn rightmost_is_leaf(self) -> bool
        decreases self,
    {
        match self.root {
            None => true,
            Some(node) => if node.right.root is None {
                node.left.root is None
            } else {
                node.right.rightmost_is_leaf()
            },
        }
    }

    /// Takes out the item at the end of the left spine, the first item from
    /// the left. A node with a right subtree is replaced as `pop` replaces a
    /// top node. The heights are not maintained.
    pub fn pop_left(&mut self) -> (popped: Option<Item>)
        ensures
            old(self).root is None ==> popped is None && *final(self) == *old(self),
            old(self).root is Some ==> popped == Some(old(self).inorder()[0]) && final(self).count()
                == old(self).count() - 1,
            old(self).root is Some && old(self).leftmost_is_leaf() ==> final(self).inorder()
                == old(self).inorder().drop_first(),
            *final(self) == old(self).spec_pop_left(),
        decreases *old(self),
    {
        proof {
            if self.root is Some {
                self.lemma_pop_left();
                self.lemma_inorder_parts();
                if self.lhs().root is None {
                    assert(self.lhs().inorder() =~= Seq::<Item>::empty());
                } else {
                    self.lhs().lemma_inorder_parts();
                }
            }
        }
        match &mut self.root {
            None => None,
            Some(node) => {
                if node.left.is_empty() && node.right.is_empty() {
                    let mut whole = Self::new();
                    core::mem::swap(self, &mut whole);
                    whole.into_value()
                } else if node.left.is_empty() {
                    self.pop()
                } else {
                    node.left.pop_left()
                }
            },
        }
    }

    /// Takes out the item at the end of the right spine, the last item from
    /// the left. A node with a left subtree is replaced as `pop` replaces a
    /// top node. The heights are not maintained.
    pub fn pop_right(&mut self) -> (popped: Option<Item>)
        ensures
            old(self).root is None ==> popped is None && *final(self) == *old(self),
            old(self).root is Some ==> popped == Some(old(self).inorder().last())
                && final(self).count() == old(self).count() - 1,
            old(self).root is Some && old(self).rightmost_is_leaf() ==> final(self).inorder()
                == old(self).inorder().drop_last(),
            *final(self) == old(self).spec_pop_right(),
        decreases *old(self),
    {
        proof {
            if self.root is Some {
                self.lemma_pop_right();
                self.lemma_inorder_parts();
                if self.rhs().root is None {
                    assert(self.rhs().inorder() =~= Seq::<Item>::empty());
                } else {
                    self.rhs().lemma_inorder_parts();
                }
            }
        }
        match &mut self.root {
            None => None,
            Some(node) => {
                if node.left.is_empty() && node.right.is_empty() {
                    let mut whole = Self::new();
                    core::mem::swap(self, &mut whole);
                    whole.into_value()
                } else if node.right.is_empty() {
                    self.pop()
                } else {
                    node.right.pop_right()
                }
            },
        }
    }

    /// The tree after the node at the end of its left spine was detached: the
    /// right subtree of that node takes its place, and each node above it is
    /// settled on the way back.
    pub open spec fn spec_detach_min(self, rebalance: bool) -> Self
        decreases self,
    {
        match self.root {
            None => self,
            Some(node) => if node.left.root is None {
                node.right
            } else {
                self.with_left(node.left.spec_detach_min(rebalance)).spec_settle(rebalance)
            },
        }
    }

    /// The tree after its top node was taken out with the order kept: a node
    /// with at most one subtree gives way to that subtree; a node with two
    /// subtrees gives way to the first item of its right subtree, over the
    /// left subtree and what is left of the right one.
    pub open spec fn spec_pop_sorted(self, rebalance: bool) -> Self {
        match self.root {
            None => self,
            Some(node) => if node.left.root is None && node.right.root is None {
                Self::spec_new()
            } else if node.right.root is None {
                node.left
            } else if node.left.root is None {
                node.right
            } else {
                Self::spec_new_node(
                    node.right.inorder()[0],
                    node.left,
                    node.right.spec_detach_min(rebalance),
                )
            },
        }
    }

    /// The tree after a sorted removal by `key`: the search goes left or right
    /// as the key asks, takes out the node at which it ends, and settles each
    /// node on the way back; where it ends in an empty subtree, nothing changes.
    pub open spec fn after_remove<Key>(
        self,
        kf: spec_fn(Item) -> Key,
        c: spec_fn(Key, Key) -> Option<Ordering>,
        key: Key,
        rebalance: bool,
    ) -> Self
        decreases self,
    {
        match self.root {
            None => self,
            Some(node) => {
                if is_less(c, key, kf(node.value)) {
                    if node.left.locate(kf, c, key) is Some {
                        self.with_left(node.left.after_remove(kf, c, key, rebalance)).spec_settle(
                            rebalance,
                        )
                    } else {
                        self
                    }
                } else if is_greater(c, key, kf(node.value)) {
                    if node.right.locate(kf, c, key) is Some {
                        self.with_right(
                            node.right.after_remove(kf, c, key, rebalance),
                        ).spec_settle(rebalance)
                    } else {
                        self
                    }
                } else {
                    let popped = self.spec_pop_sorted(rebalance);
                    if popped.root is Some {
                        popped.spec_settle(rebalance)
                    } else {
                        popped
                    }
                }
            },
        }
    }

    /// Detaches the node at the end of the left spine, which holds the first
    /// item from the left, from a tree whose heights are right, and returns it
    /// as a tree of its own. Its right subtree takes its place. On the way
    /// back the heights are recomputed and each node is rebalanced if asked.
    pub fn detach_left_min_tree_sorted(&mut self, rebalance: bool) -> (detached: Option<
        BinTree<Item>,
    >)
        requires
            old(self).heights_ok(),
        ensures
            *final(self) == old(self).spec_detach_min(rebalance),
            old(self).root is None ==> detached is None && *final(self) == *old(self),
            old(self).root is Some ==> {
                &&& detached == Some(
                    Self::spec_new_leaf(old(self).inorder()[0]).with_height(
                        old(self).min_subtree().unwrap().height,
                    ),
                )
                &&& final(self).inorder() == old(self).inorder().drop_first()
            },
            final(self).heights_ok(),
            final(self).height <= old(self).height,
            !rebalance || old(self).balanced() ==> final(self).height >= old(self).height - 1,
            rebalance && old(self).balanced() ==> final(self).balanced(),
        decreases *old(self),
    {
        proof {
            self.lemma_heights_two_levels();
            if self.root is Some {
                self.lemma_inorder_parts();
                if self.lhs().root is None {
                    assert(self.lhs().inorder() =~= Seq::<Item>::empty());
                    assert(self.rhs().inorder() =~= self.inorder().drop_first());
                } else {
                    self.lhs().lemma_inorder_parts();
                }
            }
        }
        match &mut self.root {
            None => None,
            Some(node) => {
                if node.left.is_empty() {
                    let mut right = Self::new();
                    core::mem::swap(&mut node.right, &mut right);
                    core::mem::swap(self, &mut right);
                    Some(right)
                } else {
                    let result = node.left.detach_left_min_tree_sorted(rebalance);
                    proof {
                        self.lemma_inorder_parts();
                        assert(self.inorder() =~= old(self).inorder().drop_first());
                        self.lhs().lemma_heights_top();
                    }
                    self.settle(rebalance);
                    result
                }
            },
        }
    }

    /// Takes the top node out of a tree whose heights are right, keeping the
    /// other items in their order, and returns it as a tree of its own.
    ///
    /// A node with at most one subtree gives way to that subtree. A node with
    /// two subtrees gives way to the first node of its right subtree, which is
    /// detached as [`BinTree::detach_left_min_tree_sorted`] does; the height at
    /// the top is recomputed, the top itself is not rebalanced.
    pub fn pop_tree_sorted(&mut self, rebalance: bool) -> (popped: Option<BinTree<Item>>)
        requires
            old(self).heights_ok(),
        ensures
            *final(self) == old(self).spec_pop_sorted(rebalance),
            old(self).root is None ==> popped is None && *final(self) == *old(self),
            old(self).root is Some ==> {
                &&& popped
                    == Some(Self::spec_new_leaf(old(self).top()).with_height(old(self).height))
                &&& final(self).inorder() == old(self).inorder().remove(old(self).lhs().count())
                &&& final(self).count() == old(self).count() - 1
            },
            final(self).heights_ok(),
            final(self).height <= old(self).height,
            !rebalance || old(self).balanced() ==> final(self).height >= old(self).height - 1,
            rebalance && old(self).balanced() && final(self).root is Some ==> {
                &&& final(self).lhs().balanced()
                &&& final(self).rhs().balanced()
                &&& -2 <= final(self).spec_balance() <= 2
                &&& (-1 <= final(self).spec_balance() <= 1 || final(self).height == old(self).height)
            },
            old(self).root is Some && (old(self).lhs().root is None || old(self).rhs().root
                is None) ==> *final(self) == (if old(self).lhs().root is None {
                old(self).rhs()
            } else {
                old(self).lhs()
            }),
    {
        proof {
            self.lemma_heights_two_levels();
            if self.root is Some {
                self.lemma_inorder_parts();
                let n = self.lhs().count();
                if self.lhs().root is None {
                    assert(self.lhs().inorder() =~= Seq::<Item>::empty());
                }
                if self.rhs().root is None {
                    assert(self.rhs().inorder() =~= Seq::<Item>::empty());
                }
                assert(self.lhs().inorder() + self.rhs().inorder() =~= self.inorder().remove(n));
                if self.rhs().root is None {
                    assert(self.lhs().inorder() =~= self.inorder().remove(n));
                }
                if self.lhs().root is None {
                    assert(self.rhs().inorder() =~= self.inorder().remove(n));
                }
            }
        }
        match &mut self.root {
            None => None,
            Some(node) => {
                if node.left.is_empty() && node.right.is_empty() {
                    let mut whole = Self::new();
                    core::mem::swap(self, &mut whole);
                    Some(whole)
                } else if node.right.is_empty() {
                    let mut left = Self::new();
                    core::mem::swap(&mut node.left, &mut left);
                    core::mem::swap(self, &mut left);
                    Some(left)
                } else if node.left.is_empty() {
                    let mut right = Self::new();
                    core::mem::swap(&mut node.right, &mut right);
                    core::mem::swap(self, &mut right);
                    Some(right)
                } else {
                    let detached = node.right.detach_left_min_tree_sorted(rebalance);
                    let mut new_self = detached.unwrap();
                    match &mut new_self.root {
                        None => {},
                        Some(fresh) => {
                            core::mem::swap(&mut node.left, &mut fresh.left);
                            core::mem::swap(&mut node.right, &mut fresh.right);
                        },
                    }
                    core::mem::swap(self, &mut new_self);
                    proof {
                        self.lemma_inorder_parts();
                        old(self).rhs().lemma_inorder_parts();
                        assert(self.inorder() =~= old(self).inorder().remove(
                            old(self).lhs().count(),
                        ));
                        self.rhs().lemma_heights_top();
                    }
                    self.update_height();
                    proof {
                        assert(self.inorder() =~= old(self).inorder().remove(
                            old(self).lhs().count(),
                        ));
                    }
                    Some(new_self)
                }
            },
        }
    }

    /// Takes the value at the top out of a tree whose heights are right,
    /// keeping the other items in their order, as
    /// [`BinTree::pop_tree_sorted`] does.
    pub fn pop_sorted(&mut self, rebalance: bool) -> (popped: Option<Item>)
        requires
            old(self).heights_ok(),
        ensures
            *final(self) == old(self).spec_pop_sorted(rebalance),
            old(self).root is None ==> popped is None && *final(self) == *old(self),
            old(self).root is Some ==> popped == Some(old(self).top()) && final(self).inorder()
                == old(self).inorder().remove(old(self).lhs().count()) && final(self).count()
                == old(self).count() - 1,
            final(self).heights_ok(),
            final(self).height <= old(self).height,
            !rebalance || old(self).balanced() ==> final(self).height >= old(self).height - 1,
            rebalance && old(self).balanced() && final(self).root is Some ==> {
                &&& final(self).lhs().balanced()
                &&& final(self).rhs().balanced()
                &&& -2 <= final(self).spec_balance() <= 2
                &&& (-1 <= final(self).spec_balance() <= 1 || final(self).height == old(self).height)
            },
    {
        match self.pop_tree_sorted(rebalance) {
            None => None,
            Some(pop_tree) => pop_tree.into_value(),
        }
    }

    /// Takes out of a tree whose heights are right the item that a search for
    /// `target_key` finds, and hands it back.
    ///
    /// The search compares the target with the key at hand: it goes left on
    /// `Less`, right on `Greater`, and on any other answer takes out the node
    /// at hand as [`BinTree::pop_sorted`] does. Where an item was taken out,
    /// the heights are recomputed on the way back and each node on the path is
    /// rebalanced if `rebalance` is set. Where the search ends in an empty
    /// subtree, `None` is returned and the tree is left exactly as it was.
    pub fn remove_sorted_to_key_cmp<FtoKey, Fcmp, Key>(
        &mut self,
        target_key: &Key,
        to_key: FtoKey,
        cmp: Fcmp,
        rebalance: bool,
    ) -> (taken: Option<Item>) where
        Fcmp: Fn(&Key, &Key) -> Option<Ordering>,
        FtoKey: Fn(&Item) -> &Key,

        requires
            key_fn_total(to_key),
            cmp_fn_total(cmp),
            old(self).heights_ok(),
        ensures
            final(self).heights_ok(),
            taken is None ==> *final(self) == *old(self),
            taken is Some ==> final(self).count() == old(self).count() - 1,
            taken_out(old(self).inorder(), final(self).inorder(), taken),
            final(self).height <= old(self).height,
            !rebalance || old(self).balanced() ==> final(self).height >= old(self).height - 1,
            rebalance && old(self).balanced() ==> final(self).balanced(),
            forall|kf: spec_fn(Item) -> Key, c: spec_fn(Key, Key) -> Option<Ordering>|
                #![trigger key_fn_is(to_key, kf), cmp_fn_is(cmp, c)]
                key_fn_is(to_key, kf) && cmp_fn_is(cmp, c) ==> *final(self)
                    == old(self).after_remove(kf, c, *target_key, rebalance) && removed(
                    *old(self),
                    *final(self),
                    taken,
                    kf,
                    c,
                    *target_key,
                ) && (sorted_by(old(self).inorder(), kf, c) ==> sorted_by(
                    final(self).inorder(),
                    kf,
                    c,
                )),
        decreases *old(self),
    {
        proof {
            self.lemma_heights_two_levels();
        }
        let taken = match &mut self.root {
            None => None,
            Some(node) => {
                let top_key = to_key(&node.value);
                let answer = cmp(target_key, top_key);
                proof {
                    old(self).lemma_inorder_parts();
                }
                match answer {
                    Some(Ordering::Less) => {
                        let r = node.left.remove_sorted_to_key_cmp(
                            target_key,
                            to_key,
                            cmp,
                            rebalance,
                        );
                        proof {
                            self.lemma_inorder_parts();
                            lemma_taken_out_part(
                                Seq::empty(),
                                old(self).lhs().inorder(),
                                self.lhs().inorder(),
                                seq![old(self).top()] + old(self).rhs().inorder(),
                                r,
                            );
                            assert(old(self).inorder() =~= Seq::<Item>::empty() + old(self).lhs().inorder()
                                + (seq![old(self).top()] + old(self).rhs().inorder()));
                            assert(self.inorder() =~= Seq::<Item>::empty() + self.lhs().inorder()
                                + (seq![old(self).top()] + old(self).rhs().inorder()));
                            assert forall|
                                kf: spec_fn(Item) -> Key,
                                c: spec_fn(Key, Key) -> Option<Ordering>,
                            |
                                #![trigger key_fn_is(to_key, kf), cmp_fn_is(cmp, c)]
                                key_fn_is(to_key, kf) && cmp_fn_is(cmp, c) implies removed(
                                *old(self),
                                *self,
                                r,
                                kf,
                                c,
                                *target_key,
                            ) by {
                                lemma_removed_left(
                                    *old(self),
                                    *self,
                                    self.lhs(),
                                    r,
                                    kf,
                                    c,
                                    *target_key,
                                );
                            }
                            self.lhs().lemma_heights_top();
                        }
                        if r.is_some() {
                            self.settle(rebalance);
                        }
                        r
                    },
                    Some(Ordering::Greater) => {
                        let r = node.right.remove_sorted_to_key_cmp(
                            target_key,
                            to_key,
                            cmp,
                            rebalance,
                        );
                        proof {
                            self.lemma_inorder_parts();
                            lemma_taken_out_part(
                                old(self).lhs().inorder().push(old(self).top()),
                                old(self).rhs().inorder(),
                                self.rhs().inorder(),
                                Seq::empty(),
                                r,
                            );
                            assert(old(self).inorder() =~= old(self).lhs().inorder().push(old(self).top())
                                + old(self).rhs().inorder() + Seq::<Item>::empty());
                            assert(self.inorder() =~= old(self).lhs().inorder().push(old(self).top())
                                + self.rhs().inorder() + Seq::<Item>::empty());
                            assert forall|
                                kf: spec_fn(Item) -> Key,
                                c: spec_fn(Key, Key) -> Option<Ordering>,
                            |
                                #![trigger key_fn_is(to_key, kf), cmp_fn_is(cmp, c)]
                                key_fn_is(to_key, kf) && cmp_fn_is(cmp, c) implies removed(
                                *old(self),
                                *self,
                                r,
                                kf,
                                c,
                                *target_key,
                            ) by {
                                lemma_removed_right(
                                    *old(self),
                                    *self,
                                    self.rhs(),
                                    r,
                                    kf,
                                    c,
                                    *target_key,
                                );
                            }
                            self.rhs().lemma_heights_top();
                        }
                        if r.is_some() {
                            self.settle(rebalance);
                        }
                        r
                    },
                    _ => {
                        let r = self.pop_sorted(rebalance);
                        proof {
                            if self.root is Some {
                                self.lemma_heights_two_levels();
                            }
                        }
                        if !self.is_empty() {
                            self.settle(rebalance);
                        }
                        r
                    },
                }
            },
        };
        proof {
            assert forall|kf: spec_fn(Item) -> Key, c: spec_fn(Key, Key) -> Option<Ordering>|
                #![trigger key_fn_is(to_key, kf), cmp_fn_is(cmp, c)]
                key_fn_is(to_key, kf) && cmp_fn_is(cmp, c) && sorted_by(
                    old(self).inorder(),
                    kf,
                    c,
                ) implies sorted_by(self.inorder(), kf, c) by {
                lemma_removed_sorted(*old(self), *self, taken, kf, c, *target_key);
            }
        }
        taken
    }

    /// Takes out of a sorted tree an item equal to `target_value` and hands it
    /// back, rebalancing on the way back; `None` and no change where the
    /// search finds none.
    pub fn remove_sorted(&mut self, target_value: &Item) -> (taken: Option<Item>) where
        Item: PartialOrd,

        requires
            old(self).heights_ok(),
        ensures
            final(self).heights_ok(),
            taken is None ==> *final(self) == *old(self),
            taken is Some ==> final(self).count() == old(self).count() - 1,
            taken_out(old(self).inorder(), final(self).inorder(), taken),
            final(self).height <= old(self).height,
            old(self).balanced() ==> final(self).balanced()
                && final(self).height >= old(self).height - 1,
            Item::obeys_partial_cmp_spec() ==> *final(self) == old(self).after_remove(
                own_key(),
                natural_order(),
                *target_value,
                true,
            ) && removed(
                *old(self),
                *final(self),
                taken,
                own_key(),
                natural_order(),
                *target_value,
            ) && (sorted_by(old(self).inorder(), own_key(), natural_order::<Item>())
                ==> sorted_by(final(self).inorder(), own_key(), natural_order::<Item>())),
    {
        proof {
            lemma_identity_key::<Item>();
            lemma_natural_cmp::<Item>();
        }
        let taken = self.remove_sorted_to_key_cmp(
            target_value,
            identity_key::<Item>,
            natural_cmp::<Item>,
            true,
        );
        proof {
            if Item::obeys_partial_cmp_spec() {
                assert(key_fn_is(identity_key::<Item>, own_key::<Item>()));
                assert(cmp_fn_is(natural_cmp::<Item>, natural_order::<Item>()));
            }
        }
        taken
    }

    /// Takes out of a sorted tree the item whose key equals `target_value`,
    /// with the keys given by `key` and ordered by themselves, and rebalances.
    pub fn remove_sorted_with_key<F, Key>(&mut self, target_value: &Key, key: &F) -> (taken: Option<
        Item,
    >) where Key: PartialOrd, F: Fn(&Item) -> &Key
        requires
            key_fn_total(*key),
            old(self).heights_ok(),
        ensures
            final(self).heights_ok(),
            taken is None ==> *final(self) == *old(self),
            taken is Some ==> final(self).count() == old(self).count() - 1,
            taken_out(old(self).inorder(), final(self).inorder(), taken),
            final(self).height <= old(self).height,
            old(self).balanced() ==> final(self).balanced(),
            forall|kf: spec_fn(Item) -> Key|
                #![trigger key_fn_is(*key, kf)]
                key_fn_is(*key, kf) && Key::obeys_partial_cmp_spec() ==> removed(
                    *old(self),
                    *final(self),
                    taken,
                    kf,
                    natural_order(),
                    *target_value,
                ) && (sorted_by(old(self).inorder(), kf, natural_order::<Key>()) ==> sorted_by(
                    final(self).inorder(),
                    kf,
                    natural_order::<Key>(),
                )),
    {
        proof {
            lemma_natural_cmp::<Key>();
            lemma_key_fn_total_ref(key);
        }
        let taken = self.remove_sorted_to_key_cmp(target_value, key, natural_cmp::<Key>, true);
        proof {
            if Key::obeys_partial_cmp_spec() {
                assert(cmp_fn_is(natural_cmp::<Key>, natural_order::<Key>()));
            }
            assert forall|kf: spec_fn(Item) -> Key|
                #![trigger key_fn_is(*key, kf)]
                key_fn_is(*key, kf) implies key_fn_is(key, kf) by {
                lemma_key_fn_ref(key, kf);
            }
        }
        taken
    }

    /// Takes out of a sorted tree the item that `compare` finds equal to
    /// `target_value`, and rebalances.
    pub fn remove_sorted_with_compare<F>(&mut self, target_value: &Item, compare: &F) -> (taken:
        Option<Item>) where F: Fn(&Item, &Item) -> Option<Ordering>
        requires
            cmp_fn_total(*compare),
            old(self).heights_ok(),
        ensures
            final(self).heights_ok(),
            taken is None ==> *final(self) == *old(self),
            taken is Some ==> final(self).count() == old(self).count() - 1,
            taken_out(old(self).inorder(), final(self).inorder(), taken),
            final(self).height <= old(self).height,
            old(self).balanced() ==> final(self).balanced(),
            forall|c: spec_fn(Item, Item) -> Option<Ordering>|
                #![trigger cmp_fn_is(*compare, c)]
                cmp_fn_is(*compare, c) ==> removed(
                    *old(self),
                    *final(self),
                    taken,
                    own_key(),
                    c,
                    *target_value,
                ) && (sorted_by(old(self).inorder(), own_key(), c) ==> sorted_by(
                    final(self).inorder(),
                    own_key(),
                    c,
                )),
    {
        proof {
            lemma_identity_key::<Item>();
            lemma_cmp_fn_total_ref(compare);
        }
        let taken = self.remove_sorted_to_key_cmp(
            target_value,
            identity_key::<Item>,
            compare,
            true,
        );
        proof {
            assert(key_fn_is(identity_key::<Item>, own_key::<Item>()));
            assert forall|c: spec_fn(Item, Item) -> Option<Ordering>|
                #![trigger cmp_fn_is(*compare, c)]
                cmp_fn_is(*compare, c) implies cmp_fn_is(compare, c) by {
                lemma_cmp_fn_ref(compare, c);
            }
        }
        taken
    }

    /// Takes the value at the top out of a sorted tree, keeping the other
    /// items in their order, and rebalances below the top; the key function
    /// is not consulted.
    pub fn pop_sorted_with_key<F, Key>(&mut self, key: &F) -> (popped: Option<Item>) where
        Key: PartialOrd,
        F: Fn(&Item) -> &Key,

        requires
            old(self).heights_ok(),
        ensures
            *final(self) == old(self).spec_pop_sorted(true),
            old(self).root is None ==> popped is None && *final(self) == *old(self),
            old(self).root is Some ==> popped == Some(old(self).top()) && final(self).inorder()
                == old(self).inorder().remove(old(self).lhs().count()) && final(self).count()
                == old(self).count() - 1,
            final(self).heights_ok(),
            final(self).height <= old(self).height,
            old(self).balanced() ==> final(self).height >= old(self).height - 1,
            old(self).balanced() && final(self).root is Some ==> {
                &&& final(self).lhs().balanced()
                &&& final(self).rhs().balanced()
                &&& -2 <= final(self).spec_balance() <= 2
                &&& (-1 <= final(self).spec_balance() <= 1 || final(self).height == old(self).height)
            },
    {
        self.pop_sorted(true)
    }

    /// Takes the value at the top out of a sorted tree, keeping the other
    /// items in their order, and rebalances below the top; the comparison is
    /// not consulted.
    pub fn pop_sorted_with_compare<F>(&mut self, compare: &F) -> (popped: Option<Item>) where
        F: Fn(&Item, &Item) -> Option<Ordering>,

        requires
            old(self).heights_ok(),
        ensures
            *final(self) == old(self).spec_pop_sorted(true),
            old(self).root is None ==> popped is None && *final(self) == *old(self),
            old(self).root is Some ==> popped == Some(old(self).top()) && final(self).inorder()
                == old(self).inorder().remove(old(self).lhs().count()) && final(self).count()
                == old(self).count() - 1,
            final(self).heights_ok(),
            final(self).height <= old(self).height,
            old(self).balanced() ==> final(self).height >= old(self).height - 1,
            old(self).balanced() && final(self).root is Some ==> {
                &&& final(self).lhs().balanced()
                &&& final(self).rhs().balanced()
                &&& -2 <= final(self).spec_balance() <= 2
                &&& (-1 <= final(self).spec_balance() <= 1 || final(self).height == old(self).height)
            },
    {
        self.pop_sorted(true)
    }

    /// Replaces this tree by the contents of `other`, leaves `other` empty,
    /// and hands back the value that stood at the top of this tree.
    pub fn take_and_replace_with(&mut self, other: &mut BinTree<Item>) -> (taken: Option<Item>)
        ensures
            *final(self) == *old(other),
            *final(other) == Self::spec_new(),
            old(self).root is None ==> taken is None,
            old(self).root is Some ==> taken == Some(old(self).top()),
    {
        let mut held = Self::new();
        core::mem::swap(other, &mut held);
        core::mem::swap(self, &mut held);
        held.into_value()
    }

    /// The pre-order of a node is its value, then the pre-order of its left
    /// subtree, then that of its right subtree.
    pub proof fn lemma_preorder_parts(self)
        requires
            self.root is Some,
        ensures
            self.preorder() == seq![self.top()] + self.lhs().preorder() + self.rhs().preorder(),
            self.preorder().len() == 1 + self.lhs().preorder().len() + self.rhs().preorder().len(),
            self.preorder()[0] == self.top(),
    {
    }

    /// The position in pre-order of the first item for which `hit` holds.
    pub open spec fn first_hit_pre(self, hit: spec_fn(Item) -> bool) -> Option<int>
        decreases self,
    {
        match self.root {
            None => None,
            Some(node) => {
                if hit(node.value) {
                    Some(0)
                } else {
                    match node.left.first_hit_pre(hit) {
                        Some(i) => Some(1 + i),
                        None => match node.right.first_hit_pre(hit) {
                            Some(i) => Some(1 + node.left.preorder().len() + i),
                            None => None,
                        },
                    }
                }
            },
        }
    }

    /// `first_hit_pre` gives the first position in pre-order at which `hit`
    /// holds, and none where it holds nowhere.
    pub proof fn lemma_first_hit_pre(self, hit: spec_fn(Item) -> bool)
        ensures
            self.first_hit_pre(hit) matches Some(i) ==> 0 <= i < self.preorder().len() && hit(
                self.preorder()[i],
            ) && forall|j: int| 0 <= j < i ==> !hit(#[trigger] self.preorder()[j]),
            self.first_hit_pre(hit) is None ==> forall|j: int|
                0 <= j < self.preorder().len() ==> !hit(#[trigger] self.preorder()[j]),
        decreases self,
    {
        if self.root is Some {
            self.lemma_preorder_parts();
            let l = self.lhs().preorder();
            let r = self.rhs().preorder();
            let s = self.preorder();
            self.lhs().lemma_first_hit_pre(hit);
            self.rhs().lemma_first_hit_pre(hit);
            assert forall|j: int| 1 <= j < 1 + l.len() implies s[j] == l[j - 1] by {}
            assert forall|j: int| 1 + l.len() <= j < s.len() implies s[j]
                == r[j - 1 - l.len()] by {}
            if !hit(self.top()) {
                match self.lhs().first_hit_pre(hit) {
                    Some(i) => {
                        assert forall|j: int| 0 <= j < 1 + i implies !hit(#[trigger] s[j]) by {
                            if j > 0 {
                                assert(s[j] == l[j - 1]);
                            }
                        }
                    },
                    None => {
                        match self.rhs().first_hit_pre(hit) {
                            Some(i) => {
                                assert forall|j: int| 0 <= j < 1 + l.len() + i implies !hit(
                                    #[trigger] s[j],
                                ) by {
                                    if j > 0 && j < 1 + l.len() {
                                        assert(s[j] == l[j - 1]);
                                    } else if j > 0 {
                                        assert(s[j] == r[j - 1 - l.len()]);
                                    }
                                }
                            },
                            None => {
                                assert forall|j: int| 0 <= j < s.len() implies !hit(
                                    #[trigger] s[j],
                                ) by {
                                    if j > 0 && j < 1 + l.len() {
                                        assert(s[j] == l[j - 1]);
                                    } else if j > 0 {
                                        assert(s[j] == r[j - 1 - l.len()]);
                                    }
                                }
                            },
                        }
                    },
                }
            }
        }
    }

    /// The tree after the first item in pre-order for which `hit` holds was
    /// taken out: the subtree that holds it at its top loses that top as
    /// `spec_pop` says, and nothing else changes. Where `hit` holds of no item,
    /// the tree stays as it is.
    pub open spec fn spec_remove(self, hit: spec_fn(Item) -> bool) -> Self
        decreases self,
    {
        match self.root {
            None => self,
            Some(node) => {
                if hit(node.value) {
                    self.spec_pop()
                } else if node.left.first_hit_pre(hit) is Some {
                    self.with_left(node.left.spec_remove(hit))
                } else if node.right.first_hit_pre(hit) is Some {
                    self.with_right(node.right.spec_remove(hit))
                } else {
                    self
                }
            },
        }
    }

    /// Takes out the first item in pre-order that equals `target_value`, as
    /// [`BinTree::pop`] takes out the top of the subtree that holds it: the
    /// other items keep their pre-order. The heights are not maintained.
    pub fn remove(&mut self, target_value: &Item) -> (taken: Option<Item>) where Item: PartialEq
        ensures
            taken is None ==> *final(self) == *old(self),
            taken is Some ==> final(self).count() == old(self).count() - 1,
            taken_out(old(self).preorder(), final(self).preorder(), taken),
            Item::obeys_eq_spec() ==> *final(self) == old(self).spec_remove(equals(*target_value)),
            Item::obeys_eq_spec() ==> match old(self).first_hit_pre(equals(*target_value)) {
                Some(i) => taken == Some(old(self).preorder()[i]) && final(self).preorder()
                    == old(self).preorder().remove(i),
                None => taken is None,
            },
        decreases *old(self),
    {
        let ghost hit = equals(*target_value);
        proof {
            if self.root is Some {
                self.lemma_preorder_parts();
                self.lemma_inorder_parts();
                self.lhs().lemma_first_hit_pre(hit);
                self.rhs().lemma_first_hit_pre(hit);
            }
        }
        let at_top = match &self.root {
            None => false,
            Some(node) => *target_value == node.value,
        };
        if at_top {
            proof {
                assert(self.preorder().remove(0) =~= self.preorder().drop_first());
                self.lemma_pop_preorder();
            }
            self.pop()
        } else {
            match &mut self.root {
                None => None,
                Some(node) => {
                    let ghost left0 = node.left;
                    let ghost right0 = node.right;
                    let mut r = node.left.remove(target_value);
                    let ghost left1 = node.left;
                    if r.is_none() {
                        r = node.right.remove(target_value);
                        proof {
                            lemma_taken_out_part(
                                seq![old(self).top()] + left0.preorder(),
                                right0.preorder(),
                                node.right.preorder(),
                                Seq::empty(),
                                r,
                            );
                        }
                    } else {
                        proof {
                            lemma_taken_out_part(
                                seq![old(self).top()],
                                left0.preorder(),
                                left1.preorder(),
                                right0.preorder(),
                                r,
                            );
                        }
                    }
                    proof {
                        self.lemma_preorder_parts();
                        self.lemma_inorder_parts();
                        assert(old(self).preorder() =~= seq![old(self).top()] + left0.preorder()
                            + right0.preorder());
                        assert(old(self).preorder() =~= seq![old(self).top()] + left0.preorder()
                            + right0.preorder() + Seq::<Item>::empty());
                        assert(self.preorder() =~= seq![old(self).top()] + self.lhs().preorder()
                            + self.rhs().preorder());
                        assert(self.preorder() =~= seq![old(self).top()] + self.lhs().preorder()
                            + self.rhs().preorder() + Seq::<Item>::empty());
                        if Item::obeys_eq_spec() {
                            match left0.first_hit_pre(hit) {
                                Some(i) => {
                                    assert(self.preorder() =~= old(self).preorder().remove(1 + i));
                                },
                                None => {
                                    match right0.first_hit_pre(hit) {
                                        Some(i) => {
                                            assert(self.preorder() =~= old(self).preorder().remove(
                                                1 + left0.preorder().len() + i,
                                            ));
                                        },
                                        None => {},
                                    }
                                },
                            }
                        }
                    }
                    r
                },
            }
        }
    }
}

} // verus!
