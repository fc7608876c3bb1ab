//! Counting, copying out, and the rotations that keep a tree balanced.

use crate::bin_tree::{max_int, BinTree};
use vstd::prelude::*;

verus! {

impl<Item> BinTree<Item> {
    /// The tree after a right rotation: the left child becomes the top, the old
    /// top becomes its right child and adopts the left child's right subtree.
    /// The two nodes whose children changed get their heights from them.
    pub open spec fn spec_rotate_right(self) -> Self {
        if self.root is Some && self.lhs().root is Some {
            Self::spec_new_node(
                self.lhs().top(),
                self.lhs().lhs(),
                Self::spec_new_node(self.top(), self.lhs().rhs(), self.rhs()),
            )
        } else {
            self
        }
    }

    /// The tree after a left rotation, the mirror image of the right one.
    pub open spec fn spec_rotate_left(self) -> Self {
        if self.root is Some && self.rhs().root is Some {
            Self::spec_new_node(
                self.rhs().top(),
                Self::spec_new_node(self.top(), self.lhs(), self.rhs().lhs()),
                self.rhs().rhs(),
            )
        } else {
            self
        }
    }

    /// The tree with another left subtree; the cached height stays.
    pub open spec fn with_left(self, left: Self) -> Self
        recommends
            self.root is Some,
    {
        Self::spec_new_node(self.top(), left, self.rhs()).with_height(self.height)
    }

    /// The tree with another right subtree; the cached height stays.
    pub open spec fn with_right(self, right: Self) -> Self
        recommends
            self.root is Some,
    {
        Self::spec_new_node(self.top(), self.lhs(), right).with_height(self.height)
    }

    /// The tree after a left rotation of its left child and a right rotation
    /// of the whole.
    pub open spec fn spec_rotate_left_right(self) -> Self {
        if self.root is Some {
            self.with_left(self.lhs().spec_rotate_left()).spec_rotate_right()
        } else {
            self
        }
    }

    /// The tree after a right rotation of its right child and a left rotation
    /// of the whole.
    pub open spec fn spec_rotate_right_left(self) -> Self {
        if self.root is Some {
            self.with_right(self.rhs().spec_rotate_right()).spec_rotate_left()
        } else {
            self
        }
    }

    /// A right rotation is possible and no height leaves the machine's range.
    pub open spec fn can_rotate_right(self) -> bool {
        self.root is Some ==> {
            &&& self.lhs().root is Some
            &&& self.lhs().lhs().height < isize::MAX
            &&& max_int(self.lhs().rhs().height as int, self.rhs().height as int) + 1 < isize::MAX
        }
    }

    /// A left rotation is possible and no height leaves the machine's range.
    pub open spec fn can_rotate_left(self) -> bool {
        self.root is Some ==> {
            &&& self.rhs().root is Some
            &&& self.rhs().rhs().height < isize::MAX
            &&& max_int(self.lhs().height as int, self.rhs().lhs().height as int) + 1 < isize::MAX
        }
    }

    /// The tree after one rebalancing step at the top: nothing while the
    /// balance factor is within -1 and 1; a left-heavy tree is rotated to the
    /// right, after its left child was rotated to the left if that child
    /// leans right; a right-heavy tree is treated in the mirrored way.
    pub open spec fn spec_rebalance(self) -> Self {
        if self.root is None {
            self
        } else if self.spec_balance() > 1 {
            if self.lhs().spec_balance() >= 0 {
                self.spec_rotate_right()
            } else {
                self.spec_rotate_left_right()
            }
        } else if self.spec_balance() < -1 {
            if self.rhs().spec_balance() <= 0 {
                self.spec_rotate_left()
            } else {
                self.spec_rotate_right_left()
            }
        } else {
            self
        }
    }

    /// A rotation to the right keeps the items in their left-to-right order.
    pub proof fn lemma_rotate_right_inorder(self)
        ensures
            self.spec_rotate_right().inorder() == self.inorder(),
            self.spec_rotate_right().size() == self.size(),
    {
        if self.root is Some && self.lhs().root is Some {
            let r = self.spec_rotate_right();
            assert(r.rhs().inorder() =~= self.lhs().rhs().inorder().push(self.top())
                + self.rhs().inorder());
            assert(self.lhs().inorder() =~= self.lhs().lhs().inorder().push(self.lhs().top())
                + self.lhs().rhs().inorder());
            assert(r.inorder() =~= self.inorder());
            assert(self.lhs().size() == self.lhs().lhs().size() + 1 + self.lhs().rhs().size());
            assert(r.rhs().size() == self.lhs().rhs().size() + 1 + self.rhs().size());
        }
    }

    /// A rotation to the left keeps the items in their left-to-right order.
    pub proof fn lemma_rotate_left_inorder(self)
        ensures
            self.spec_rotate_left().inorder() == self.inorder(),
            self.spec_rotate_left().size() == self.size(),
    {
        if self.root is Some && self.rhs().root is Some {
            let r = self.spec_rotate_left();
            assert(r.lhs().inorder() =~= self.lhs().inorder().push(self.top())
                + self.rhs().lhs().inorder());
            assert(self.rhs().inorder() =~= self.rhs().lhs().inorder().push(self.rhs().top())
                + self.rhs().rhs().inorder());
            assert(r.inorder() =~= self.inorder());
            assert(self.rhs().size() == self.rhs().lhs().size() + 1 + self.rhs().rhs().size());
            assert(r.lhs().size() == self.lhs().size() + 1 + self.rhs().lhs().size());
        }
    }

    /// One rebalancing step keeps the items in their left-to-right order.
    pub proof fn lemma_rebalance_inorder(self)
        ensures
            self.spec_rebalance().inorder() == self.inorder(),
            self.spec_rebalance().size() == self.size(),
    {
        if self.root is Some {
            self.lemma_rotate_right_inorder();
            self.lemma_rotate_left_inorder();
            let a = self.with_left(self.lhs().spec_rotate_left());
            self.lhs().lemma_rotate_left_inorder();
            a.lemma_rotate_right_inorder();
            assert(a.inorder() == self.inorder());
            assert(a.size() == self.size());
            let b = self.with_right(self.rhs().spec_rotate_right());
            self.rhs().lemma_rotate_right_inorder();
            b.lemma_rotate_left_inorder();
            assert(b.inorder() == self.inorder());
            assert(b.size() == self.size());
        }
    }

    /// What a rotation to the right does to heights and balance, given right
    /// heights in both subtrees; the cached height at the top may be stale.
    pub proof fn lemma_rotate_right_shape(self)
        requires
            self.root is Some,
            self.lhs().root is Some,
            self.lhs().heights_ok(),
            self.rhs().heights_ok(),
            self.can_rotate_right(),
        ensures
            self.spec_rotate_right().heights_ok(),
            self.spec_rotate_right().root is Some,
            self.spec_rotate_right().rhs().root is Some,
            self.spec_rotate_right().rhs().height == max_int(
                self.lhs().rhs().height as int,
                self.rhs().height as int,
            ) + 1,
            self.spec_rotate_right().height == max_int(
                self.lhs().lhs().height as int,
                self.spec_rotate_right().rhs().height as int,
            ) + 1,
            self.spec_rotate_right().balanced() <==> {
                &&& self.lhs().lhs().balanced()
                &&& self.lhs().rhs().balanced()
                &&& self.rhs().balanced()
                &&& -1 <= self.lhs().rhs().height - self.rhs().height <= 1
                &&& -1 <= self.lhs().lhs().height - self.spec_rotate_right().rhs().height <= 1
            },
    {
        let r = self.spec_rotate_right();
        self.lhs().lemma_heights_top();
        self.rhs().lemma_heights_top();
        self.lhs().lhs().lemma_heights_top();
        self.lhs().rhs().lemma_heights_top();
        assert(r.rhs().lhs() == self.lhs().rhs());
        assert(r.rhs().rhs() == self.rhs());
        assert(r.rhs().heights_ok());
        assert(r.lhs() == self.lhs().lhs());
        assert(r.heights_ok());
        assert(r.rhs().balanced() <==> self.lhs().rhs().balanced() && self.rhs().balanced() && -1
            <= self.lhs().rhs().height - self.rhs().height <= 1);
    }

    /// What a rotation to the left does to heights and balance, given right
    /// heights in both subtrees; the cached height at the top may be stale.
    pub proof fn lemma_rotate_left_shape(self)
        requires
            self.root is Some,
            self.rhs().root is Some,
            self.lhs().heights_ok(),
            self.rhs().heights_ok(),
            self.can_rotate_left(),
        ensures
            self.spec_rotate_left().heights_ok(),
            self.spec_rotate_left().root is Some,
            self.spec_rotate_left().lhs().root is Some,
            self.spec_rotate_left().lhs().height == max_int(
                self.lhs().height as int,
                self.rhs().lhs().height as int,
            ) + 1,
            self.spec_rotate_left().height == max_int(
                self.spec_rotate_left().lhs().height as int,
                self.rhs().rhs().height as int,
            ) + 1,
            self.spec_rotate_left().balanced() <==> {
                &&& self.lhs().balanced()
                &&& self.rhs().lhs().balanced()
                &&& self.rhs().rhs().balanced()
                &&& -1 <= self.lhs().height - self.rhs().lhs().height <= 1
                &&& -1 <= self.spec_rotate_left().lhs().height - self.rhs().rhs().height <= 1
            },
    {
        let r = self.spec_rotate_left();
        self.lhs().lemma_heights_top();
        self.rhs().lemma_heights_top();
        self.rhs().lhs().lemma_heights_top();
        self.rhs().rhs().lemma_heights_top();
        assert(r.lhs().lhs() == self.lhs());
        assert(r.lhs().rhs() == self.rhs().lhs());
        assert(r.lhs().heights_ok());
        assert(r.rhs() == self.rhs().rhs());
        assert(r.heights_ok());
        assert(r.lhs().balanced() <==> self.lhs().balanced() && self.rhs().lhs().balanced() && -1
            <= self.lhs().height - self.rhs().lhs().height <= 1);
    }

    /// On a tree whose heights are right, one rebalancing step keeps them
    /// right and never makes the tree higher. If the two subtrees are balanced
    /// and differ in height by at most 2, the result is balanced and at most
    /// one lower than before. A balanced tree is left as it is.
    pub proof fn lemma_rebalance_avl(self)
        requires
            self.heights_ok(),
        ensures
            self.spec_rebalance().heights_ok(),
            self.spec_rebalance().height <= self.height,
            (self.root is Some && self.lhs().balanced() && self.rhs().balanced() && -2
                <= self.spec_balance() <= 2) ==> self.spec_rebalance().balanced()
                && self.spec_rebalance().height >= self.height - 1,
            -1 <= self.spec_balance() <= 1 ==> self.spec_rebalance() == self,
    {
        self.lemma_heights_two_levels();
        if self.root is Some {
            let l = self.lhs();
            let r = self.rhs();
            if self.spec_balance() > 1 {
                assert(l.root is Some);
                if l.spec_balance() >= 0 {
                    self.lemma_rotate_right_shape();
                } else {
                    assert(l.rhs().root is Some);
                    l.rhs().lemma_heights_two_levels();
                    l.lemma_rotate_left_shape();
                    let a = self.with_left(l.spec_rotate_left());
                    assert(a.lhs() == l.spec_rotate_left());
                    assert(a.rhs() == r);
                    assert(a.lhs().lhs().lhs() == l.lhs());
                    assert(a.lhs().lhs().rhs() == l.rhs().lhs());
                    assert(a.lhs().rhs() == l.rhs().rhs());
                    a.lemma_rotate_right_shape();
                    assert(l.balanced() ==> l.lhs().balanced() && l.rhs().balanced());
                    assert(l.rhs().balanced() ==> l.rhs().lhs().balanced()
                        && l.rhs().rhs().balanced());
                }
            } else if self.spec_balance() < -1 {
                assert(r.root is Some);
                if r.spec_balance() <= 0 {
                    self.lemma_rotate_left_shape();
                } else {
                    assert(r.lhs().root is Some);
                    r.lhs().lemma_heights_two_levels();
                    r.lemma_rotate_right_shape();
                    let a = self.with_right(r.spec_rotate_right());
                    assert(a.rhs() == r.spec_rotate_right());
                    assert(a.lhs() == l);
                    assert(a.rhs().rhs().rhs() == r.rhs());
                    assert(a.rhs().rhs().lhs() == r.lhs().rhs());
                    assert(a.rhs().lhs() == r.lhs().lhs());
                    a.lemma_rotate_left_shape();
                    assert(r.balanced() ==> r.lhs().balanced() && r.rhs().balanced());
                    assert(r.lhs().balanced() ==> r.lhs().lhs().balanced()
                        && r.lhs().rhs().balanced());
                }
            }
        }
    }

    /// The facts of `lemma_heights_top` for a tree, its subtrees and theirs.
    pub proof fn lemma_heights_two_levels(self)
        requires
            self.heights_ok(),
        ensures
            self.height >= 0,
            self.root is None <==> self.height == 0,
            self.root is Some ==> {
                &&& self.lhs().heights_ok()
                &&& self.rhs().heights_ok()
                &&& self.height == max_int(self.lhs().height as int, self.rhs().height as int) + 1
                &&& self.lhs().height >= 0
                &&& self.rhs().height >= 0
                &&& (self.lhs().root is None <==> self.lhs().height == 0)
                &&& (self.rhs().root is None <==> self.rhs().height == 0)
                &&& (self.lhs().root is Some ==> {
                    &&& self.lhs().lhs().heights_ok()
                    &&& self.lhs().rhs().heights_ok()
                    &&& self.lhs().height == max_int(
                        self.lhs().lhs().height as int,
                        self.lhs().rhs().height as int,
                    ) + 1
                    &&& self.lhs().lhs().height >= 0
                    &&& self.lhs().rhs().height >= 0
                    &&& (self.lhs().lhs().root is None <==> self.lhs().lhs().height == 0)
                    &&& (self.lhs().rhs().root is None <==> self.lhs().rhs().height == 0)
                })
                &&& (self.rhs().root is Some ==> {
                    &&& self.rhs().lhs().heights_ok()
                    &&& self.rhs().rhs().heights_ok()
                    &&& self.rhs().height == max_int(
                        self.rhs().lhs().height as int,
                        self.rhs().rhs().height as int,
                    ) + 1
                    &&& self.rhs().lhs().height >= 0
                    &&& self.rhs().rhs().height >= 0
                    &&& (self.rhs().lhs().root is None <==> self.rhs().lhs().height == 0)
                    &&& (self.rhs().rhs().root is None <==> self.rhs().rhs().height == 0)
                })
            },
    {
        self.lemma_heights_top();
        if self.root is Some {
            self.lhs().lemma_heights_top();
            self.rhs().lemma_heights_top();
            if self.lhs().root is Some {
                self.lhs().lhs().lemma_heights_top();
                self.lhs().rhs().lemma_heights_top();
            }
            if self.rhs().root is Some {
                self.rhs().lhs().lemma_heights_top();
                self.rhs().rhs().lemma_heights_top();
            }
        }
    }

    /// Rotates the tree to the right; an empty tree is left alone.
    pub fn rotate_right(&mut self)
        requires
            old(self).can_rotate_right(),
        ensures
            *final(self) == old(self).spec_rotate_right(),
            final(self).inorder() == old(self).inorder(),
    {
        proof {
            self.lemma_rotate_right_inorder();
        }
        if !self.is_empty() {
            let mut top = Self::new();
            core::mem::swap(self, &mut top);
            match top.into_node() {
                None => {},
                Some((value, left, right)) => {
                    match left.into_node() {
                        None => {},
                        Some((left_value, left_left, left_right)) => {
                            let lower = Self::new_node(value, left_right, right);
                            *self = Self::new_node(left_value, left_left, lower);
                        },
                    }
                },
            }
        }
    }

    /// Rotates the tree to the left; an empty tree is left alone.
    pub fn rotate_left(&mut self)
        requires
            old(self).can_rotate_left(),
        ensures
            *final(self) == old(self).spec_rotate_left(),
            final(self).inorder() == old(self).inorder(),
    {
        proof {
            self.lemma_rotate_left_inorder();
        }
        if !self.is_empty() {
            let mut top = Self::new();
            core::mem::swap(self, &mut top);
            match top.into_node() {
                None => {},
                Some((value, left, right)) => {
                    match right.into_node() {
                        None => {},
                        Some((right_value, right_left, right_right)) => {
                            let lower = Self::new_node(value, left, right_left);
                            *self = Self::new_node(right_value, lower, right_right);
                        },
                    }
                },
            }
        }
    }

    /// Rotates the left child to the left and then the tree to the right; an
    /// empty tree is left alone.
    pub fn rotate_left_right(&mut self)
        requires
            old(self).root is Some ==> old(self).lhs().root is Some
                && old(self).lhs().can_rotate_left() && old(self).with_left(
                old(self).lhs().spec_rotate_left(),
            ).can_rotate_right(),
        ensures
            *final(self) == old(self).spec_rotate_left_right(),
            final(self).inorder() == old(self).inorder(),
    {
        match &mut self.root {
            None => {},
            Some(node) => {
                node.left.rotate_left();
                proof {
                    assert(*self == old(self).with_left(old(self).lhs().spec_rotate_left()));
                    assert(self.inorder() =~= old(self).inorder());
                }
                self.rotate_right();
            },
        }
    }

    /// Rotates the right child to the right and then the tree to the left; an
    /// empty tree is left alone.
    pub fn rotate_right_left(&mut self)
        requires
            old(self).root is Some ==> old(self).rhs().root is Some
                && old(self).rhs().can_rotate_right() && old(self).with_right(
                old(self).rhs().spec_rotate_right(),
            ).can_rotate_left(),
        ensures
            *final(self) == old(self).spec_rotate_right_left(),
            final(self).inorder() == old(self).inorder(),
    {
        match &mut self.root {
            None => {},
            Some(node) => {
                node.right.rotate_right();
                proof {
                    assert(*self == old(self).with_right(old(self).rhs().spec_rotate_right()));
                    assert(self.inorder() =~= old(self).inorder());
                }
                self.rotate_left();
            },
        }
    }

    /// One rebalancing step at the top of a tree whose heights are right.
    ///
    /// The items keep their left-to-right order and the heights stay right.
    /// Where the two subtrees are balanced and differ in height by at most 2,
    /// the result is balanced, and its height is the old one or one less.
    pub fn rebalance(&mut self)
        requires
            old(self).heights_ok(),
        ensures
            *final(self) == old(self).spec_rebalance(),
            final(self).inorder() == old(self).inorder(),
            final(self).heights_ok(),
            final(self).height <= old(self).height,
            (old(self).root is Some && old(self).lhs().balanced() && old(self).rhs().balanced() && -2
                <= old(self).spec_balance() <= 2) ==> final(self).is_avl() && final(self).height
                >= old(self).height - 1,
            old(self).balanced() ==> *final(self) == *old(self),
    {
        proof {
            self.lemma_rebalance_inorder();
            self.lemma_rebalance_avl();
            self.lemma_heights_two_levels();
            if self.root is Some {
                if self.lhs().root is Some {
                    self.lhs().rhs().lemma_heights_two_levels();
                }
                if self.rhs().root is Some {
                    self.rhs().lhs().lemma_heights_two_levels();
                }
            }
        }
        match &self.root {
            None => {},
            Some(node) => {
                let b = node.left.height - node.right.height;
                if b > 1 {
                    if node.left.balance() >= 0 {
                        self.rotate_right();
                    } else {
                        self.rotate_left_right();
                    }
                } else if b < -1 {
                    if node.right.balance() <= 0 {
                        self.rotate_left();
                    } else {
                        self.rotate_right_left();
                    }
                }
            },
        }
    }

    /// The node after its height was recomputed from its subtrees and the node
    /// was then rebalanced if asked.
    pub open spec fn spec_settle(self, rebalance: bool) -> Self
        recommends
            self.root is Some,
    {
        let t = self.with_height(
            (max_int(self.lhs().height as int, self.rhs().height as int) + 1) as isize,
        );
        if rebalance {
            t.spec_rebalance()
        } else {
            t
        }
    }

    /// Recomputes the height at the top of a node from its subtrees and then
    /// rebalances the node if asked; used on the way back from a change below.
    pub fn settle(&mut self, rebalance: bool)
        requires
            old(self).root is Some,
            old(self).lhs().heights_ok(),
            old(self).rhs().heights_ok(),
            old(self).lhs().height < isize::MAX,
            old(self).rhs().height < isize::MAX,
        ensures
            *final(self) == old(self).spec_settle(rebalance),
            final(self).root is Some,
            final(self).heights_ok(),
            final(self).inorder() == old(self).inorder(),
            final(self).height <= max_int(
                old(self).lhs().height as int,
                old(self).rhs().height as int,
            ) + 1,
            !rebalance ==> final(self).height == max_int(
                old(self).lhs().height as int,
                old(self).rhs().height as int,
            ) + 1,
            -1 <= old(self).spec_balance() <= 1 ==> *final(self) == old(self).with_height(
                final(self).height,
            ) && final(self).height == max_int(
                old(self).lhs().height as int,
                old(self).rhs().height as int,
            ) + 1,
            (rebalance && old(self).lhs().balanced() && old(self).rhs().balanced()
                && -2 <= old(self).spec_balance() <= 2)
                ==> final(self).balanced() && final(self).height >= max_int(
                old(self).lhs().height as int,
                old(self).rhs().height as int,
            ),
    {
        self.update_height();
        proof {
            assert(self.lhs() == old(self).lhs());
            assert(self.rhs() == old(self).rhs());
            assert(self.inorder() =~= old(self).inorder());
        }
        if rebalance {
            self.rebalance();
            proof {
                old(self).with_height(
                    (max_int(old(self).lhs().height as int, old(self).rhs().height as int)
                        + 1) as isize,
                ).lemma_rebalance_root();
            }
        }
    }

    /// One rebalancing step leaves a node a node.
    pub proof fn lemma_rebalance_root(self)
        requires
            self.heights_ok(),
            self.root is Some,
        ensures
            self.spec_rebalance().root is Some,
    {
        self.lemma_heights_two_levels();
        if self.lhs().root is Some {
            self.lhs().rhs().lemma_heights_two_levels();
        }
        if self.rhs().root is Some {
            self.rhs().lhs().lemma_heights_two_levels();
        }
    }

    /// The number of items in the tree, counted by walking it.
    pub fn len(&self) -> (n: usize)
        requires
            self.count() <= usize::MAX,
        ensures
            n == self.count(),
            n == self.size(),
    {
        proof {
            self.lemma_order_lengths();
        }
        let mut it = self.iter();
        let mut n: usize = 0;
        loop
            invariant
                n + it.remaining().len() == self.count(),
                self.count() <= usize::MAX,
            ensures
                n == self.count(),
            decreases it.remaining().len(),
        {
            match it.next() {
                None => {
                    break ;
                },
                Some(_) => {
                    n = n + 1;
                },
            }
        }
        n
    }

    /// Clones of the items, from left to right.
    pub fn to_vec(&self) -> (v: Vec<Item>) where Item: Clone
        ensures
            v@.len() == self.count(),
            forall|i: int| 0 <= i < v@.len() ==> cloned(#[trigger] self.inorder()[i], v@[i]),
    {
        let mut it = self.iter();
        let mut v: Vec<Item> = Vec::new();
        loop
            invariant
                v@.len() + it.remaining().len() == self.count(),
                forall|i: int| 0 <= i < v@.len() ==> cloned(#[trigger] self.inorder()[i], v@[i]),
                it.remaining() == self.inorder().skip(v@.len() as int),
            ensures
                v@.len() == self.count(),
                forall|i: int| 0 <= i < v@.len() ==> cloned(#[trigger] self.inorder()[i], v@[i]),
            decreases it.remaining().len(),
        {
            match it.next() {
                None => {
                    break ;
                },
                Some(item) => {
                    proof {
                        assert(self.inorder().skip(v@.len() as int)[0] == self.inorder()[v@.len() as int]);
                        assert(self.inorder().skip(v@.len() as int).drop_first()
                            =~= self.inorder().skip(v@.len() as int + 1));
                    }
                    v.push(item.clone());
                },
            }
        }
        v
    }

    /// Moves the items out of the tree into a vector, from left to right.
    pub fn into_vec(self) -> (v: Vec<Item>)
        ensures
            v@ == self.inorder(),
    {
        let mut it = self.into_iter();
        let mut v: Vec<Item> = Vec::new();
        loop
            invariant
                v@ + it.remaining() == self.inorder(),
            ensures
                v@ == self.inorder(),
            decreases it.remaining().len(),
        {
            match it.next() {
                None => {
                    proof {
                        assert(v@ + it.remaining() =~= v@);
                    }
                    break ;
                },
                Some(item) => {
                    let ghost before = v@;
                    let ghost rest = it.remaining();
                    v.push(item);
                    proof {
                        assert(before.push(item) + rest =~= self.inorder());
                    }
                },
            }
        }
        v
    }

    /// Whether `other` is this tree with each item replaced by a clone of it.
    pub open spec fn cloned_as(self, other: Self) -> bool where Item: Clone
        decreases self,
    {
        &&& self.height == other.height
        &&& match self.root {
            None => other.root is None,
            Some(node) => {
                &&& other.root is Some
                &&& cloned(node.value, other.top())
                &&& node.left.cloned_as(other.lhs())
                &&& node.right.cloned_as(other.rhs())
            },
        }
    }
}

impl<Item: Clone> Clone for BinTree<Item> {
    /// A tree of the same shape and with the same heights that holds clones of
    /// the items.
    fn clone(&self) -> (copy: Self)
        ensures
            self.cloned_as(copy),
        decreases self,
    {
        match &self.root {
            None => BinTree { root: None, height: self.height },
            Some(node) => {
                let value = node.value.clone();
                let left = node.left.clone();
                let right = node.right.clone();
                BinTree {
                    root: Some(Box::new(crate::bin_tree::BinTreeNode { value, left, right })),
                    height: self.height,
                }
            },
        }
    }
}

impl<Item> Default for BinTree<Item> {
    /// The empty tree.
    fn default() -> (t: Self)
        ensures
            t == Self::spec_new(),
    {
        Self::new()
    }
}

} // verus!
