//! Recomputing the cached heights of a whole tree, or of one of its spines.

use crate::bin_tree::{max_int, BinTree};
use vstd::prelude::*;

verus! {

impl<Item> BinTree<Item> {
    /// The tree after its heights were recomputed from the bottom up.
    ///
    /// The recomputation visits the left subtrees if `rec_left` is set and the
    /// right subtrees if `rec_right` is set; a subtree that is not visited
    /// keeps its cached heights. Each visited node gets the larger of its
    /// subtrees' heights plus one, and is then rebalanced if `rebalance` is
    /// set. An empty tree gets height 0.
    pub open spec fn spec_recalculate(self, rec_left: bool, rec_right: bool, rebalance: bool) -> Self
        decreases self,
    {
        match self.root {
            None => Self::spec_new(),
            Some(node) => {
                let left = if rec_left {
                    node.left.spec_recalculate(rec_left, rec_right, rebalance)
                } else {
                    node.left
                };
                let right = if rec_right {
                    node.right.spec_recalculate(rec_left, rec_right, rebalance)
                } else {
                    node.right
                };
                let t = Self::spec_new_node(node.value, left, right);
                if rebalance {
                    t.spec_rebalance()
                } else {
                    t
                }
            },
        }
    }

    /// Whether the recomputation finds a node whose cached height is not the
    /// one it computes for it.
    pub open spec fn spec_recalculate_changed(
        self,
        rec_left: bool,
        rec_right: bool,
        rebalance: bool,
    ) -> bool
        decreases self,
    {
        match self.root {
            None => false,
            Some(node) => {
                let left = if rec_left {
                    node.left.spec_recalculate(rec_left, rec_right, rebalance)
                } else {
                    node.left
                };
                let right = if rec_right {
                    node.right.spec_recalculate(rec_left, rec_right, rebalance)
                } else {
                    node.right
                };
                ||| rec_left && node.left.spec_recalculate_changed(rec_left, rec_right, rebalance)
                ||| rec_right && node.right.spec_recalculate_changed(
                    rec_left,
                    rec_right,
                    rebalance,
                )
                ||| self.height != max_int(left.height as int, right.height as int) + 1
            },
        }
    }

    /// The recomputation can be carried out: no height that it computes leaves
    /// the machine's range, and where it rebalances, the subtrees that it does
    /// not visit have right heights.
    pub open spec fn can_recalculate(self, rec_left: bool, rec_right: bool, rebalance: bool) -> bool
        decreases self,
    {
        match self.root {
            None => true,
            Some(node) => {
                let left = if rec_left {
                    node.left.spec_recalculate(rec_left, rec_right, rebalance)
                } else {
                    node.left
                };
                let right = if rec_right {
                    node.right.spec_recalculate(rec_left, rec_right, rebalance)
                } else {
                    node.right
                };
                &&& rec_left ==> node.left.can_recalculate(rec_left, rec_right, rebalance)
                &&& rec_right ==> node.right.can_recalculate(rec_left, rec_right, rebalance)
                &&& left.height < isize::MAX
                &&& right.height < isize::MAX
                &&& rebalance && !rec_left ==> node.left.heights_ok()
                &&& rebalance && !rec_right ==> node.right.heights_ok()
            },
        }
    }

    /// What the recomputation achieves: the items keep their order; the
    /// heights are right afterwards where every subtree was visited or the
    /// tree was rebalanced; and a tree whose heights are right, and which is
    /// balanced if rebalancing is asked for, is not changed at all.
    pub proof fn lemma_recalculate(self, rec_left: bool, rec_right: bool, rebalance: bool)
        requires
            self.can_recalculate(rec_left, rec_right, rebalance),
        ensures
            self.spec_recalculate(rec_left, rec_right, rebalance).inorder() == self.inorder(),
            rebalance || (rec_left && rec_right) ==> self.spec_recalculate(
                rec_left,
                rec_right,
                rebalance,
            ).heights_ok(),
            self.heights_ok() && (rebalance ==> self.balanced()) ==> self.spec_recalculate(
                rec_left,
                rec_right,
                rebalance,
            ) == self && !self.spec_recalculate_changed(rec_left, rec_right, rebalance),
        decreases self,
    {
        match self.root {
            None => {
                assert(self.inorder() =~= Seq::<Item>::empty());
                assert(Self::spec_new().inorder() =~= Seq::<Item>::empty());
            },
            Some(node) => {
                if rec_left {
                    node.left.lemma_recalculate(rec_left, rec_right, rebalance);
                }
                if rec_right {
                    node.right.lemma_recalculate(rec_left, rec_right, rebalance);
                }
                let left = if rec_left {
                    node.left.spec_recalculate(rec_left, rec_right, rebalance)
                } else {
                    node.left
                };
                let right = if rec_right {
                    node.right.spec_recalculate(rec_left, rec_right, rebalance)
                } else {
                    node.right
                };
                let t = Self::spec_new_node(node.value, left, right);
                assert(t.inorder() =~= self.inorder());
                if rebalance {
                    t.lemma_rebalance_inorder();
                    assert(t.heights_ok());
                    t.lemma_rebalance_avl();
                }
                if self.heights_ok() && (rebalance ==> self.balanced()) {
                    self.lemma_heights_top();
                    assert(left == node.left);
                    assert(right == node.right);
                    assert(t == self);
                }
            },
        }
    }

    /// A tree that is no deeper than the machine can count can have all its
    /// heights recomputed, and its height is then its depth.
    pub proof fn lemma_recalculate_all(self)
        requires
            self.depth() <= isize::MAX,
        ensures
            self.can_recalculate(true, true, false),
            self.spec_recalculate(true, true, false).height == self.depth(),
        decreases self,
    {
        match self.root {
            None => {},
            Some(node) => {
                node.left.lemma_recalculate_all();
                node.right.lemma_recalculate_all();
            },
        }
    }

    /// Recomputes every cached height of the tree from the bottom up and says
    /// whether a node's height was found wrong. Afterwards all heights are
    /// right; a tree whose heights were right is not changed and `false` is
    /// returned.
    pub fn recalculate_heights(&mut self) -> (changed: bool)
        requires
            old(self).depth() <= isize::MAX,
        ensures
            *final(self) == old(self).spec_recalculate(true, true, false),
            changed == old(self).spec_recalculate_changed(true, true, false),
            final(self).heights_ok(),
            final(self).inorder() == old(self).inorder(),
            old(self).heights_ok() ==> !changed && *final(self) == *old(self),
    {
        proof {
            self.lemma_recalculate_all();
            self.lemma_recalculate(true, true, false);
        }
        self.recalculate_heights_rec(true, true, false).1
    }

    /// Recomputes cached heights from the bottom up, along the sides chosen
    /// by `rec_left` and `rec_right`, rebalancing each visited node on the way
    /// back if `rebalance` is set. Returns the height of the tree and whether
    /// a node's height was found wrong.
    pub fn recalculate_heights_rec(&mut self, rec_left: bool, rec_right: bool, rebalance: bool) -> (r:
        (isize, bool))
        requires
            old(self).can_recalculate(rec_left, rec_right, rebalance),
        ensures
            *final(self) == old(self).spec_recalculate(rec_left, rec_right, rebalance),
            r.0 == final(self).height,
            r.1 == old(self).spec_recalculate_changed(rec_left, rec_right, rebalance),
            final(self).inorder() == old(self).inorder(),
            rebalance || (rec_left && rec_right) ==> final(self).heights_ok(),
            old(self).heights_ok() && (rebalance ==> old(self).balanced()) ==> !r.1 && *final(self)
                == *old(self),
        decreases *old(self),
    {
        proof {
            self.lemma_recalculate(rec_left, rec_right, rebalance);
        }
        let mut changed = false;
        match &mut self.root {
            None => {
                self.height = 0;
            },
            Some(node) => {
                let mut height_left = node.left.height;
                let mut height_right = node.right.height;
                let mut changed_left = false;
                let mut changed_right = false;
                if rec_left {
                    let r = node.left.recalculate_heights_rec(rec_left, rec_right, rebalance);
                    height_left = r.0;
                    changed_left = r.1;
                }
                if rec_right {
                    let r = node.right.recalculate_heights_rec(rec_left, rec_right, rebalance);
                    height_right = r.0;
                    changed_right = r.1;
                }
                let height_rec = if height_left >= height_right {
                    height_left + 1
                } else {
                    height_right + 1
                };
                if changed_left || changed_right {
                    changed = true;
                }
                if self.height != height_rec {
                    changed = true;
                    self.height = height_rec;
                }
                if rebalance {
                    proof {
                        if rec_left {
                            old(self).lhs().lemma_recalculate(rec_left, rec_right, rebalance);
                        }
                        if rec_right {
                            old(self).rhs().lemma_recalculate(rec_left, rec_right, rebalance);
                        }
                    }
                    self.rebalance();
                }
            },
        }
        (self.height, changed)
    }
}

} // verus!
