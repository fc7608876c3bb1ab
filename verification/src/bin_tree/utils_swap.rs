//! Reaching items by their position, and exchanging two items in place.

use crate::bin_tree::order::{key_fn_is, key_fn_total, natural_order};
use crate::bin_tree::utils_lookup::equals;
use crate::bin_tree::BinTree;
use crate::BinTreeError;
use vstd::prelude::*;
use vstd::std_specs::cmp::{PartialEqSpec, PartialOrdSpec};

verus! {

impl<Item> BinTree<Item> {
    /// Replacing the items at two different positions can be done in either
    /// order, and leaves all other items and the shape as they were.
    pub proof fn lemma_update_two(self, i: int, a: Item, j: int, b: Item)
        requires
            0 <= i < self.count(),
            0 <= j < self.count(),
            i != j,
        ensures
            self.update_at(i, a).update_at(j, b) == self.update_at(j, b).update_at(i, a),
            self.update_at(i, a).update_at(j, b).inorder() == self.inorder().update(i, a).update(
                j,
                b,
            ),
            self.update_at(i, a).count() == self.count(),
        decreases self,
    {
        self.lemma_update_at(i, a);
        self.lemma_update_at(j, b);
        self.update_at(i, a).lemma_update_at(j, b);
        if self.root is Some {
            self.lemma_inorder_parts();
            let n = self.lhs().count();
            let l = self.lhs();
            let r = self.rhs();
            if i < n {
                l.lemma_update_at(i, a);
            }
            if j < n {
                l.lemma_update_at(j, b);
            }
            if i > n {
                r.lemma_update_at(i - n - 1, a);
            }
            if j > n {
                r.lemma_update_at(j - n - 1, b);
            }
            if i < n && j < n {
                l.lemma_update_two(i, a, j, b);
            } else if i > n && j > n {
                r.lemma_update_two(i - n - 1, a, j - n - 1, b);
            }
        }
    }

    /// An exclusive reference to the item at position `i`, counted from the
    /// left; `None` where the tree has no such position.
    pub fn item_mut(&mut self, i: usize) -> (item: Option<&mut Item>)
        requires
            old(self).count() <= usize::MAX,
        ensures
            i >= old(self).count() ==> item is None && *final(self) == *old(self),
            i < old(self).count() ==> item is Some && *item.unwrap()
                == old(self).inorder()[i as int]
                && *final(self) == old(self).update_at(i as int, *final(item.unwrap())),
        decreases *old(self),
    {
        match &mut self.root {
            None => {
                proof {
                    assert(old(self).inorder() =~= Seq::<Item>::empty());
                }
                None
            },
            Some(node) => {
                proof {
                    old(self).lemma_inorder_parts();
                }
                let n = node.left.len();
                if i < n {
                    node.left.item_mut(i)
                } else if i == n {
                    Some(&mut node.value)
                } else {
                    node.right.item_mut(i - n - 1)
                }
            },
        }
    }

    /// Exclusive references to the items at the positions `i` and `j`, counted
    /// from the left, where `i` comes before `j`; `None` where the tree has no
    /// two such positions.
    pub fn pair_mut(&mut self, i: usize, j: usize) -> (pair: Option<(&mut Item, &mut Item)>)
        requires
            old(self).count() <= usize::MAX,
        ensures
            !(i < j < old(self).count()) ==> pair is None && *final(self) == *old(self),
            i < j < old(self).count() ==> pair is Some && *pair.unwrap().0
                == old(self).inorder()[i as int] && *pair.unwrap().1
                == old(self).inorder()[j as int] && *final(self)
                == old(self).update_at(i as int, *final(pair.unwrap().0)).update_at(
                j as int,
                *final(pair.unwrap().1),
            ),
        decreases *old(self),
    {
        if i >= j {
            return None;
        }
        match &mut self.root {
            None => {
                proof {
                    assert(old(self).inorder() =~= Seq::<Item>::empty());
                }
                None
            },
            Some(node) => {
                proof {
                    old(self).lemma_inorder_parts();
                    old(self).lhs().lemma_update_ranges();
                    old(self).rhs().lemma_update_ranges();
                }
                let n = node.left.len();
                let m = node.right.len();
                if j < n {
                    node.left.pair_mut(i, j)
                } else if i > n {
                    node.right.pair_mut(i - n - 1, j - n - 1)
                } else if j - n > m {
                    None
                } else if i < n && j == n {
                    let first = node.left.item_mut(i).unwrap();
                    Some((first, &mut node.value))
                } else if i < n {
                    let first = node.left.item_mut(i).unwrap();
                    let second = node.right.item_mut(j - n - 1).unwrap();
                    Some((first, second))
                } else {
                    let second = node.right.item_mut(j - n - 1).unwrap();
                    Some((&mut node.value, second))
                }
            },
        }
    }

    /// Replacing an item keeps the number of items, for every position and value.
    pub proof fn lemma_update_ranges(self)
        ensures
            forall|i: int, v: Item|
                0 <= i < self.count() ==> (#[trigger] self.update_at(i, v)).count() == self.count(),
    {
        assert forall|i: int, v: Item| 0 <= i < self.count() implies (#[trigger] self.update_at(
            i,
            v,
        )).count() == self.count() by {
            self.lemma_update_at(i, v);
        }
    }

    /// The position, counted from the left, of the first item in pre-order
    /// that equals `target_value`.
    pub fn position(&self, target_value: &Item) -> (place: Option<usize>) where Item: PartialEq
        requires
            self.count() <= usize::MAX,
        ensures
            place matches Some(i) ==> i < self.count(),
            Item::obeys_eq_spec() ==> match self.first_hit(equals(*target_value)) {
                Some(i) => place == Some(i as usize),
                None => place is None,
            },
        decreases self,
    {
        match &self.root {
            None => None,
            Some(node) => {
                proof {
                    self.lemma_hit_parts(equals(*target_value));
                }
                let n = node.left.len();
                if *target_value == node.value {
                    Some(n)
                } else {
                    match node.left.position(target_value) {
                        Some(i) => Some(i),
                        None => match node.right.position(target_value) {
                            Some(i) => Some(n + 1 + i),
                            None => None,
                        },
                    }
                }
            },
        }
    }

    /// The position, counted from the left, of the item of a sorted tree whose
    /// key equals `target_key`, with the keys given by `to_key` and ordered by
    /// themselves.
    pub fn position_sorted_with_key<F, Key>(&self, target_key: &Key, to_key: &F) -> (place: Option<
        usize,
    >) where Key: PartialOrd, F: Fn(&Item) -> &Key
        requires
            self.count() <= usize::MAX,
            key_fn_total(*to_key),
        ensures
            place matches Some(i) ==> i < self.count(),
            forall|kf: spec_fn(Item) -> Key|
                #![trigger key_fn_is(*to_key, kf)]
                key_fn_is(*to_key, kf) && Key::obeys_partial_cmp_spec() ==> match self.locate(
                    kf,
                    natural_order(),
                    *target_key,
                ) {
                    Some(i) => place is Some && place.unwrap() == i,
                    None => place is None,
                },
        decreases self,
    {
        match &self.root {
            None => None,
            Some(node) => {
                proof {
                    self.lemma_inorder_parts();
                }
                let n = node.left.len();
                let top_key = to_key(&node.value);
                if *target_key < *top_key {
                    let place = node.left.position_sorted_with_key(target_key, to_key);
                    proof {
                        assert forall|kf: spec_fn(Item) -> Key|
                            #![trigger key_fn_is(*to_key, kf)]
                            key_fn_is(*to_key, kf) implies (self.lhs().locate(
                            kf,
                            natural_order(),
                            *target_key,
                        ) matches Some(i) ==> 0 <= i < self.lhs().count()) by {
                            self.lhs().lemma_locate_found(kf, natural_order(), *target_key);
                        }
                    }
                    place
                } else if *target_key > *top_key {
                    let place = node.right.position_sorted_with_key(target_key, to_key);
                    proof {
                        assert forall|kf: spec_fn(Item) -> Key|
                            #![trigger key_fn_is(*to_key, kf)]
                            key_fn_is(*to_key, kf) implies (self.rhs().locate(
                            kf,
                            natural_order(),
                            *target_key,
                        ) matches Some(i) ==> 0 <= i < self.rhs().count()) by {
                            self.rhs().lemma_locate_found(kf, natural_order(), *target_key);
                        }
                    }
                    match place {
                        Some(i) => Some(n + 1 + i),
                        None => None,
                    }
                } else {
                    Some(n)
                }
            },
        }
    }

    /// What an exchange of the items equal to `value1` and `value2` comes to,
    /// where equality on the items is specified: the first item in pre-order
    /// that equals each value is looked up; a missing first item, a missing
    /// second item, and one item found for both are errors that leave the
    /// tree as it is; otherwise the two items change places.
    pub open spec fn swapped(
        self,
        after: Self,
        outcome: Result<(), BinTreeError>,
        first: Option<int>,
        second: Option<int>,
    ) -> bool {
        match (first, second) {
            (None, _) => outcome == Err::<(), BinTreeError>(BinTreeError::SwapNotFound1) && after
                == self,
            (Some(_), None) => outcome == Err::<(), BinTreeError>(BinTreeError::SwapNotFound2)
                && after == self,
            (Some(i), Some(j)) => if i == j {
                outcome == Err::<(), BinTreeError>(BinTreeError::SwapSame) && after == self
            } else {
                outcome == Ok::<(), BinTreeError>(()) && after == self.update_at(
                    i,
                    self.inorder()[j],
                ).update_at(j, self.inorder()[i])
            },
        }
    }

    /// Exchanges the first item in pre-order that equals `value1` with the
    /// first one that equals `value2`; the shape of the tree stays.
    pub fn swap(&mut self, value1: &Item, value2: &Item) -> (outcome: Result<(), BinTreeError>) where
        Item: PartialEq,

        requires
            old(self).count() <= usize::MAX,
        ensures
            outcome is Err ==> *final(self) == *old(self),
            old(self).same_shape(*final(self)),
            outcome is Ok ==> exists|i: int, j: int|
                0 <= i < old(self).count() && 0 <= j < old(self).count() && i != j && *final(self)
                    == #[trigger] old(self).update_at(i, old(self).inorder()[j]).update_at(
                    j,
                    old(self).inorder()[i],
                ),
            Item::obeys_eq_spec() ==> old(self).swapped(
                *final(self),
                outcome,
                old(self).first_hit(equals(*value1)),
                old(self).first_hit(equals(*value2)),
            ),
    {
        proof {
            self.lemma_same_shape_self();
            self.lemma_first_hit(equals(*value1));
            self.lemma_first_hit(equals(*value2));
        }
        let first = match self.position(value1) {
            Some(i) => i,
            None => {
                return Err(BinTreeError::SwapNotFound1);
            },
        };
        let second = match self.position(value2) {
            Some(j) => j,
            None => {
                return Err(BinTreeError::SwapNotFound2);
            },
        };
        if first == second {
            return Err(BinTreeError::SwapSame);
        }
        self.exchange(first, second);
        Ok(())
    }

    /// Exchanges the items at the positions `i` and `j`, counted from the
    /// left; nothing happens where the tree has no two such positions.
    pub fn exchange(&mut self, i: usize, j: usize)
        requires
            old(self).count() <= usize::MAX,
        ensures
            old(self).same_shape(*final(self)),
            i < old(self).count() && j < old(self).count() && i != j ==> *final(self)
                == old(self).update_at(i as int, old(self).inorder()[j as int]).update_at(
                j as int,
                old(self).inorder()[i as int],
            ),
            !(i < old(self).count() && j < old(self).count() && i != j) ==> *final(self)
                == *old(self),
    {
        proof {
            self.lemma_same_shape_self();
            self.lemma_update_ranges();
            if i < self.count() && j < self.count() && i != j {
                let a = self.inorder()[i as int];
                let b = self.inorder()[j as int];
                self.lemma_update_two(i as int, b, j as int, a);
                self.update_at(i as int, b).lemma_same_shape_self();
                self.lemma_same_shape(self.update_at(i as int, b));
                self.update_at(i as int, b).lemma_same_shape(
                    self.update_at(i as int, b).update_at(j as int, a),
                );
                self.lemma_same_shape_trans(
                    self.update_at(i as int, b),
                    self.update_at(i as int, b).update_at(j as int, a),
                );
            }
        }
        let (low, high) = if i < j {
            (i, j)
        } else {
            (j, i)
        };
        match self.pair_mut(low, high) {
            Some((first, second)) => {
                core::mem::swap(first, second);
            },
            None => {},
        }
    }

    /// Having the same shape carries over from tree to tree.
    pub proof fn lemma_same_shape_trans(self, middle: Self, other: Self)
        requires
            self.same_shape(middle),
            middle.same_shape(other),
        ensures
            self.same_shape(other),
        decreases self,
    {
        if self.root is Some {
            self.lhs().lemma_same_shape_trans(middle.lhs(), other.lhs());
            self.rhs().lemma_same_shape_trans(middle.rhs(), other.rhs());
        }
    }
}

} // verus!
