//! Putting items into a tree: in order of their keys, or at the end of the
//! left or right spine.

use crate::bin_tree::order::{
    cmp_fn_is, cmp_fn_total, identity_key, insert_each, insert_sorted, is_greater, is_less,
    is_same, key_fn_is, key_fn_total, lemma_cmp_fn_ref, lemma_cmp_fn_total_ref,
    lemma_identity_key, lemma_insert_sorted, lemma_key_fn_ref, lemma_key_fn_total_ref,
    lemma_natural_cmp, lemma_put_in_part, lemma_update_sorted, lemma_upper_pos, natural_cmp,
    natural_order, own_key, put_in, sorted_by, weak_order,
};
use crate::bin_tree::{lemma_take_all, BinTree};
use core::cmp::Ordering;
use vstd::prelude::*;
use vstd::std_specs::cmp::PartialOrdSpec;

verus! {

/// What a sorted insertion of `new_item` makes of the tree `before`.
///
/// Where the tree may hold only one item per key and a search finds an item
/// with the new item's key, the new item takes that item's place and the old
/// one is handed back. Otherwise the new item goes in at the position of its
/// key, behind the items with the same key, and nothing is handed back.
pub open spec fn inserted<Item, Key>(
    before: BinTree<Item>,
    after: BinTree<Item>,
    replaced: Option<Item>,
    kf: spec_fn(Item) -> Key,
    c: spec_fn(Key, Key) -> Option<Ordering>,
    new_item: Item,
    unique: bool,
) -> bool {
    if unique && before.locate(kf, c, kf(new_item)) is Some {
        let i = before.locate(kf, c, kf(new_item)).unwrap();
        &&& replaced == Some(before.inorder()[i])
        &&& after.inorder() == before.inorder().update(i, new_item)
    } else {
        &&& replaced is None
        &&& after.inorder() == before.inorder().insert(
            before.upper_index(kf, c, kf(new_item)),
            new_item,
        )
    }
}

/// A sorted insertion into a sorted tree, under an order that ranks the keys,
/// leaves the tree sorted.
pub proof fn lemma_inserted_sorted<Item, Key>(
    before: BinTree<Item>,
    after: BinTree<Item>,
    replaced: Option<Item>,
    kf: spec_fn(Item) -> Key,
    c: spec_fn(Key, Key) -> Option<Ordering>,
    new_item: Item,
    unique: bool,
)
    requires
        inserted(before, after, replaced, kf, c, new_item, unique),
        weak_order(c),
        sorted_by(before.inorder(), kf, c),
    ensures
        sorted_by(after.inorder(), kf, c),
{
    if unique && before.locate(kf, c, kf(new_item)) is Some {
        let i = before.locate(kf, c, kf(new_item)).unwrap();
        before.lemma_locate_found(kf, c, kf(new_item));
        lemma_update_sorted(before.inorder(), kf, c, i, new_item);
    } else {
        before.lemma_upper_index_sorted(kf, c, kf(new_item));
        lemma_insert_sorted(
            before.inorder(),
            kf,
            c,
            before.upper_index(kf, c, kf(new_item)),
            new_item,
        );
    }
}

/// An insertion into the left subtree of a node, where the descent goes left,
/// is an insertion into the node.
pub proof fn lemma_inserted_left<Item, Key>(
    before: BinTree<Item>,
    after: BinTree<Item>,
    left: BinTree<Item>,
    replaced: Option<Item>,
    kf: spec_fn(Item) -> Key,
    c: spec_fn(Key, Key) -> Option<Ordering>,
    new_item: Item,
    unique: bool,
)
    requires
        before.root is Some,
        is_less(c, kf(new_item), kf(before.top())),
        inserted(before.lhs(), left, replaced, kf, c, new_item, unique),
        after.inorder() == left.inorder().push(before.top()) + before.rhs().inorder(),
    ensures
        inserted(before, after, replaced, kf, c, new_item, unique),
{
    before.lemma_inorder_parts();
    let key = kf(new_item);
    let l = before.lhs();
    if unique && l.locate(kf, c, key) is Some {
        l.lemma_locate_found(kf, c, key);
        let i = l.locate(kf, c, key).unwrap();
        assert(after.inorder() =~= before.inorder().update(i, new_item));
        assert(before.inorder()[i] == l.inorder()[i]);
    } else {
        l.lemma_upper_index_bounds(kf, c, key);
        assert(after.inorder() =~= before.inorder().insert(l.upper_index(kf, c, key), new_item));
    }
}

/// An insertion into the right subtree of a node, where the descent goes
/// right, is an insertion into the node.
pub proof fn lemma_inserted_right<Item, Key>(
    before: BinTree<Item>,
    after: BinTree<Item>,
    right: BinTree<Item>,
    replaced: Option<Item>,
    kf: spec_fn(Item) -> Key,
    c: spec_fn(Key, Key) -> Option<Ordering>,
    new_item: Item,
    unique: bool,
)
    requires
        before.root is Some,
        !is_less(c, kf(new_item), kf(before.top())),
        unique ==> is_greater(c, kf(new_item), kf(before.top())),
        inserted(before.rhs(), right, replaced, kf, c, new_item, unique),
        after.inorder() == before.lhs().inorder().push(before.top()) + right.inorder(),
    ensures
        inserted(before, after, replaced, kf, c, new_item, unique),
{
    before.lemma_inorder_parts();
    let key = kf(new_item);
    let r = before.rhs();
    let n = before.lhs().count();
    if unique && r.locate(kf, c, key) is Some {
        r.lemma_locate_found(kf, c, key);
        let i = r.locate(kf, c, key).unwrap();
        assert(after.inorder() =~= before.inorder().update(n + 1 + i, new_item));
        assert(before.inorder()[n + 1 + i] == r.inorder()[i]);
    } else {
        r.lemma_upper_index_bounds(kf, c, key);
        assert(after.inorder() =~= before.inorder().insert(
            n + 1 + r.upper_index(kf, c, key),
            new_item,
        ));
    }
}

/// Replacing the value of a node whose key is the new item's key is an
/// insertion into a tree that holds one item per key.
pub proof fn lemma_inserted_here<Item, Key>(
    before: BinTree<Item>,
    after: BinTree<Item>,
    kf: spec_fn(Item) -> Key,
    c: spec_fn(Key, Key) -> Option<Ordering>,
    new_item: Item,
)
    requires
        before.root is Some,
        is_same(c, kf(new_item), kf(before.top())),
        after.inorder() == before.lhs().inorder().push(new_item) + before.rhs().inorder(),
    ensures
        inserted(before, after, Some(before.top()), kf, c, new_item, true),
{
    before.lemma_inorder_parts();
    assert(after.inorder() =~= before.inorder().update(before.lhs().count(), new_item));
}

/// Where an insertion handed an item back, the new item stands in that item's
/// place and nothing else changed: the tree has its old shape and heights.
pub open spec fn replaced_in_place<Item>(
    before: BinTree<Item>,
    after: BinTree<Item>,
    replaced: Option<Item>,
    x: Item,
) -> bool {
    replaced matches Some(old_item) ==> exists|i: int|
        0 <= i < before.count() && old_item == before.inorder()[i] && after
            == #[trigger] before.update_at(i, x)
}

impl<Item> BinTree<Item> {
    /// The tree after `x` was put in by a sorted insertion.
    ///
    /// Where the tree holds one item per key and a search finds an item with
    /// the key of `x`, `x` takes the place of that item and nothing else
    /// changes: no height is recomputed and no node is rebalanced. Otherwise
    /// an empty tree becomes a leaf, and in a node the descent goes left where
    /// the key of `x` comes before the key at hand and right otherwise; the
    /// node is then settled: its height is recomputed and, if asked, it is
    /// rebalanced.
    pub open spec fn after_insert<Key>(
        self,
        kf: spec_fn(Item) -> Key,
        c: spec_fn(Key, Key) -> Option<Ordering>,
        x: Item,
        rebalance: bool,
        unique: bool,
    ) -> Self
        decreases self,
    {
        if unique && self.locate(kf, c, kf(x)) is Some {
            self.update_at(self.locate(kf, c, kf(x)).unwrap(), x)
        } else {
            match self.root {
                None => Self::spec_new_leaf(x),
                Some(node) => {
                    if is_less(c, kf(x), kf(node.value)) {
                        self.with_left(
                            node.left.after_insert(kf, c, x, rebalance, unique),
                        ).spec_settle(rebalance)
                    } else {
                        self.with_right(
                            node.right.after_insert(kf, c, x, rebalance, unique),
                        ).spec_settle(rebalance)
                    }
                },
            }
        }
    }

    /// How the tree after an insertion into a node is made of the tree after
    /// the insertion into the subtree that the descent enters: that subtree
    /// takes the place of the old one, and the node is settled unless an item
    /// was replaced below.
    pub proof fn lemma_after_insert_step<Key>(
        self,
        kf: spec_fn(Item) -> Key,
        c: spec_fn(Key, Key) -> Option<Ordering>,
        x: Item,
        rebalance: bool,
        unique: bool,
    )
        requires
            self.root is Some,
        ensures
            is_less(c, kf(x), kf(self.top())) ==> self.after_insert(kf, c, x, rebalance, unique)
                == (if unique && self.lhs().locate(kf, c, kf(x)) is Some {
                self.with_left(self.lhs().after_insert(kf, c, x, rebalance, unique))
            } else {
                self.with_left(self.lhs().after_insert(kf, c, x, rebalance, unique)).spec_settle(
                    rebalance,
                )
            }),
            !is_less(c, kf(x), kf(self.top())) && (is_greater(c, kf(x), kf(self.top())) || !unique)
                ==> self.after_insert(kf, c, x, rebalance, unique) == (if unique
                && self.rhs().locate(kf, c, kf(x)) is Some {
                self.with_right(self.rhs().after_insert(kf, c, x, rebalance, unique))
            } else {
                self.with_right(
                    self.rhs().after_insert(kf, c, x, rebalance, unique),
                ).spec_settle(rebalance)
            }),
            is_same(c, kf(x), kf(self.top())) && unique ==> self.after_insert(
                kf,
                c,
                x,
                rebalance,
                unique,
            ) == self.update_at(self.lhs().count(), x),
    {
        self.lemma_inorder_parts();
        self.lhs().lemma_locate_found(kf, c, kf(x));
        self.rhs().lemma_locate_found(kf, c, kf(x));
    }

    /// Puts `new_item` into a tree whose heights are right, at the place that
    /// the key function and the comparison give it.
    ///
    /// The descent compares the new item's key with the key at hand: it goes
    /// left on `Less` and right on `Greater`. On any other answer it replaces
    /// the item at hand and hands the old one back if `unique` is set, and
    /// goes right if not. Where a node was added, the height of each node on
    /// the path is recomputed on the way back, and the node is rebalanced if
    /// `rebalance` is set. Where an item was replaced, nothing else changes.
    pub fn insert_to_key_cmp<FtoKey, Fcmp, Key>(
        &mut self,
        new_item: Item,
        to_key: FtoKey,
        cmp: Fcmp,
        rebalance: bool,
        unique: bool,
    ) -> (replaced: Option<Item>) where
        Fcmp: Fn(&Key, &Key) -> Option<Ordering>,
        FtoKey: Fn(&Item) -> &Key,

        requires
            key_fn_total(to_key),
            cmp_fn_total(cmp),
            old(self).heights_ok(),
            old(self).height < isize::MAX,
        ensures
            final(self).heights_ok(),
            final(self).root is Some,
            final(self).height <= old(self).height + 1,
            !rebalance || old(self).balanced() ==> old(self).height <= final(self).height,
            rebalance && old(self).balanced() ==> final(self).balanced(),
            replaced is Some ==> unique && final(self).count() == old(self).count(),
            replaced is None ==> final(self).count() == old(self).count() + 1,
            put_in(old(self).inorder(), final(self).inorder(), replaced, new_item),
            replaced_in_place(*old(self), *final(self), replaced, new_item),
            forall|kf: spec_fn(Item) -> Key, c: spec_fn(Key, Key) -> Option<Ordering>|
                #![trigger key_fn_is(to_key, kf), cmp_fn_is(cmp, c)]
                key_fn_is(to_key, kf) && cmp_fn_is(cmp, c) ==> *final(self)
                    == old(self).after_insert(kf, c, new_item, rebalance, unique) && inserted(
                    *old(self),
                    *final(self),
                    replaced,
                    kf,
                    c,
                    new_item,
                    unique,
                ) && (weak_order(c) && sorted_by(old(self).inorder(), kf, c) ==> sorted_by(
                    final(self).inorder(),
                    kf,
                    c,
                )),
        decreases *old(self),
    {
        proof {
            self.lemma_heights_top();
        }
        let replaced = match &mut self.root {
            None => {
                *self = Self::new_leaf(new_item);
                proof {
                    assert(old(self).inorder() =~= Seq::<Item>::empty());
                    assert(self.inorder() =~= old(self).inorder().insert(0, new_item));
                }
                None
            },
            Some(node) => {
                let new_key = to_key(&new_item);
                let top_key = to_key(&node.value);
                let answer = cmp(new_key, top_key);
                proof {
                    old(self).lemma_inorder_parts();
                }
                match answer {
                    Some(Ordering::Less) => {
                        let r = node.left.insert_to_key_cmp(new_item, to_key, cmp, rebalance, unique);
                        proof {
                            self.lemma_inorder_parts();
                            if r is Some {
                                let i = choose|i: int|
                                    0 <= i < old(self).lhs().count() && r.unwrap()
                                        == old(self).lhs().inorder()[i] && self.lhs()
                                        == #[trigger] old(self).lhs().update_at(i, new_item);
                                assert(*self == old(self).update_at(i, new_item));
                                assert(old(self).inorder()[i] == old(self).lhs().inorder()[i]);
                            }
                            lemma_put_in_part(
                                Seq::empty(),
                                old(self).lhs().inorder(),
                                self.lhs().inorder(),
                                seq![old(self).top()] + old(self).rhs().inorder(),
                                r,
                                new_item,
                            );
                            let back = seq![old(self).top()] + old(self).rhs().inorder();
                            assert(old(self).inorder() =~= Seq::<Item>::empty() + old(self).lhs().inorder() + back);
                            assert(self.inorder() =~= Seq::<Item>::empty() + self.lhs().inorder()
                                + back);
                            assert forall|
                                kf: spec_fn(Item) -> Key,
                                c: spec_fn(Key, Key) -> Option<Ordering>,
                            |
                                #![trigger key_fn_is(to_key, kf), cmp_fn_is(cmp, c)]
                                key_fn_is(to_key, kf) && cmp_fn_is(cmp, c) implies inserted(
                                *old(self),
                                *self,
                                r,
                                kf,
                                c,
                                new_item,
                                unique,
                            ) by {
                                lemma_inserted_left(
                                    *old(self),
                                    *self,
                                    self.lhs(),
                                    r,
                                    kf,
                                    c,
                                    new_item,
                                    unique,
                                );
                            }
                        }
                        if r.is_none() {
                            self.settle(rebalance);
                        }
                        proof {
                            assert forall|
                                kf: spec_fn(Item) -> Key,
                                c: spec_fn(Key, Key) -> Option<Ordering>,
                            |
                                #![trigger key_fn_is(to_key, kf), cmp_fn_is(cmp, c)]
                                key_fn_is(to_key, kf) && cmp_fn_is(cmp, c) implies *self
                                    == old(self).after_insert(kf, c, new_item, rebalance, unique) by {
                                old(self).lemma_after_insert_step(
                                    kf,
                                    c,
                                    new_item,
                                    rebalance,
                                    unique,
                                );
                            }
                        }
                        r
                    },
                    Some(Ordering::Greater) => {
                        let r = node.right.insert_to_key_cmp(
                            new_item,
                            to_key,
                            cmp,
                            rebalance,
                            unique,
                        );
                        proof {
                            self.lemma_inorder_parts();
                            if r is Some {
                                let n = old(self).lhs().count();
                                let i = choose|i: int|
                                    0 <= i < old(self).rhs().count() && r.unwrap()
                                        == old(self).rhs().inorder()[i]
                                        && self.rhs()
                                        == #[trigger] old(self).rhs().update_at(i, new_item);
                                assert(*self == old(self).update_at(n + 1 + i, new_item));
                                assert(old(self).inorder()[n + 1 + i] == old(self).rhs().inorder()[i]);
                            }
                            lemma_put_in_part(
                                old(self).lhs().inorder().push(old(self).top()),
                                old(self).rhs().inorder(),
                                self.rhs().inorder(),
                                Seq::empty(),
                                r,
                                new_item,
                            );
                            assert(old(self).inorder() =~= old(self).lhs().inorder().push(old(self).top())
                                + old(self).rhs().inorder() + Seq::<Item>::empty());
                            assert(self.inorder() =~= old(self).lhs().inorder().push(old(self).top())
                                + self.rhs().inorder() + Seq::<Item>::empty());
                            assert forall|
                                kf: spec_fn(Item) -> Key,
                                c: spec_fn(Key, Key) -> Option<Ordering>,
                            |
                                #![trigger key_fn_is(to_key, kf), cmp_fn_is(cmp, c)]
                                key_fn_is(to_key, kf) && cmp_fn_is(cmp, c) implies inserted(
                                *old(self),
                                *self,
                                r,
                                kf,
                                c,
                                new_item,
                                unique,
                            ) by {
                                lemma_inserted_right(
                                    *old(self),
                                    *self,
                                    self.rhs(),
                                    r,
                                    kf,
                                    c,
                                    new_item,
                                    unique,
                                );
                            }
                        }
                        if r.is_none() {
                            self.settle(rebalance);
                        }
                        proof {
                            assert forall|
                                kf: spec_fn(Item) -> Key,
                                c: spec_fn(Key, Key) -> Option<Ordering>,
                            |
                                #![trigger key_fn_is(to_key, kf), cmp_fn_is(cmp, c)]
                                key_fn_is(to_key, kf) && cmp_fn_is(cmp, c) implies *self
                                    == old(self).after_insert(kf, c, new_item, rebalance, unique) by {
                                old(self).lemma_after_insert_step(
                                    kf,
                                    c,
                                    new_item,
                                    rebalance,
                                    unique,
                                );
                            }
                        }
                        r
                    },
                    _ => {
                        if unique {
                            let mut item = new_item;
                            core::mem::swap(&mut node.value, &mut item);
                            proof {
                                self.lemma_inorder_parts();
                                assert(self.heights_ok());
                                assert(self.balanced() == old(self).balanced());
                                assert(*self == old(self).update_at(
                                    old(self).lhs().count(),
                                    new_item,
                                ));
                                assert(self.inorder() =~= old(self).inorder().update(
                                    old(self).lhs().count(),
                                    new_item,
                                ));
                                assert forall|
                                    kf: spec_fn(Item) -> Key,
                                    c: spec_fn(Key, Key) -> Option<Ordering>,
                                |
                                    #![trigger key_fn_is(to_key, kf), cmp_fn_is(cmp, c)]
                                    key_fn_is(to_key, kf) && cmp_fn_is(cmp, c) implies inserted(
                                    *old(self),
                                    *self,
                                    Some(old(self).top()),
                                    kf,
                                    c,
                                    new_item,
                                    unique,
                                ) by {
                                    lemma_inserted_here(*old(self), *self, kf, c, new_item);
                                }
                                assert forall|
                                    kf: spec_fn(Item) -> Key,
                                    c: spec_fn(Key, Key) -> Option<Ordering>,
                                |
                                    #![trigger key_fn_is(to_key, kf), cmp_fn_is(cmp, c)]
                                    key_fn_is(to_key, kf) && cmp_fn_is(cmp, c) implies *self
                                        == old(self).after_insert(kf, c, new_item, rebalance, unique) by {
                                    old(self).lemma_after_insert_step(
                                        kf,
                                        c,
                                        new_item,
                                        rebalance,
                                        unique,
                                    );
                                }
                            }
                            Some(item)
                        } else {
                            let r = node.right.insert_to_key_cmp(
                                new_item,
                                to_key,
                                cmp,
                                rebalance,
                                unique,
                            );
                            proof {
                                self.lemma_inorder_parts();
                                lemma_put_in_part(
                                    old(self).lhs().inorder().push(old(self).top()),
                                    old(self).rhs().inorder(),
                                    self.rhs().inorder(),
                                    Seq::empty(),
                                    r,
                                    new_item,
                                );
                                assert(old(self).inorder() =~= old(self).lhs().inorder().push(old(self).top())
                                    + old(self).rhs().inorder() + Seq::<Item>::empty());
                                assert(self.inorder() =~= old(self).lhs().inorder().push(old(self).top())
                                    + self.rhs().inorder() + Seq::<Item>::empty());
                                assert forall|
                                    kf: spec_fn(Item) -> Key,
                                    c: spec_fn(Key, Key) -> Option<Ordering>,
                                |
                                    #![trigger key_fn_is(to_key, kf), cmp_fn_is(cmp, c)]
                                    key_fn_is(to_key, kf) && cmp_fn_is(cmp, c) implies inserted(
                                    *old(self),
                                    *self,
                                    r,
                                    kf,
                                    c,
                                    new_item,
                                    unique,
                                ) by {
                                    lemma_inserted_right(
                                        *old(self),
                                        *self,
                                        self.rhs(),
                                        r,
                                        kf,
                                        c,
                                        new_item,
                                        unique,
                                    );
                                }
                            }
                            self.settle(rebalance);
                            proof {
                                assert forall|
                                    kf: spec_fn(Item) -> Key,
                                    c: spec_fn(Key, Key) -> Option<Ordering>,
                                |
                                    #![trigger key_fn_is(to_key, kf), cmp_fn_is(cmp, c)]
                                    key_fn_is(to_key, kf) && cmp_fn_is(cmp, c) implies *self
                                        == old(self).after_insert(kf, c, new_item, rebalance, unique) by {
                                    old(self).lemma_after_insert_step(
                                        kf,
                                        c,
                                        new_item,
                                        rebalance,
                                        unique,
                                    );
                                }
                            }
                            r
                        }
                    },
                }
            },
        };
        proof {
            assert forall|kf: spec_fn(Item) -> Key, c: spec_fn(Key, Key) -> Option<Ordering>|
                #![trigger key_fn_is(to_key, kf), cmp_fn_is(cmp, c)]
                key_fn_is(to_key, kf) && cmp_fn_is(cmp, c) && weak_order(c) && sorted_by(
                    old(self).inorder(),
                    kf,
                    c,
                ) implies sorted_by(self.inorder(), kf, c) by {
                lemma_inserted_sorted(*old(self), *self, replaced, kf, c, new_item, unique);
            }
        }
        replaced
    }

    /// Puts `new_item` into a sorted tree that holds one item per key, and
    /// rebalances on the way back: an item with the same key gives way to the
    /// new one and is handed back.
    pub fn insert_unique_to_key_cmp<FtoKey, Fcmp, Key>(
        &mut self,
        new_item: Item,
        to_key: FtoKey,
        cmp: Fcmp,
    ) -> (replaced: Option<Item>) where
        Fcmp: Fn(&Key, &Key) -> Option<Ordering>,
        FtoKey: Fn(&Item) -> &Key,

        requires
            key_fn_total(to_key),
            cmp_fn_total(cmp),
            old(self).heights_ok(),
            old(self).height < isize::MAX,
        ensures
            final(self).heights_ok(),
            final(self).root is Some,
            final(self).height <= old(self).height + 1,
            old(self).balanced() ==> final(self).balanced()
                && old(self).height <= final(self).height,
            replaced is Some ==> final(self).count() == old(self).count(),
            replaced is None ==> final(self).count() == old(self).count() + 1,
            put_in(old(self).inorder(), final(self).inorder(), replaced, new_item),
            replaced_in_place(*old(self), *final(self), replaced, new_item),
            forall|kf: spec_fn(Item) -> Key, c: spec_fn(Key, Key) -> Option<Ordering>|
                #![trigger key_fn_is(to_key, kf), cmp_fn_is(cmp, c)]
                key_fn_is(to_key, kf) && cmp_fn_is(cmp, c) ==> *final(self)
                    == old(self).after_insert(kf, c, new_item, true, true) && inserted(
                    *old(self),
                    *final(self),
                    replaced,
                    kf,
                    c,
                    new_item,
                    true,
                ) && (weak_order(c) && sorted_by(old(self).inorder(), kf, c) ==> sorted_by(
                    final(self).inorder(),
                    kf,
                    c,
                )),
    {
        self.insert_to_key_cmp(new_item, to_key, cmp, true, true)
    }

    /// Puts `new_item` into a sorted tree, behind the items equal to it, and
    /// rebalances on the way back.
    pub fn insert(&mut self, new_item: Item) where Item: PartialOrd
        requires
            old(self).heights_ok(),
            old(self).height < isize::MAX,
        ensures
            final(self).heights_ok(),
            final(self).root is Some,
            final(self).count() == old(self).count() + 1,
            put_in(old(self).inorder(), final(self).inorder(), None, new_item),
            final(self).height <= old(self).height + 1,
            old(self).balanced() ==> final(self).balanced()
                && old(self).height <= final(self).height,
            Item::obeys_partial_cmp_spec() ==> *final(self) == old(self).after_insert(
                own_key(),
                natural_order(),
                new_item,
                true,
                false,
            ) && inserted(
                *old(self),
                *final(self),
                None,
                own_key(),
                natural_order(),
                new_item,
                false,
            ),
            Item::obeys_partial_cmp_spec() && weak_order(natural_order::<Item>()) && sorted_by(
                old(self).inorder(),
                own_key(),
                natural_order(),
            ) ==> sorted_by(final(self).inorder(), own_key(), natural_order())
                && final(self).inorder() == insert_sorted(
                old(self).inorder(),
                own_key(),
                natural_order(),
                new_item,
            ),
    {
        proof {
            lemma_identity_key::<Item>();
            lemma_natural_cmp::<Item>();
        }
        let replaced = self.insert_to_key_cmp(
            new_item,
            identity_key::<Item>,
            natural_cmp::<Item>,
            true,
            false,
        );
        proof {
            if Item::obeys_partial_cmp_spec() {
                assert(key_fn_is(identity_key::<Item>, own_key::<Item>()));
                assert(cmp_fn_is(natural_cmp::<Item>, natural_order::<Item>()));
                assert(replaced is None);
                if weak_order(natural_order::<Item>()) && sorted_by(
                    old(self).inorder(),
                    own_key(),
                    natural_order(),
                ) {
                    old(self).lemma_upper_index_sorted(
                        own_key(),
                        natural_order::<Item>(),
                        new_item,
                    );
                    lemma_upper_pos(
                        old(self).inorder(),
                        own_key(),
                        natural_order::<Item>(),
                        new_item,
                        old(self).upper_index(own_key(), natural_order::<Item>(), new_item),
                    );
                }
            }
        }
    }

    /// Puts each of `items` into a sorted tree, one after the other, as
    /// [`BinTree::insert`] does.
    pub fn extend_sorted(&mut self, items: Vec<Item>) where Item: PartialOrd
        requires
            old(self).heights_ok(),
            old(self).height + items.len() < isize::MAX,
        ensures
            final(self).heights_ok(),
            final(self).count() == old(self).count() + items.len(),
            final(self).height <= old(self).height + items.len(),
            old(self).balanced() ==> final(self).balanced(),
            Item::obeys_partial_cmp_spec() ==> *final(self) == old(self).after_inserts(
                own_key(),
                natural_order(),
                items@,
                true,
                false,
            ),
            Item::obeys_partial_cmp_spec() && weak_order(natural_order::<Item>()) && sorted_by(
                old(self).inorder(),
                own_key(),
                natural_order(),
            ) ==> sorted_by(final(self).inorder(), own_key(), natural_order())
                && final(self).inorder() == insert_each(
                old(self).inorder(),
                own_key(),
                natural_order(),
                items@,
            ),
    {
        let ghost all = items@;
        let ghost ranked = Item::obeys_partial_cmp_spec() && weak_order(natural_order::<Item>())
            && sorted_by(old(self).inorder(), own_key(), natural_order());
        for elem in it: items
            invariant
                it.seq() == all,
                self.heights_ok(),
                self.count() == old(self).count() + it.index(),
                self.height <= old(self).height + it.index(),
                old(self).height + all.len() < isize::MAX,
                old(self).balanced() ==> self.balanced(),
                Item::obeys_partial_cmp_spec() ==> *self == old(self).after_inserts(
                    own_key(),
                    natural_order(),
                    all.take(it.index()),
                    true,
                    false,
                ),
                ranked == (Item::obeys_partial_cmp_spec() && weak_order(natural_order::<Item>())
                    && sorted_by(old(self).inorder(), own_key(), natural_order())),
                ranked ==> sorted_by(self.inorder(), own_key(), natural_order())
                    && self.inorder() == insert_each(
                    old(self).inorder(),
                    own_key(),
                    natural_order(),
                    all.take(it.index()),
                ),
        {
            proof {
                assert(all.take(it.index() + 1).drop_last() =~= all.take(it.index()));
                assert(all.take(it.index() + 1).last() == elem);
            }
            self.insert(elem);
        }
        proof {
            lemma_take_all(all);
        }
    }

    /// Puts `new_item` into a sorted tree that holds one item per key: an item
    /// equal to it gives way to it. Says whether the tree grew.
    pub fn insert_unique(&mut self, new_item: Item) -> (added: bool) where Item: PartialOrd
        requires
            old(self).heights_ok(),
            old(self).height < isize::MAX,
        ensures
            final(self).heights_ok(),
            final(self).root is Some,
            final(self).count() == old(self).count() + if added {
                1int
            } else {
                0int
            },
            final(self).height <= old(self).height + 1,
            old(self).balanced() ==> final(self).balanced()
                && old(self).height <= final(self).height,
            !added ==> exists|i: int|
                0 <= i < old(self).count() && *final(self) == #[trigger] old(self).update_at(
                    i,
                    new_item,
                ),
            Item::obeys_partial_cmp_spec() ==> {
                &&& added == (old(self).locate(own_key(), natural_order(), new_item) is None)
                &&& *final(self) == old(self).after_insert(
                    own_key(),
                    natural_order(),
                    new_item,
                    true,
                    true,
                )
                &&& exists|replaced: Option<Item>|
                    inserted(
                        *old(self),
                        *final(self),
                        replaced,
                        own_key(),
                        natural_order(),
                        new_item,
                        true,
                    )
            },
            Item::obeys_partial_cmp_spec() && weak_order(natural_order::<Item>()) && sorted_by(
                old(self).inorder(),
                own_key(),
                natural_order(),
            ) ==> sorted_by(final(self).inorder(), own_key(), natural_order()),
    {
        proof {
            lemma_identity_key::<Item>();
            lemma_natural_cmp::<Item>();
        }
        let replaced = self.insert_to_key_cmp(
            new_item,
            identity_key::<Item>,
            natural_cmp::<Item>,
            true,
            true,
        );
        proof {
            if Item::obeys_partial_cmp_spec() {
                assert(key_fn_is(identity_key::<Item>, own_key::<Item>()));
                assert(cmp_fn_is(natural_cmp::<Item>, natural_order::<Item>()));
                assert(inserted(
                    *old(self),
                    *self,
                    replaced,
                    own_key(),
                    natural_order(),
                    new_item,
                    true,
                ));
            }
        }
        replaced.is_none()
    }

    /// Puts each of `items` into a sorted tree that holds one item per key, as
    /// [`BinTree::insert_unique`] does, and returns by how many items the tree grew.
    pub fn extend_sorted_unique(&mut self, items: Vec<Item>) -> (count: usize) where
        Item: PartialOrd,

        requires
            old(self).heights_ok(),
            old(self).height + items.len() < isize::MAX,
        ensures
            final(self).heights_ok(),
            count <= items.len(),
            final(self).count() == old(self).count() + count,
            final(self).height <= old(self).height + items.len(),
            old(self).balanced() ==> final(self).balanced(),
            Item::obeys_partial_cmp_spec() ==> *final(self) == old(self).after_inserts(
                own_key(),
                natural_order(),
                items@,
                true,
                true,
            ),
            Item::obeys_partial_cmp_spec() && weak_order(natural_order::<Item>()) && sorted_by(
                old(self).inorder(),
                own_key(),
                natural_order(),
            ) ==> sorted_by(final(self).inorder(), own_key(), natural_order()),
    {
        let ghost all = items@;
        let ghost ranked = Item::obeys_partial_cmp_spec() && weak_order(natural_order::<Item>())
            && sorted_by(old(self).inorder(), own_key(), natural_order());
        let mut count: usize = 0;
        for elem in it: items
            invariant
                it.seq() == all,
                self.heights_ok(),
                count <= it.index(),
                self.count() == old(self).count() + count,
                self.height <= old(self).height + it.index(),
                old(self).height + all.len() < isize::MAX,
                old(self).balanced() ==> self.balanced(),
                Item::obeys_partial_cmp_spec() ==> *self == old(self).after_inserts(
                    own_key(),
                    natural_order(),
                    all.take(it.index()),
                    true,
                    true,
                ),
                ranked == (Item::obeys_partial_cmp_spec() && weak_order(natural_order::<Item>())
                    && sorted_by(old(self).inorder(), own_key(), natural_order())),
                ranked ==> sorted_by(self.inorder(), own_key(), natural_order()),
        {
            proof {
                assert(all.take(it.index() + 1).drop_last() =~= all.take(it.index()));
                assert(all.take(it.index() + 1).last() == elem);
            }
            if self.insert_unique(elem) {
                count += 1;
            }
        }
        proof {
            lemma_take_all(all);
        }
        count
    }

    /// The tree with a leaf holding `x` at the end of its right spine; no
    /// cached height on the way is touched.
    pub open spec fn spec_push_right(self, x: Item) -> Self
        decreases self,
    {
        match self.root {
            None => Self::spec_new_leaf(x),
            Some(node) => Self::spec_new_node(
                node.value,
                node.left,
                node.right.spec_push_right(x),
            ).with_height(self.height),
        }
    }

    /// The tree with a leaf holding `x` at the end of its left spine; no
    /// cached height on the way is touched.
    pub open spec fn spec_push_left(self, x: Item) -> Self
        decreases self,
    {
        match self.root {
            None => Self::spec_new_leaf(x),
            Some(node) => Self::spec_new_node(
                node.value,
                node.left.spec_push_left(x),
                node.right,
            ).with_height(self.height),
        }
    }

    /// The tree after each of `items` was attached at the end of the right
    /// spine, in turn.
    pub open spec fn spec_extend_right(self, items: Seq<Item>) -> Self
        decreases items.len(),
    {
        if items.len() == 0 {
            self
        } else {
            self.spec_extend_right(items.drop_last()).spec_push_right(items.last())
        }
    }

    /// The tree after each of `items` was attached at the end of the left
    /// spine, in turn.
    pub open spec fn spec_extend_left(self, items: Seq<Item>) -> Self
        decreases items.len(),
    {
        if items.len() == 0 {
            self
        } else {
            self.spec_extend_left(items.drop_last()).spec_push_left(items.last())
        }
    }

    /// Attaches a leaf at the end of the right spine, whatever the values are:
    /// the new item becomes the last one. Heights are not maintained.
    pub fn push_right(&mut self, new_item: Item)
        ensures
            *final(self) == old(self).spec_push_right(new_item),
            final(self).inorder() == old(self).inorder().push(new_item),
        decreases *old(self),
    {
        match &mut self.root {
            None => {
                *self = Self::new_leaf(new_item);
                proof {
                    assert(old(self).inorder() =~= Seq::<Item>::empty());
                    assert(self.inorder() =~= old(self).inorder().push(new_item));
                }
            },
            Some(node) => {
                node.right.push_right(new_item);
                proof {
                    assert(self.inorder() =~= old(self).inorder().push(new_item));
                }
            },
        }
    }

    /// Attaches each of `items` at the end of the right spine, in turn.
    pub fn extend_right(&mut self, items: Vec<Item>)
        ensures
            *final(self) == old(self).spec_extend_right(items@),
            final(self).inorder() == old(self).inorder() + items@,
    {
        let ghost all = items@;
        for elem in it: items
            invariant
                it.seq() == all,
                *self == old(self).spec_extend_right(all.take(it.index())),
                self.inorder() == old(self).inorder() + all.take(it.index()),
        {
            proof {
                assert(all.take(it.index() + 1).drop_last() =~= all.take(it.index()));
                assert(all.take(it.index() + 1).last() == elem);
                assert(all.take(it.index() + 1) =~= all.take(it.index()).push(elem));
                let before = old(self).inorder();
                let done = all.take(it.index());
                assert(before + done.push(elem) =~= (before + done).push(elem));
            }
            self.push_right(elem);
        }
        proof {
            lemma_take_all(all);
        }
    }

    /// Attaches a leaf at the end of the left spine, whatever the values are:
    /// the new item becomes the first one. Heights are not maintained.
    pub fn push_left(&mut self, new_item: Item)
        ensures
            *final(self) == old(self).spec_push_left(new_item),
            final(self).inorder() == seq![new_item] + old(self).inorder(),
        decreases *old(self),
    {
        match &mut self.root {
            None => {
                *self = Self::new_leaf(new_item);
                proof {
                    assert(old(self).inorder() =~= Seq::<Item>::empty());
                    assert(self.inorder() =~= seq![new_item] + old(self).inorder());
                }
            },
            Some(node) => {
                node.left.push_left(new_item);
                proof {
                    assert(self.inorder() =~= seq![new_item] + old(self).inorder());
                }
            },
        }
    }

    /// Attaches each of `items` at the end of the left spine, in turn, so that
    /// the last of them becomes the first item of the tree.
    pub fn extend_left(&mut self, items: Vec<Item>)
        ensures
            *final(self) == old(self).spec_extend_left(items@),
            final(self).inorder() == items@.reverse() + old(self).inorder(),
    {
        let ghost all = items@;
        for elem in it: items
            invariant
                it.seq() == all,
                *self == old(self).spec_extend_left(all.take(it.index())),
                self.inorder() == all.take(it.index()).reverse() + old(self).inorder(),
        {
            proof {
                assert(all.take(it.index() + 1).drop_last() =~= all.take(it.index()));
                assert(all.take(it.index() + 1).last() == elem);
                assert(all.take(it.index() + 1).reverse() =~= seq![elem] + all.take(
                    it.index(),
                ).reverse());
                assert(seq![elem] + (all.take(it.index()).reverse() + old(self).inorder())
                    =~= all.take(it.index() + 1).reverse() + old(self).inorder());
            }
            self.push_left(elem);
        }
        proof {
            lemma_take_all(all);
        }
    }

    /// The default way to add an item: [`BinTree::insert`].
    pub fn push(&mut self, new_item: Item) where Item: PartialOrd
        requires
            old(self).heights_ok(),
            old(self).height < isize::MAX,
        ensures
            final(self).heights_ok(),
            final(self).count() == old(self).count() + 1,
            put_in(old(self).inorder(), final(self).inorder(), None, new_item),
            final(self).height <= old(self).height + 1,
            old(self).balanced() ==> final(self).balanced(),
            Item::obeys_partial_cmp_spec() ==> *final(self) == old(self).after_insert(
                own_key(),
                natural_order(),
                new_item,
                true,
                false,
            ) && inserted(
                *old(self),
                *final(self),
                None,
                own_key(),
                natural_order(),
                new_item,
                false,
            ),
            Item::obeys_partial_cmp_spec() && weak_order(natural_order::<Item>()) && sorted_by(
                old(self).inorder(),
                own_key(),
                natural_order(),
            ) ==> sorted_by(final(self).inorder(), own_key(), natural_order()),
    {
        self.insert(new_item);
    }

    /// Another name for [`BinTree::insert`].
    pub fn push_sorted(&mut self, new_item: Item) where Item: PartialOrd
        requires
            old(self).heights_ok(),
            old(self).height < isize::MAX,
        ensures
            final(self).heights_ok(),
            final(self).count() == old(self).count() + 1,
            put_in(old(self).inorder(), final(self).inorder(), None, new_item),
            final(self).height <= old(self).height + 1,
            old(self).balanced() ==> final(self).balanced(),
            Item::obeys_partial_cmp_spec() ==> *final(self) == old(self).after_insert(
                own_key(),
                natural_order(),
                new_item,
                true,
                false,
            ) && inserted(
                *old(self),
                *final(self),
                None,
                own_key(),
                natural_order(),
                new_item,
                false,
            ),
            Item::obeys_partial_cmp_spec() && weak_order(natural_order::<Item>()) && sorted_by(
                old(self).inorder(),
                own_key(),
                natural_order(),
            ) ==> sorted_by(final(self).inorder(), own_key(), natural_order()),
    {
        self.insert(new_item);
    }

    /// Puts `new_item` into a sorted tree, behind the items equal to it, and
    /// rebalances on the way back if `rebalance` is set.
    pub fn push_sorted_maybe_rebalance(&mut self, new_item: Item, rebalance: bool) where
        Item: PartialOrd,

        requires
            old(self).heights_ok(),
            old(self).height < isize::MAX,
        ensures
            final(self).heights_ok(),
            final(self).count() == old(self).count() + 1,
            put_in(old(self).inorder(), final(self).inorder(), None, new_item),
            final(self).height <= old(self).height + 1,
            rebalance && old(self).balanced() ==> final(self).balanced(),
            Item::obeys_partial_cmp_spec() ==> *final(self) == old(self).after_insert(
                own_key(),
                natural_order(),
                new_item,
                rebalance,
                false,
            ) && inserted(
                *old(self),
                *final(self),
                None,
                own_key(),
                natural_order(),
                new_item,
                false,
            ),
            Item::obeys_partial_cmp_spec() && weak_order(natural_order::<Item>()) && sorted_by(
                old(self).inorder(),
                own_key(),
                natural_order(),
            ) ==> sorted_by(final(self).inorder(), own_key(), natural_order()),
    {
        proof {
            lemma_identity_key::<Item>();
            lemma_natural_cmp::<Item>();
        }
        let replaced = self.insert_to_key_cmp(
            new_item,
            identity_key::<Item>,
            natural_cmp::<Item>,
            rebalance,
            false,
        );
        proof {
            if Item::obeys_partial_cmp_spec() {
                assert(key_fn_is(identity_key::<Item>, own_key::<Item>()));
                assert(cmp_fn_is(natural_cmp::<Item>, natural_order::<Item>()));
            }
        }
    }

    /// Puts `new_item` into a sorted tree that holds one item per key, with
    /// the key function and the comparison given by reference: a form
    /// of [`BinTree::insert_to_key_cmp`] with `unique` set.
    pub fn push_sorted_unique_to_key_cmp<FtoKey, Fcmp, Key>(
        &mut self,
        new_item: Item,
        to_key: &FtoKey,
        cmp: &Fcmp,
        rebalance: bool,
    ) -> (replaced: Option<Item>) where
        Fcmp: Fn(&Key, &Key) -> Option<Ordering>,
        FtoKey: Fn(&Item) -> &Key,

        requires
            key_fn_total(*to_key),
            cmp_fn_total(*cmp),
            old(self).heights_ok(),
            old(self).height < isize::MAX,
        ensures
            final(self).heights_ok(),
            final(self).height <= old(self).height + 1,
            rebalance && old(self).balanced() ==> final(self).balanced(),
            replaced is Some ==> final(self).count() == old(self).count(),
            replaced is None ==> final(self).count() == old(self).count() + 1,
            put_in(old(self).inorder(), final(self).inorder(), replaced, new_item),
            replaced_in_place(*old(self), *final(self), replaced, new_item),
            forall|kf: spec_fn(Item) -> Key, c: spec_fn(Key, Key) -> Option<Ordering>|
                #![trigger key_fn_is(*to_key, kf), cmp_fn_is(*cmp, c)]
                key_fn_is(*to_key, kf) && cmp_fn_is(*cmp, c) ==> *final(self)
                    == old(self).after_insert(kf, c, new_item, rebalance, true) && inserted(
                    *old(self),
                    *final(self),
                    replaced,
                    kf,
                    c,
                    new_item,
                    true,
                ) && (weak_order(c) && sorted_by(old(self).inorder(), kf, c) ==> sorted_by(
                    final(self).inorder(),
                    kf,
                    c,
                )),
    {
        proof {
            lemma_key_fn_total_ref(to_key);
            lemma_cmp_fn_total_ref(cmp);
        }
        let replaced = self.insert_to_key_cmp(new_item, to_key, cmp, rebalance, true);
        proof {
            assert forall|kf: spec_fn(Item) -> Key, c: spec_fn(Key, Key) -> Option<Ordering>|
                #![trigger key_fn_is(*to_key, kf), cmp_fn_is(*cmp, c)]
                key_fn_is(*to_key, kf) && cmp_fn_is(*cmp, c) implies key_fn_is(to_key, kf)
                && cmp_fn_is(cmp, c) by {
                lemma_key_fn_ref(to_key, kf);
                lemma_cmp_fn_ref(cmp, c);
            }
        }
        replaced
    }

    /// Another name for [`BinTree::insert_unique`].
    pub fn push_sorted_unique(&mut self, new_item: Item) -> (added: bool) where Item: PartialOrd
        requires
            old(self).heights_ok(),
            old(self).height < isize::MAX,
        ensures
            final(self).heights_ok(),
            final(self).count() == old(self).count() + if added {
                1int
            } else {
                0int
            },
            final(self).height <= old(self).height + 1,
            old(self).balanced() ==> final(self).balanced(),
            !added ==> exists|i: int|
                0 <= i < old(self).count() && *final(self) == #[trigger] old(self).update_at(
                    i,
                    new_item,
                ),
            Item::obeys_partial_cmp_spec() ==> added == (old(self).locate(
                own_key(),
                natural_order(),
                new_item,
            ) is None) && *final(self) == old(self).after_insert(
                own_key(),
                natural_order(),
                new_item,
                true,
                true,
            ),
            Item::obeys_partial_cmp_spec() && weak_order(natural_order::<Item>()) && sorted_by(
                old(self).inorder(),
                own_key(),
                natural_order(),
            ) ==> sorted_by(final(self).inorder(), own_key(), natural_order()),
    {
        self.insert_unique(new_item)
    }

    /// Puts `new_item` into a sorted tree that holds one item per key, ordered
    /// by `cmp`, and rebalances; an item that `cmp` finds equal gives way and
    /// is handed back.
    pub fn push_sorted_unique_cmp<Fcmp>(&mut self, new_item: Item, cmp: &Fcmp) -> (replaced: Option<
        Item,
    >) where Fcmp: Fn(&Item, &Item) -> Option<Ordering>
        requires
            cmp_fn_total(*cmp),
            old(self).heights_ok(),
            old(self).height < isize::MAX,
        ensures
            final(self).heights_ok(),
            final(self).height <= old(self).height + 1,
            old(self).balanced() ==> final(self).balanced(),
            replaced is Some ==> final(self).count() == old(self).count(),
            replaced is None ==> final(self).count() == old(self).count() + 1,
            put_in(old(self).inorder(), final(self).inorder(), replaced, new_item),
            replaced_in_place(*old(self), *final(self), replaced, new_item),
            forall|c: spec_fn(Item, Item) -> Option<Ordering>|
                #![trigger cmp_fn_is(*cmp, c)]
                cmp_fn_is(*cmp, c) ==> *final(self) == old(self).after_insert(
                    own_key(),
                    c,
                    new_item,
                    true,
                    true,
                ) && inserted(
                    *old(self),
                    *final(self),
                    replaced,
                    own_key(),
                    c,
                    new_item,
                    true,
                ) && (weak_order(c) && sorted_by(old(self).inorder(), own_key(), c) ==> sorted_by(
                    final(self).inorder(),
                    own_key(),
                    c,
                )),
    {
        proof {
            lemma_identity_key::<Item>();
            lemma_cmp_fn_total_ref(cmp);
        }
        let replaced = self.insert_to_key_cmp(new_item, identity_key::<Item>, cmp, true, true);
        proof {
            assert(key_fn_is(identity_key::<Item>, own_key::<Item>()));
            assert forall|c: spec_fn(Item, Item) -> Option<Ordering>|
                #![trigger cmp_fn_is(*cmp, c)]
                cmp_fn_is(*cmp, c) implies cmp_fn_is(cmp, c) by {
                lemma_cmp_fn_ref(cmp, c);
            }
        }
        replaced
    }

    /// Puts `new_item` into a sorted tree that holds one item per key, with
    /// the keys given by `to_key` and ordered by themselves, and rebalances;
    /// an item with the same key gives way and is handed back.
    pub fn push_sorted_unique_to_key<FtoKey, Key>(&mut self, new_item: Item, to_key: &FtoKey) -> (replaced:
        Option<Item>) where Key: PartialOrd, FtoKey: Fn(&Item) -> &Key
        requires
            key_fn_total(*to_key),
            old(self).heights_ok(),
            old(self).height < isize::MAX,
        ensures
            final(self).heights_ok(),
            final(self).height <= old(self).height + 1,
            old(self).balanced() ==> final(self).balanced(),
            replaced is Some ==> final(self).count() == old(self).count(),
            replaced is None ==> final(self).count() == old(self).count() + 1,
            put_in(old(self).inorder(), final(self).inorder(), replaced, new_item),
            replaced_in_place(*old(self), *final(self), replaced, new_item),
            forall|kf: spec_fn(Item) -> Key|
                #![trigger key_fn_is(*to_key, kf)]
                key_fn_is(*to_key, kf) && Key::obeys_partial_cmp_spec() ==> *final(self)
                    == old(self).after_insert(kf, natural_order(), new_item, true, true)
                    && inserted(
                    *old(self),
                    *final(self),
                    replaced,
                    kf,
                    natural_order(),
                    new_item,
                    true,
                ) && (weak_order(natural_order::<Key>()) && sorted_by(
                    old(self).inorder(),
                    kf,
                    natural_order(),
                ) ==> sorted_by(final(self).inorder(), kf, natural_order())),
    {
        proof {
            lemma_natural_cmp::<Key>();
            lemma_key_fn_total_ref(to_key);
        }
        let replaced = self.insert_to_key_cmp(new_item, to_key, natural_cmp::<Key>, true, true);
        proof {
            if Key::obeys_partial_cmp_spec() {
                assert(cmp_fn_is(natural_cmp::<Key>, natural_order::<Key>()));
            }
            assert forall|kf: spec_fn(Item) -> Key|
                #![trigger key_fn_is(*to_key, kf)]
                key_fn_is(*to_key, kf) implies key_fn_is(to_key, kf) by {
                lemma_key_fn_ref(to_key, kf);
            }
        }
        replaced
    }

    /// Puts each of `items` into a sorted tree: the inherent form of `Extend`.
    pub fn extend(&mut self, items: Vec<Item>) where Item: PartialOrd
        requires
            old(self).heights_ok(),
            old(self).height + items.len() < isize::MAX,
        ensures
            final(self).heights_ok(),
            final(self).count() == old(self).count() + items.len(),
            final(self).height <= old(self).height + items.len(),
            old(self).balanced() ==> final(self).balanced(),
            Item::obeys_partial_cmp_spec() ==> *final(self) == old(self).after_inserts(
                own_key(),
                natural_order(),
                items@,
                true,
                false,
            ),
            Item::obeys_partial_cmp_spec() && weak_order(natural_order::<Item>()) && sorted_by(
                old(self).inorder(),
                own_key(),
                natural_order(),
            ) ==> sorted_by(final(self).inorder(), own_key(), natural_order())
                && final(self).inorder() == insert_each(
                old(self).inorder(),
                own_key(),
                natural_order(),
                items@,
            ),
    {
        self.extend_sorted(items);
    }

    /// A sorted, balanced tree that holds `items`: the inherent form of
    /// `FromIterator`.
    pub fn from_iter(items: Vec<Item>) -> (t: Self) where Item: PartialOrd
        requires
            items.len() < isize::MAX,
        ensures
            t.is_avl(),
            t.count() == items.len(),
            Item::obeys_partial_cmp_spec() ==> t == Self::spec_new().after_inserts(
                own_key(),
                natural_order(),
                items@,
                true,
                false,
            ),
            Item::obeys_partial_cmp_spec() && weak_order(natural_order::<Item>()) ==> sorted_by(
                t.inorder(),
                own_key(),
                natural_order(),
            ) && t.inorder() == insert_each(Seq::empty(), own_key(), natural_order(), items@),
    {
        let mut t = Self::new();
        proof {
            assert(t.inorder() =~= Seq::<Item>::empty());
        }
        t.extend_sorted(items);
        t
    }
}

} // verus!
