//! What holds of the sorted operations on every tree: the order of the items,
//! the balance and the heights are kept, and the number of items changes by
//! exactly what was put in or taken out.
//!
//! The laws are stated over the trees that the operations produce,
//! [`BinTree::after_insert`] and [`BinTree::after_remove`], so that they can be
//! applied to any chain of operations.

use crate::bin_tree::order::{is_greater, is_less, is_same, sorted_by, weak_order};
use crate::bin_tree::utils_insertion::{
    inserted, lemma_inserted_left, lemma_inserted_right, lemma_inserted_sorted,
};
use crate::bin_tree::utils_removal::{
    lemma_removed_left, lemma_removed_right, lemma_removed_sorted, removed,
};
use crate::bin_tree::BinTree;
use core::cmp::Ordering;
use vstd::prelude::*;

verus! {

/// The item that a sorted insertion hands back: the item found under the new
/// item's key where the tree holds one item per key, none otherwise.
pub open spec fn replaced_by<Item, Key>(
    t: BinTree<Item>,
    kf: spec_fn(Item) -> Key,
    c: spec_fn(Key, Key) -> Option<Ordering>,
    x: Item,
    unique: bool,
) -> Option<Item> {
    if unique && t.locate(kf, c, kf(x)) is Some {
        Some(t.inorder()[t.locate(kf, c, kf(x)).unwrap()])
    } else {
        None
    }
}

/// The item that a sorted removal hands back: the item found under the key,
/// if there is one.
pub open spec fn taken_by<Item, Key>(
    t: BinTree<Item>,
    kf: spec_fn(Item) -> Key,
    c: spec_fn(Key, Key) -> Option<Ordering>,
    key: Key,
) -> Option<Item> {
    match t.locate(kf, c, key) {
        Some(i) => Some(t.inorder()[i]),
        None => None,
    }
}

impl<Item> BinTree<Item> {
    /// Settling a node whose subtrees have right heights gives a tree with
    /// right heights and the same items in the same order. Where the subtrees
    /// are balanced and differ in height by at most 2, rebalancing makes the
    /// node balanced, at the height it would have without it or one below.
    pub proof fn lemma_settle(self, rebalance: bool)
        requires
            self.root is Some,
            self.lhs().heights_ok(),
            self.rhs().heights_ok(),
            self.lhs().height < isize::MAX,
            self.rhs().height < isize::MAX,
        ensures
            self.spec_settle(rebalance).root is Some,
            self.spec_settle(rebalance).heights_ok(),
            self.spec_settle(rebalance).inorder() == self.inorder(),
            self.spec_settle(rebalance).height <= self.spec_settle(false).height,
            -1 <= self.spec_balance() <= 1 ==> self.spec_settle(rebalance) == self.spec_settle(
                false,
            ),
            (rebalance && self.lhs().balanced() && self.rhs().balanced() && -2
                <= self.spec_balance() <= 2) ==> self.spec_settle(rebalance).balanced()
                && self.spec_settle(rebalance).height >= self.spec_settle(false).height - 1,
    {
        let t = self.spec_settle(false);
        assert(t.lhs() == self.lhs());
        assert(t.rhs() == self.rhs());
        assert(t.inorder() =~= self.inorder());
        assert(t.heights_ok());
        if rebalance {
            t.lemma_rebalance_inorder();
            t.lemma_rebalance_avl();
            t.lemma_rebalance_root();
        }
    }

    /// Every sorted insertion into a tree with right heights keeps the heights
    /// right and the tree at most one higher; with rebalancing it keeps a
    /// balanced tree balanced; it puts the new item at the place of its key,
    /// or in the place of the item with its key where the tree holds one item
    /// per key, and then changes nothing else; and it keeps a sorted tree
    /// sorted.
    pub proof fn law_insert<Key>(
        self,
        kf: spec_fn(Item) -> Key,
        c: spec_fn(Key, Key) -> Option<Ordering>,
        x: Item,
        rebalance: bool,
        unique: bool,
    )
        requires
            self.heights_ok(),
            self.height < isize::MAX,
        ensures
            self.after_insert(kf, c, x, rebalance, unique).heights_ok(),
            self.after_insert(kf, c, x, rebalance, unique).root is Some,
            self.after_insert(kf, c, x, rebalance, unique).height <= self.height + 1,
            !rebalance || self.balanced() ==> self.height <= self.after_insert(
                kf,
                c,
                x,
                rebalance,
                unique,
            ).height,
            rebalance && self.balanced() ==> self.after_insert(
                kf,
                c,
                x,
                rebalance,
                unique,
            ).balanced(),
            inserted(
                self,
                self.after_insert(kf, c, x, rebalance, unique),
                replaced_by(self, kf, c, x, unique),
                kf,
                c,
                x,
                unique,
            ),
            self.after_insert(kf, c, x, rebalance, unique).count() == self.count() + if replaced_by(
                self,
                kf,
                c,
                x,
                unique,
            ) is None {
                1int
            } else {
                0int
            },
            replaced_by(self, kf, c, x, unique) is Some ==> self.same_shape(
                self.after_insert(kf, c, x, rebalance, unique),
            ) && self.after_insert(kf, c, x, rebalance, unique) == self.update_at(
                self.locate(kf, c, kf(x)).unwrap(),
                x,
            ),
            weak_order(c) && sorted_by(self.inorder(), kf, c) ==> sorted_by(
                self.after_insert(kf, c, x, rebalance, unique).inorder(),
                kf,
                c,
            ),
        decreases self,
    {
        let t = self.after_insert(kf, c, x, rebalance, unique);
        let key = kf(x);
        self.lemma_heights_top();
        self.lemma_locate_found(kf, c, key);
        self.lemma_upper_index_bounds(kf, c, key);
        if unique && self.locate(kf, c, key) is Some {
            let i = self.locate(kf, c, key).unwrap();
            self.lemma_update_at(i, x);
            self.lemma_same_shape_self();
            self.lemma_same_shape(t);
        } else if self.root is None {
            assert(self.inorder() =~= Seq::<Item>::empty());
            assert(t.lhs().inorder() =~= Seq::<Item>::empty());
            assert(t.rhs().inorder() =~= Seq::<Item>::empty());
            assert(t.inorder() =~= self.inorder().insert(0, x));
            assert(t.lhs().is_avl() && t.rhs().is_avl());
        } else {
            self.lemma_inorder_parts();
            self.lemma_after_insert_step(kf, c, x, rebalance, unique);
            let l = self.lhs();
            let r = self.rhs();
            l.lemma_locate_found(kf, c, key);
            r.lemma_locate_found(kf, c, key);
            if is_less(c, key, kf(self.top())) {
                l.law_insert(kf, c, x, rebalance, unique);
                let l2 = l.after_insert(kf, c, x, rebalance, unique);
                let mid = self.with_left(l2);
                mid.lemma_inorder_parts();
                mid.lemma_settle(rebalance);
                lemma_inserted_left(self, t, l2, None, kf, c, x, unique);
            } else {
                r.law_insert(kf, c, x, rebalance, unique);
                let r2 = r.after_insert(kf, c, x, rebalance, unique);
                let mid = self.with_right(r2);
                mid.lemma_inorder_parts();
                mid.lemma_settle(rebalance);
                lemma_inserted_right(self, t, r2, None, kf, c, x, unique);
            }
        }
        if weak_order(c) && sorted_by(self.inorder(), kf, c) {
            lemma_inserted_sorted(self, t, replaced_by(self, kf, c, x, unique), kf, c, x, unique);
        }
    }

    /// Detaching the first item from a tree with right heights keeps the
    /// heights right and the other items in their order, never makes the tree
    /// higher, and with rebalancing keeps a balanced tree balanced.
    pub proof fn law_detach_min(self, rebalance: bool)
        requires
            self.heights_ok(),
        ensures
            self.spec_detach_min(rebalance).heights_ok(),
            self.root is Some ==> self.spec_detach_min(rebalance).inorder()
                == self.inorder().drop_first(),
            self.spec_detach_min(rebalance).height <= self.height,
            !rebalance || self.balanced() ==> self.spec_detach_min(rebalance).height >= self.height
                - 1,
            rebalance && self.balanced() ==> self.spec_detach_min(rebalance).balanced(),
        decreases self,
    {
        self.lemma_heights_two_levels();
        if self.root is Some {
            self.lemma_inorder_parts();
            let l = self.lhs();
            if l.root is None {
                assert(l.inorder() =~= Seq::<Item>::empty());
                assert(self.rhs().inorder() =~= self.inorder().drop_first());
            } else {
                l.lemma_inorder_parts();
                l.law_detach_min(rebalance);
                let mid = self.with_left(l.spec_detach_min(rebalance));
                mid.lemma_inorder_parts();
                l.spec_detach_min(rebalance).lemma_heights_top();
                mid.lemma_settle(rebalance);
                assert(mid.inorder() =~= self.inorder().drop_first());
            }
        }
    }

    /// Taking the top item out of a tree with right heights keeps the heights
    /// right and the other items in their order, and never makes the tree
    /// higher. With rebalancing, the subtrees of a balanced tree stay
    /// balanced, and the top is left at most 2 out of balance.
    pub proof fn law_pop_sorted(self, rebalance: bool)
        requires
            self.heights_ok(),
        ensures
            self.spec_pop_sorted(rebalance).heights_ok(),
            self.root is Some ==> self.spec_pop_sorted(rebalance).inorder()
                == self.inorder().remove(self.lhs().count()),
            self.spec_pop_sorted(rebalance).height <= self.height,
            !rebalance || self.balanced() ==> self.spec_pop_sorted(rebalance).height >= self.height
                - 1,
            rebalance && self.balanced() && self.spec_pop_sorted(rebalance).root is Some ==> {
                &&& self.spec_pop_sorted(rebalance).lhs().balanced()
                &&& self.spec_pop_sorted(rebalance).rhs().balanced()
                &&& -2 <= self.spec_pop_sorted(rebalance).spec_balance() <= 2
                &&& (-1 <= self.spec_pop_sorted(rebalance).spec_balance() <= 1
                    || self.spec_pop_sorted(rebalance).height == self.height)
            },
    {
        self.lemma_heights_two_levels();
        if self.root is Some {
            self.lemma_inorder_parts();
            let n = self.lhs().count();
            let l = self.lhs();
            let r = self.rhs();
            let t = self.spec_pop_sorted(rebalance);
            if l.root is None {
                assert(l.inorder() =~= Seq::<Item>::empty());
            }
            if r.root is None {
                assert(r.inorder() =~= Seq::<Item>::empty());
            }
            if l.root is None && r.root is None {
                assert(t.inorder() =~= self.inorder().remove(n));
            } else if r.root is None {
                assert(l.inorder() =~= self.inorder().remove(n));
            } else if l.root is None {
                assert(r.inorder() =~= self.inorder().remove(n));
            } else {
                r.lemma_inorder_parts();
                r.law_detach_min(rebalance);
                r.spec_detach_min(rebalance).lemma_heights_top();
                t.lemma_inorder_parts();
                assert(t.inorder() =~= self.inorder().remove(n));
                assert(t.heights_ok());
            }
        }
    }

    /// Every sorted removal from a tree with right heights keeps the heights
    /// right and never makes the tree higher; with rebalancing it keeps a
    /// balanced tree balanced; it takes out the item that a search for the key
    /// finds and nothing else, and changes nothing where the search finds
    /// nothing; and it keeps a sorted tree sorted.
    pub proof fn law_remove<Key>(
        self,
        kf: spec_fn(Item) -> Key,
        c: spec_fn(Key, Key) -> Option<Ordering>,
        key: Key,
        rebalance: bool,
    )
        requires
            self.heights_ok(),
        ensures
            self.after_remove(kf, c, key, rebalance).heights_ok(),
            self.after_remove(kf, c, key, rebalance).height <= self.height,
            !rebalance || self.balanced() ==> self.after_remove(kf, c, key, rebalance).height
                >= self.height - 1,
            rebalance && self.balanced() ==> self.after_remove(kf, c, key, rebalance).balanced(),
            removed(
                self,
                self.after_remove(kf, c, key, rebalance),
                taken_by(self, kf, c, key),
                kf,
                c,
                key,
            ),
            self.after_remove(kf, c, key, rebalance).count() == self.count() - if self.locate(
                kf,
                c,
                key,
            ) is Some {
                1int
            } else {
                0int
            },
            sorted_by(self.inorder(), kf, c) ==> sorted_by(
                self.after_remove(kf, c, key, rebalance).inorder(),
                kf,
                c,
            ),
        decreases self,
    {
        let t = self.after_remove(kf, c, key, rebalance);
        self.lemma_heights_two_levels();
        if self.root is Some {
            self.lemma_inorder_parts();
            let l = self.lhs();
            let r = self.rhs();
            if is_less(c, key, kf(self.top())) {
                l.law_remove(kf, c, key, rebalance);
                l.lemma_locate_found(kf, c, key);
                if l.locate(kf, c, key) is Some {
                    let l2 = l.after_remove(kf, c, key, rebalance);
                    let mid = self.with_left(l2);
                    mid.lemma_inorder_parts();
                    l2.lemma_heights_top();
                    mid.lemma_settle(rebalance);
                }
                lemma_removed_left(
                    self,
                    t,
                    l.after_remove(kf, c, key, rebalance),
                    taken_by(l, kf, c, key),
                    kf,
                    c,
                    key,
                );
            } else if is_greater(c, key, kf(self.top())) {
                r.law_remove(kf, c, key, rebalance);
                r.lemma_locate_found(kf, c, key);
                if r.locate(kf, c, key) is Some {
                    let r2 = r.after_remove(kf, c, key, rebalance);
                    let mid = self.with_right(r2);
                    mid.lemma_inorder_parts();
                    r2.lemma_heights_top();
                    mid.lemma_settle(rebalance);
                }
                lemma_removed_right(
                    self,
                    t,
                    r.after_remove(kf, c, key, rebalance),
                    taken_by(r, kf, c, key),
                    kf,
                    c,
                    key,
                );
            } else {
                self.law_pop_sorted(rebalance);
                let popped = self.spec_pop_sorted(rebalance);
                if popped.root is Some {
                    popped.lemma_heights_two_levels();
                    popped.lemma_settle(rebalance);
                }
            }
        }
        self.lemma_locate_found(kf, c, key);
        if sorted_by(self.inorder(), kf, c) {
            lemma_removed_sorted(self, t, taken_by(self, kf, c, key), kf, c, key);
        }
    }

    /// In a sorted tree under an order that ranks the keys, a removal by the
    /// key of any item of the tree succeeds and takes out one item with that
    /// key, and a removal by a key that no item has changes nothing.
    pub proof fn law_remove_present<Key>(
        self,
        kf: spec_fn(Item) -> Key,
        c: spec_fn(Key, Key) -> Option<Ordering>,
        key: Key,
        rebalance: bool,
    )
        requires
            self.heights_ok(),
            weak_order(c),
            sorted_by(self.inorder(), kf, c),
        ensures
            (exists|j: int| 0 <= j < self.count() && is_same(c, key, kf(#[trigger] self.inorder()[j])))
                ==> taken_by(self, kf, c, key) is Some && is_same(
                c,
                key,
                kf(taken_by(self, kf, c, key).unwrap()),
            ) && self.after_remove(kf, c, key, rebalance).count() == self.count() - 1,
            (forall|j: int| 0 <= j < self.count() ==> !is_same(c, key, kf(#[trigger] self.inorder()[j])))
                ==> taken_by(self, kf, c, key) is None && self.after_remove(kf, c, key, rebalance)
                == self,
    {
        self.law_remove(kf, c, key, rebalance);
        self.lemma_located_iff_present(kf, c, key);
    }

    /// An item that was put into a sorted tree is found under its key.
    pub proof fn law_insert_present<Key>(
        self,
        kf: spec_fn(Item) -> Key,
        c: spec_fn(Key, Key) -> Option<Ordering>,
        x: Item,
        rebalance: bool,
        unique: bool,
    )
        requires
            self.heights_ok(),
            self.height < isize::MAX,
            weak_order(c),
            sorted_by(self.inorder(), kf, c),
        ensures
            self.after_insert(kf, c, x, rebalance, unique).locate(kf, c, kf(x)) is Some,
    {
        self.law_insert(kf, c, x, rebalance, unique);
        let t = self.after_insert(kf, c, x, rebalance, unique);
        self.lemma_locate_found(kf, c, kf(x));
        self.lemma_upper_index_bounds(kf, c, kf(x));
        let i = if unique && self.locate(kf, c, kf(x)) is Some {
            self.locate(kf, c, kf(x)).unwrap()
        } else {
            self.upper_index(kf, c, kf(x))
        };
        assert(t.inorder()[i] == x);
        t.lemma_located_iff_present(kf, c, kf(x));
    }
}

/// How many of the keys are the same key as `key`.
pub open spec fn same_count<Key>(
    keys: Seq<Key>,
    c: spec_fn(Key, Key) -> Option<Ordering>,
    key: Key,
) -> nat
    decreases keys.len(),
{
    if keys.len() == 0 {
        0
    } else {
        same_count(keys.drop_last(), c, key) + if is_same(c, key, keys.last()) {
            1nat
        } else {
            0nat
        }
    }
}

/// The keys of the items, in their order.
pub open spec fn keys_of<Item, Key>(s: Seq<Item>, kf: spec_fn(Item) -> Key) -> Seq<Key> {
    Seq::new(s.len(), |i: int| kf(s[i]))
}

/// Under an order that ranks the keys, being the same key is an equivalence.
pub proof fn lemma_same_equivalence<Key>(
    c: spec_fn(Key, Key) -> Option<Ordering>,
    a: Key,
    b: Key,
    d: Key,
)
    requires
        weak_order(c),
    ensures
        is_same(c, a, a),
        is_same(c, a, b) == is_same(c, b, a),
        is_same(c, a, b) && is_same(c, b, d) ==> is_same(c, a, d),
{
    if is_less(c, a, a) {
        assert(is_greater(c, a, a));
    }
    if is_greater(c, a, a) {
        assert(is_less(c, a, a));
    }
    assert(is_less(c, a, b) == is_greater(c, b, a));
    assert(is_less(c, b, a) == is_greater(c, a, b));
    if is_same(c, a, b) && is_same(c, b, d) {
        assert(!is_less(c, a, b) && !is_less(c, b, d));
        assert(!is_less(c, a, d));
        assert(is_less(c, d, b) == is_greater(c, b, d));
        assert(is_less(c, b, a) == is_greater(c, a, b));
        assert(!is_less(c, d, b) && !is_less(c, b, a));
        assert(!is_less(c, d, a));
        assert(is_less(c, d, a) == is_greater(c, a, d));
    }
}

/// Putting a key in raises the count of the keys that are the same as it by
/// one and leaves the other counts alone.
pub proof fn lemma_same_count_insert<Key>(
    keys: Seq<Key>,
    c: spec_fn(Key, Key) -> Option<Ordering>,
    key: Key,
    i: int,
    x: Key,
)
    requires
        0 <= i <= keys.len(),
    ensures
        same_count(keys.insert(i, x), c, key) == same_count(keys, c, key) + if is_same(c, key, x) {
            1nat
        } else {
            0nat
        },
    decreases keys.len(),
{
    let t = keys.insert(i, x);
    if i == keys.len() {
        assert(t.drop_last() =~= keys);
        assert(t.last() == x);
    } else {
        assert(t.drop_last() =~= keys.drop_last().insert(i, x));
        assert(t.last() == keys.last());
        lemma_same_count_insert(keys.drop_last(), c, key, i, x);
    }
}

/// Taking a key out lowers the count of the keys that are the same as it by
/// one and leaves the other counts alone.
pub proof fn lemma_same_count_remove<Key>(
    keys: Seq<Key>,
    c: spec_fn(Key, Key) -> Option<Ordering>,
    key: Key,
    i: int,
)
    requires
        0 <= i < keys.len(),
    ensures
        same_count(keys, c, key) == same_count(keys.remove(i), c, key) + if is_same(
            c,
            key,
            keys[i],
        ) {
            1nat
        } else {
            0nat
        },
    decreases keys.len(),
{
    let t = keys.remove(i);
    if i == keys.len() - 1 {
        assert(t =~= keys.drop_last());
    } else {
        assert(t.drop_last() =~= keys.drop_last().remove(i));
        assert(t.last() == keys.last());
        lemma_same_count_remove(keys.drop_last(), c, key, i);
    }
}

/// The count of a key is positive exactly when one of the keys is the same
/// key.
pub proof fn lemma_same_count_positive<Key>(
    keys: Seq<Key>,
    c: spec_fn(Key, Key) -> Option<Ordering>,
    key: Key,
)
    ensures
        same_count(keys, c, key) > 0 <==> exists|i: int|
            0 <= i < keys.len() && is_same(c, key, #[trigger] keys[i]),
    decreases keys.len(),
{
    if keys.len() > 0 {
        lemma_same_count_positive(keys.drop_last(), c, key);
        let rest = keys.drop_last();
        if same_count(keys, c, key) > 0 {
            if is_same(c, key, keys.last()) {
                assert(is_same(c, key, keys[keys.len() - 1]));
            } else {
                let i = choose|i: int| 0 <= i < rest.len() && is_same(c, key, #[trigger] rest[i]);
                assert(keys[i] == rest[i]);
            }
        }
        if exists|i: int| 0 <= i < keys.len() && is_same(c, key, #[trigger] keys[i]) {
            let i = choose|i: int| 0 <= i < keys.len() && is_same(c, key, #[trigger] keys[i]);
            if i < keys.len() - 1 {
                assert(rest[i] == keys[i]);
            }
        }
    }
}

impl<Item> BinTree<Item> {
    /// The tree after each of `items` was put in by a sorted insertion, one
    /// after the other.
    pub open spec fn after_inserts<Key>(
        self,
        kf: spec_fn(Item) -> Key,
        c: spec_fn(Key, Key) -> Option<Ordering>,
        items: Seq<Item>,
        rebalance: bool,
        unique: bool,
    ) -> Self
        decreases items.len(),
    {
        if items.len() == 0 {
            self
        } else {
            self.after_inserts(kf, c, items.drop_last(), rebalance, unique).after_insert(
                kf,
                c,
                items.last(),
                rebalance,
                unique,
            )
        }
    }

    /// The tree after a sorted removal by each of `keys`, one after the other.
    pub open spec fn after_removes<Key>(
        self,
        kf: spec_fn(Item) -> Key,
        c: spec_fn(Key, Key) -> Option<Ordering>,
        keys: Seq<Key>,
        rebalance: bool,
    ) -> Self
        decreases keys.len(),
    {
        if keys.len() == 0 {
            self
        } else {
            self.after_remove(kf, c, keys[0], rebalance).after_removes(
                kf,
                c,
                keys.drop_first(),
                rebalance,
            )
        }
    }

    /// Putting items into a sorted tree one after the other, with equal keys
    /// allowed, keeps the tree sorted and its heights right, keeps a balanced tree balanced where the
    /// insertions rebalance, raises the number of items by the number put in,
    /// and raises the count of each key by its count among the new items.
    pub proof fn law_inserts<Key>(
        self,
        kf: spec_fn(Item) -> Key,
        c: spec_fn(Key, Key) -> Option<Ordering>,
        items: Seq<Item>,
        rebalance: bool,
        key: Key,
    )
        requires
            self.heights_ok(),
            self.count() + items.len() < isize::MAX,
            weak_order(c),
            sorted_by(self.inorder(), kf, c),
        ensures
            self.after_inserts(kf, c, items, rebalance, false).heights_ok(),
            sorted_by(self.after_inserts(kf, c, items, rebalance, false).inorder(), kf, c),
            rebalance && self.balanced()
                ==> self.after_inserts(kf, c, items, rebalance, false).balanced(),
            self.after_inserts(kf, c, items, rebalance, false).count() == self.count()
                + items.len(),
            same_count(keys_of(self.after_inserts(kf, c, items, rebalance, false).inorder(), kf), c, key)
                == same_count(keys_of(self.inorder(), kf), c, key) + same_count(
                keys_of(items, kf),
                c,
                key,
            ),
        decreases items.len(),
    {
        if items.len() > 0 {
            let rest = items.drop_last();
            let x = items.last();
            self.law_inserts(kf, c, rest, rebalance, key);
            let mid = self.after_inserts(kf, c, rest, rebalance, false);
            mid.lemma_depth_le_count();
            mid.lemma_heights_ok_depth();
            mid.law_insert(kf, c, x, rebalance, false);
            mid.lemma_upper_index_bounds(kf, c, kf(x));
            let i = mid.upper_index(kf, c, kf(x));
            let t = mid.after_insert(kf, c, x, rebalance, false);
            assert(keys_of(t.inorder(), kf) =~= keys_of(mid.inorder(), kf).insert(i, kf(x)));
            lemma_same_count_insert(keys_of(mid.inorder(), kf), c, key, i, kf(x));
            assert(keys_of(items, kf).drop_last() =~= keys_of(rest, kf));
            assert(keys_of(items, kf).last() == kf(x));
        } else {
            assert(keys_of(items, kf) =~= Seq::<Key>::empty());
        }
    }

    /// Removing by keys from a sorted tree, one after the other, where the
    /// tree holds for each key at least as many items as the key is asked
    /// for: every removal succeeds, whatever the order of the keys; the tree
    /// stays sorted with right heights, and balanced where the removals
    /// rebalance; the number of items falls by the number of keys; and the
    /// count of each key falls by its count among the keys.
    pub proof fn law_removes<Key>(
        self,
        kf: spec_fn(Item) -> Key,
        c: spec_fn(Key, Key) -> Option<Ordering>,
        keys: Seq<Key>,
        rebalance: bool,
        key: Key,
    )
        requires
            self.heights_ok(),
            weak_order(c),
            sorted_by(self.inorder(), kf, c),
            forall|k: Key| #[trigger]
                same_count(keys, c, k) <= same_count(keys_of(self.inorder(), kf), c, k),
        ensures
            self.after_removes(kf, c, keys, rebalance).heights_ok(),
            sorted_by(self.after_removes(kf, c, keys, rebalance).inorder(), kf, c),
            rebalance && self.balanced() ==> self.after_removes(kf, c, keys, rebalance).balanced(),
            self.after_removes(kf, c, keys, rebalance).count() == self.count() - keys.len(),
            same_count(keys_of(self.after_removes(kf, c, keys, rebalance).inorder(), kf), c, key)
                == same_count(keys_of(self.inorder(), kf), c, key) - same_count(keys, c, key),
        decreases keys.len(),
    {
        if keys.len() > 0 {
            let first = keys[0];
            let rest = keys.drop_first();
            let own = keys_of(self.inorder(), kf);
            lemma_same_equivalence(c, first, first, first);
            lemma_same_count_positive(keys, c, first);
            lemma_same_count_positive(own, c, first);
            assert(is_same(c, first, keys[0]));
            assert(same_count(keys, c, first) > 0);
            let j = choose|j: int| 0 <= j < own.len() && is_same(c, first, #[trigger] own[j]);
            assert(own[j] == kf(self.inorder()[j]));
            self.law_remove(kf, c, first, rebalance);
            self.law_remove_present(kf, c, first, rebalance);
            self.lemma_locate_found(kf, c, first);
            let i = self.locate(kf, c, first).unwrap();
            let t = self.after_remove(kf, c, first, rebalance);
            assert(keys_of(t.inorder(), kf) =~= own.remove(i));
            assert(rest =~= keys.remove(0));
            assert forall|k: Key| #[trigger]
                same_count(rest, c, k) <= same_count(keys_of(t.inorder(), kf), c, k) by {
                lemma_same_count_remove(own, c, k, i);
                lemma_same_count_remove(keys, c, k, 0);
                lemma_same_equivalence(c, k, first, own[i]);
                lemma_same_equivalence(c, first, own[i], k);
                lemma_same_equivalence(c, k, own[i], first);
                lemma_same_equivalence(c, own[i], first, k);
            }
            t.law_removes(kf, c, rest, rebalance, key);
            lemma_same_count_remove(own, c, key, i);
            lemma_same_count_remove(keys, c, key, 0);
            lemma_same_equivalence(c, key, first, own[i]);
            lemma_same_equivalence(c, first, own[i], key);
            lemma_same_equivalence(c, key, own[i], first);
            lemma_same_equivalence(c, own[i], first, key);
        }
    }

    /// Putting items into an empty tree and then removing by the keys of all
    /// of them, in any order, leaves the tree empty.
    ///
    /// `keys` holds the keys of `items` in any order: each key is asked for as
    /// often as `items` holds an item with that key.
    pub proof fn law_round_trip<Key>(
        kf: spec_fn(Item) -> Key,
        c: spec_fn(Key, Key) -> Option<Ordering>,
        items: Seq<Item>,
        keys: Seq<Key>,
        insert_rebalance: bool,
        remove_rebalance: bool,
    )
        requires
            weak_order(c),
            items.len() < isize::MAX,
            forall|k: Key| #[trigger] same_count(keys, c, k)
                == same_count(keys_of(items, kf), c, k),
        ensures
            Self::spec_new().after_inserts(kf, c, items, insert_rebalance, false).count()
                == items.len(),
            Self::spec_new().after_inserts(kf, c, items, insert_rebalance, false).after_removes(
                kf,
                c,
                keys,
                remove_rebalance,
            ).root is None,
    {
        let empty = Self::spec_new();
        assert(empty.inorder() =~= Seq::<Item>::empty());
        assert(keys_of(empty.inorder(), kf) =~= Seq::<Key>::empty());
        let full = empty.after_inserts(kf, c, items, insert_rebalance, false);
        assert forall|k: Key| #[trigger]
            same_count(keys, c, k) <= same_count(keys_of(full.inorder(), kf), c, k) by {
            empty.law_inserts(kf, c, items, insert_rebalance, k);
        }
        if items.len() > 0 {
            empty.law_inserts(kf, c, items, insert_rebalance, kf(items[0]));
        }
        let last = full.after_removes(kf, c, keys, remove_rebalance);
        if last.root is Some {
            last.lemma_inorder_parts();
            let x = last.inorder()[0];
            let k = kf(x);
            full.law_removes(kf, c, keys, remove_rebalance, k);
            empty.law_inserts(kf, c, items, insert_rebalance, k);
            lemma_same_equivalence(c, k, k, k);
            lemma_same_count_positive(keys_of(last.inorder(), kf), c, k);
            assert(keys_of(last.inorder(), kf)[0] == k);
            assert(false);
        }
    }
}

} // verus!
