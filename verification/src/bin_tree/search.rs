//! Where a key stands in a tree: the descent that the sorted operations make,
//! stated over the items from left to right.

use crate::bin_tree::order::{is_greater, is_less, is_same, is_upper_index, sorted_by, weak_order};
use crate::bin_tree::BinTree;
use core::cmp::Ordering;
use vstd::prelude::*;

verus! {

impl<Item> BinTree<Item> {
    /// The position, counted from the left, of the item that a search for `key`
    /// ends at: the search goes left where `key` comes before the key at hand,
    /// right where it comes after, and ends where it does neither. `None` when
    /// the search ends in an empty subtree.
    pub open spec fn locate<Key>(
        self,
        kf: spec_fn(Item) -> Key,
        c: spec_fn(Key, Key) -> Option<Ordering>,
        key: Key,
    ) -> Option<int>
        decreases self,
    {
        match self.root {
            None => None,
            Some(node) => {
                if is_less(c, key, kf(node.value)) {
                    node.left.locate(kf, c, key)
                } else if is_greater(c, key, kf(node.value)) {
                    match node.right.locate(kf, c, key) {
                        Some(i) => Some(node.left.count() + 1 + i),
                        None => None,
                    }
                } else {
                    Some(node.left.count())
                }
            },
        }
    }

    /// The position, counted from the left, at which an item with `key` is put
    /// in when equal keys are allowed: the descent goes left where `key` comes
    /// before the key at hand and right otherwise, down to an empty subtree.
    pub open spec fn upper_index<Key>(
        self,
        kf: spec_fn(Item) -> Key,
        c: spec_fn(Key, Key) -> Option<Ordering>,
        key: Key,
    ) -> int
        decreases self,
    {
        match self.root {
            None => 0,
            Some(node) => {
                if is_less(c, key, kf(node.value)) {
                    node.left.upper_index(kf, c, key)
                } else {
                    node.left.count() + 1 + node.right.upper_index(kf, c, key)
                }
            },
        }
    }

    /// The items of a node are those of its left subtree, its value and those
    /// of its right subtree.
    pub proof fn lemma_inorder_parts(self)
        requires
            self.root is Some,
        ensures
            self.inorder() == self.lhs().inorder().push(self.top()) + self.rhs().inorder(),
            self.count() == self.lhs().count() + 1 + self.rhs().count(),
            self.inorder().subrange(0, self.lhs().count()) == self.lhs().inorder(),
            self.inorder()[self.lhs().count()] == self.top(),
            self.inorder().subrange(self.lhs().count() + 1, self.count()) == self.rhs().inorder(),
    {
        let s = self.inorder();
        let n = self.lhs().count();
        assert(s.subrange(0, n) =~= self.lhs().inorder());
        assert(s.subrange(n + 1, self.count()) =~= self.rhs().inorder());
    }

    /// What a search finds lies in the tree and has the key searched for.
    pub proof fn lemma_locate_found<Key>(
        self,
        kf: spec_fn(Item) -> Key,
        c: spec_fn(Key, Key) -> Option<Ordering>,
        key: Key,
    )
        ensures
            self.locate(kf, c, key) matches Some(i) ==> 0 <= i < self.count() && is_same(
                c,
                key,
                kf(self.inorder()[i]),
            ),
        decreases self,
    {
        if self.root is Some {
            self.lemma_inorder_parts();
            self.lhs().lemma_locate_found(kf, c, key);
            self.rhs().lemma_locate_found(kf, c, key);
            let n = self.lhs().count();
            if is_less(c, key, kf(self.top())) {
                if let Some(i) = self.lhs().locate(kf, c, key) {
                    assert(self.inorder()[i] == self.lhs().inorder()[i]);
                }
            } else if is_greater(c, key, kf(self.top())) {
                if let Some(i) = self.rhs().locate(kf, c, key) {
                    assert(self.inorder()[n + 1 + i] == self.rhs().inorder()[i]);
                }
            }
        }
    }

    /// The position at which an item is put in lies within the tree's bounds.
    pub proof fn lemma_upper_index_bounds<Key>(
        self,
        kf: spec_fn(Item) -> Key,
        c: spec_fn(Key, Key) -> Option<Ordering>,
        key: Key,
    )
        ensures
            0 <= self.upper_index(kf, c, key) <= self.count(),
        decreases self,
    {
        if self.root is Some {
            self.lemma_inorder_parts();
            self.lhs().lemma_upper_index_bounds(kf, c, key);
            self.rhs().lemma_upper_index_bounds(kf, c, key);
        }
    }

    /// In a sorted tree under an order that ranks the keys, the position at
    /// which an item is put in splits the items: those before it have keys not
    /// after the new key, those from it on have keys after it.
    pub proof fn lemma_upper_index_sorted<Key>(
        self,
        kf: spec_fn(Item) -> Key,
        c: spec_fn(Key, Key) -> Option<Ordering>,
        key: Key,
    )
        requires
            weak_order(c),
            sorted_by(self.inorder(), kf, c),
        ensures
            is_upper_index(self.inorder(), kf, c, key, self.upper_index(kf, c, key)),
        decreases self,
    {
        let s = self.inorder();
        if self.root is Some {
            self.lemma_inorder_parts();
            let n = self.lhs().count();
            let l = self.lhs().inorder();
            let r = self.rhs().inorder();
            let v = self.top();
            crate::bin_tree::order::lemma_subrange_sorted(s, kf, c, 0, n);
            crate::bin_tree::order::lemma_subrange_sorted(s, kf, c, n + 1, self.count());
            self.lhs().lemma_upper_index_sorted(kf, c, key);
            self.rhs().lemma_upper_index_sorted(kf, c, key);
            let idx = self.upper_index(kf, c, key);
            if is_less(c, key, kf(v)) {
                assert forall|i: int| 0 <= i < idx implies !is_less(c, key, kf(#[trigger] s[i])) by {
                    assert(s[i] == l[i]);
                }
                assert forall|i: int| idx <= i < s.len() implies is_less(
                    c,
                    key,
                    kf(#[trigger] s[i]),
                ) by {
                    if i < n {
                        assert(s[i] == l[i]);
                    } else if i == n {
                    } else {
                        assert(s[i] == r[i - n - 1]);
                        assert(!is_less(c, kf(s[i]), kf(s[n])));
                        if !is_less(c, key, kf(s[i])) {
                            assert(!is_less(c, key, kf(s[n])));
                        }
                    }
                }
            } else {
                assert forall|i: int| 0 <= i < idx implies !is_less(c, key, kf(#[trigger] s[i])) by {
                    if i < n {
                        assert(s[i] == l[i]);
                        assert(!is_less(c, kf(s[n]), kf(s[i])));
                    } else if i == n {
                    } else {
                        assert(s[i] == r[i - n - 1]);
                    }
                }
                assert forall|i: int| idx <= i < s.len() implies is_less(
                    c,
                    key,
                    kf(#[trigger] s[i]),
                ) by {
                    assert(s[i] == r[i - n - 1]);
                }
            }
        }
    }

    /// In a sorted tree under an order that ranks the keys, a search finds an
    /// item whenever the tree holds one with the key searched for.
    pub proof fn lemma_locate_sorted<Key>(
        self,
        kf: spec_fn(Item) -> Key,
        c: spec_fn(Key, Key) -> Option<Ordering>,
        key: Key,
    )
        requires
            weak_order(c),
            sorted_by(self.inorder(), kf, c),
        ensures
            self.locate(kf, c, key) is None ==> forall|i: int|
                0 <= i < self.count() ==> !is_same(c, key, kf(#[trigger] self.inorder()[i])),
        decreases self,
    {
        let s = self.inorder();
        if self.root is Some {
            self.lemma_inorder_parts();
            let n = self.lhs().count();
            let l = self.lhs().inorder();
            let r = self.rhs().inorder();
            let v = self.top();
            crate::bin_tree::order::lemma_subrange_sorted(s, kf, c, 0, n);
            crate::bin_tree::order::lemma_subrange_sorted(s, kf, c, n + 1, self.count());
            self.lhs().lemma_locate_sorted(kf, c, key);
            self.rhs().lemma_locate_sorted(kf, c, key);
            if self.locate(kf, c, key) is None {
                assert forall|i: int| 0 <= i < self.count() implies !is_same(
                    c,
                    key,
                    kf(#[trigger] s[i]),
                ) by {
                    if is_less(c, key, kf(v)) {
                        if i < n {
                            assert(s[i] == l[i]);
                        } else if i == n {
                        } else {
                            assert(s[i] == r[i - n - 1]);
                            assert(!is_less(c, kf(s[i]), kf(s[n])));
                            if !is_less(c, key, kf(s[i])) {
                                assert(!is_less(c, key, kf(s[n])));
                            }
                        }
                    } else {
                        assert(is_greater(c, key, kf(v)));
                        assert(is_less(c, kf(v), key));
                        if i < n {
                            assert(s[i] == l[i]);
                            assert(!is_less(c, kf(s[n]), kf(s[i])));
                            if !is_greater(c, key, kf(s[i])) {
                                assert(!is_less(c, kf(s[i]), key));
                                assert(!is_less(c, kf(s[n]), key));
                            }
                        } else if i == n {
                        } else {
                            assert(s[i] == r[i - n - 1]);
                        }
                    }
                }
            }
        }
    }

    /// In a sorted tree under an order that ranks the keys, a search finds an
    /// item exactly when the tree holds an item with the key searched for,
    /// and what it finds is such an item. A key that no item has is not found;
    /// the key of an item of the tree is.
    pub proof fn lemma_located_iff_present<Key>(
        self,
        kf: spec_fn(Item) -> Key,
        c: spec_fn(Key, Key) -> Option<Ordering>,
        key: Key,
    )
        requires
            weak_order(c),
            sorted_by(self.inorder(), kf, c),
        ensures
            self.locate(kf, c, key) is Some <==> exists|i: int|
                0 <= i < self.count() && is_same(c, key, kf(#[trigger] self.inorder()[i])),
            self.locate(kf, c, key) matches Some(i) ==> 0 <= i < self.count() && is_same(
                c,
                key,
                kf(self.inorder()[i]),
            ),
            forall|j: int|
                0 <= j < self.count() && key == kf(#[trigger] self.inorder()[j]) ==> self.locate(
                    kf,
                    c,
                    key,
                ) is Some,
    {
        self.lemma_locate_found(kf, c, key);
        self.lemma_locate_sorted(kf, c, key);
        assert(is_same(c, key, key)) by {
            if is_less(c, key, key) {
                assert(is_greater(c, key, key));
            }
            if is_greater(c, key, key) {
                assert(is_less(c, key, key));
            }
        }
    }
}

} // verus!
