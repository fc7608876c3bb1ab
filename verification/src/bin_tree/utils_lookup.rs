//! Finding items: by key in a sorted tree, or by value anywhere in a tree.

use crate::bin_tree::order::{
    cmp_fn_is, cmp_fn_total, identity_key, is_greater, is_less, key_fn_is, key_fn_total,
    lemma_identity_key, lemma_natural_cmp, natural_cmp, natural_order, own_key,
};
use crate::bin_tree::BinTree;
use core::cmp::Ordering;
use vstd::prelude::*;
use vstd::std_specs::cmp::{PartialEqSpec, PartialOrdSpec};

verus! {

impl<Item> BinTree<Item> {
    /// The position, counted from the left, of the first item in pre-order
    /// for which `hit` holds.
    pub open spec fn first_hit(self, hit: spec_fn(Item) -> bool) -> Option<int>
        decreases self,
    {
        match self.root {
            None => None,
            Some(node) => {
                if hit(node.value) {
                    Some(node.left.count())
                } else {
                    match node.left.first_hit(hit) {
                        Some(i) => Some(i),
                        None => match node.right.first_hit(hit) {
                            Some(i) => Some(node.left.count() + 1 + i),
                            None => None,
                        },
                    }
                }
            },
        }
    }

    /// `first_hit` gives a position of an item for which `hit` holds if there
    /// is such an item, and none otherwise.
    pub proof fn lemma_first_hit(self, hit: spec_fn(Item) -> bool)
        ensures
            self.first_hit(hit) matches Some(i) ==> 0 <= i < self.count() && hit(self.inorder()[i]),
            self.first_hit(hit) is None ==> forall|i: int|
                0 <= i < self.count() ==> !hit(#[trigger] self.inorder()[i]),
        decreases self,
    {
        if self.root is Some {
            self.lemma_inorder_parts();
            self.lhs().lemma_first_hit(hit);
            self.rhs().lemma_first_hit(hit);
            let n = self.lhs().count();
            let s = self.inorder();
            if let Some(i) = self.lhs().first_hit(hit) {
                assert(s[i] == self.lhs().inorder()[i]);
            }
            if let Some(i) = self.rhs().first_hit(hit) {
                assert(s[n + 1 + i] == self.rhs().inorder()[i]);
            }
            if self.first_hit(hit) is None {
                assert forall|i: int| 0 <= i < self.count() implies !hit(#[trigger] s[i]) by {
                    if i < n {
                        assert(s[i] == self.lhs().inorder()[i]);
                    } else if i > n {
                        assert(s[i] == self.rhs().inorder()[i - n - 1]);
                    }
                }
            }
        }
    }
}

impl<Item> BinTree<Item> {
    /// The items of a node are its value, the items of its left subtree and
    /// the items of its right subtree.
    pub proof fn lemma_members(self)
        requires
            self.root is Some,
        ensures
            self.inorder().contains(self.top()),
            forall|x: Item| #[trigger] self.lhs().inorder().contains(x)
                ==> self.inorder().contains(x),
            forall|x: Item| #[trigger] self.rhs().inorder().contains(x)
                ==> self.inorder().contains(x),
    {
        self.lemma_inorder_parts();
        let s = self.inorder();
        let n = self.lhs().count();
        assert(s[n] == self.top());
        assert forall|x: Item| #[trigger] self.lhs().inorder().contains(x) implies s.contains(
            x,
        ) by {
            let i = choose|i: int| 0 <= i < n && self.lhs().inorder()[i] == x;
            assert(s[i] == x);
        }
        assert forall|x: Item| #[trigger] self.rhs().inorder().contains(x) implies s.contains(
            x,
        ) by {
            let i = choose|i: int| 0 <= i < self.rhs().count() && self.rhs().inorder()[i] == x;
            assert(s[n + 1 + i] == x);
        }
    }

    /// How the first hit in a node relates to the items of the node: a hit in
    /// the left subtree stands at the same position in the node, a hit in the
    /// right subtree stands behind the left subtree and the value.
    pub proof fn lemma_hit_parts(self, hit: spec_fn(Item) -> bool)
        requires
            self.root is Some,
        ensures
            self.inorder()[self.lhs().count()] == self.top(),
            self.count() == self.lhs().count() + 1 + self.rhs().count(),
            self.lhs().first_hit(hit) matches Some(i) ==> 0 <= i < self.lhs().count()
                && self.inorder()[i] == self.lhs().inorder()[i],
            self.rhs().first_hit(hit) matches Some(i) ==> 0 <= i < self.rhs().count()
                && self.inorder()[self.lhs().count() + 1 + i] == self.rhs().inorder()[i],
    {
        self.lemma_inorder_parts();
        self.lhs().lemma_first_hit(hit);
        self.rhs().lemma_first_hit(hit);
    }
}

/// The test "equals `target`" of the lookups by value.
pub open spec fn equals<Item: PartialEq>(target: Item) -> spec_fn(Item) -> bool {
    |v: Item| target.eq_spec(&v)
}

impl<Item> BinTree<Item> {
    /// Whether a sorted tree holds an item equal to `target_value`, found by
    /// descent.
    pub fn contains_sorted(&self, target_value: &Item) -> (found: bool) where Item: PartialOrd
        ensures
            Item::obeys_partial_cmp_spec() ==> found == (self.locate(
                own_key(),
                natural_order(),
                *target_value,
            ) is Some),
        decreases self,
    {
        match &self.root {
            None => false,
            Some(node) => {
                if *target_value < node.value {
                    node.left.contains_sorted(target_value)
                } else if *target_value > node.value {
                    node.right.contains_sorted(target_value)
                } else {
                    true
                }
            },
        }
    }

    /// Whether the tree holds an item equal to `target_value`, found by
    /// looking at every node until one matches.
    pub fn contains(&self, target_value: &Item) -> (found: bool) where Item: PartialEq
        ensures
            Item::obeys_eq_spec() ==> found == (self.first_hit(equals(*target_value)) is Some),
        decreases self,
    {
        match &self.root {
            None => false,
            Some(node) => {
                *target_value == node.value || node.left.contains(target_value)
                    || node.right.contains(target_value)
            },
        }
    }

    /// The first item in pre-order that equals `target_value`.
    pub fn get(&self, target_value: &Item) -> (item: Option<&Item>) where Item: PartialEq
        ensures
            item matches Some(x) ==> self.inorder().contains(*x),
            Item::obeys_eq_spec() ==> match self.first_hit(equals(*target_value)) {
                Some(i) => item == Some(&self.inorder()[i]),
                None => item is None,
            },
        decreases self,
    {
        match &self.root {
            None => None,
            Some(node) => {
                proof {
                    self.lemma_hit_parts(equals(*target_value));
                    self.lemma_members();
                }
                if *target_value == node.value {
                    Some(&node.value)
                } else {
                    match node.left.get(target_value) {
                        Some(item) => Some(item),
                        None => node.right.get(target_value),
                    }
                }
            },
        }
    }

    /// The item of a sorted tree that a search for `target_key` finds, with
    /// the keys given by `to_key` and compared by `cmp`.
    pub fn get_sorted_to_key_cmp<FtoKey, Fcmp, Key>(
        &self,
        target_key: &Key,
        to_key: &FtoKey,
        cmp: &Fcmp,
    ) -> (item: Option<&Item>) where
        Fcmp: Fn(&Key, &Key) -> Option<Ordering>,
        FtoKey: Fn(&Item) -> &Key,

        requires
            key_fn_total(*to_key),
            cmp_fn_total(*cmp),
        ensures
            item matches Some(x) ==> self.inorder().contains(*x),
            forall|kf: spec_fn(Item) -> Key, c: spec_fn(Key, Key) -> Option<Ordering>|
                #![trigger key_fn_is(*to_key, kf), cmp_fn_is(*cmp, c)]
                key_fn_is(*to_key, kf) && cmp_fn_is(*cmp, c) ==> match self.locate(
                    kf,
                    c,
                    *target_key,
                ) {
                    Some(i) => item == Some(&self.inorder()[i]),
                    None => item is None,
                },
        decreases self,
    {
        match &self.root {
            None => None,
            Some(node) => {
                proof {
                    self.lemma_inorder_parts();
                    self.lemma_members();
                }
                let top_key = to_key(&node.value);
                let answer = cmp(target_key, top_key);
                match answer {
                    Some(Ordering::Less) => {
                        let item = node.left.get_sorted_to_key_cmp(target_key, to_key, cmp);
                        proof {
                            assert forall|
                                kf: spec_fn(Item) -> Key,
                                c: spec_fn(Key, Key) -> Option<Ordering>,
                            |
                                #![trigger key_fn_is(*to_key, kf), cmp_fn_is(*cmp, c)]
                                key_fn_is(*to_key, kf)
                                    && cmp_fn_is(*cmp, c) implies match self.locate(
                                kf,
                                c,
                                *target_key,
                            ) {
                                Some(i) => item == Some(&self.inorder()[i]),
                                None => item is None,
                            } by {
                                self.lhs().lemma_locate_found(kf, c, *target_key);
                            }
                        }
                        item
                    },
                    Some(Ordering::Greater) => {
                        let item = node.right.get_sorted_to_key_cmp(target_key, to_key, cmp);
                        proof {
                            assert forall|
                                kf: spec_fn(Item) -> Key,
                                c: spec_fn(Key, Key) -> Option<Ordering>,
                            |
                                #![trigger key_fn_is(*to_key, kf), cmp_fn_is(*cmp, c)]
                                key_fn_is(*to_key, kf)
                                    && cmp_fn_is(*cmp, c) implies match self.locate(
                                kf,
                                c,
                                *target_key,
                            ) {
                                Some(i) => item == Some(&self.inorder()[i]),
                                None => item is None,
                            } by {
                                self.rhs().lemma_locate_found(kf, c, *target_key);
                            }
                        }
                        item
                    },
                    _ => Some(&node.value),
                }
            },
        }
    }

    /// An exclusive reference to the item of a sorted tree that a search for
    /// `target_key` finds, with the keys given by `to_key` and compared by
    /// `cmp`. What is written through it replaces that item and changes
    /// nothing else; a key written through it is not checked against the order.
    pub fn get_mut_sorted_to_key_cmp<FtoKey, Fcmp, Key>(
        &mut self,
        target_key: &Key,
        to_key: &FtoKey,
        cmp: &Fcmp,
    ) -> (item: Option<&mut Item>) where
        Fcmp: Fn(&Key, &Key) -> Option<Ordering>,
        FtoKey: Fn(&Item) -> &Key,

        requires
            key_fn_total(*to_key),
            cmp_fn_total(*cmp),
        ensures
            item is None ==> *final(self) == *old(self),
            old(self).same_shape(*final(self)),
            item is Some ==> exists|i: int|
                0 <= i < old(self).count() && *item.unwrap() == old(self).inorder()[i]
                    && *final(self) == #[trigger] old(self).update_at(i, *final(item.unwrap())),
            forall|kf: spec_fn(Item) -> Key, c: spec_fn(Key, Key) -> Option<Ordering>|
                #![trigger key_fn_is(*to_key, kf), cmp_fn_is(*cmp, c)]
                key_fn_is(*to_key, kf) && cmp_fn_is(*cmp, c) ==> match old(self).locate(
                    kf,
                    c,
                    *target_key,
                ) {
                    Some(i) => item is Some && *item.unwrap() == old(self).inorder()[i]
                        && *final(self) == old(self).update_at(i, *final(item.unwrap())),
                    None => item is None,
                },
        decreases *old(self),
    {
        match &mut self.root {
            None => None,
            Some(node) => {
                proof {
                    old(self).lemma_inorder_parts();
                    old(self).lhs().lemma_same_shape_self();
                    old(self).rhs().lemma_same_shape_self();
                }
                let top_key = to_key(&node.value);
                let answer = cmp(target_key, top_key);
                match answer {
                    Some(Ordering::Less) => {
                        let ghost left0 = node.left;
                        let item = node.left.get_mut_sorted_to_key_cmp(target_key, to_key, cmp);
                        proof {
                            if item is Some {
                                let i = choose|i: int|
                                    0 <= i < left0.count() && *item.unwrap() == left0.inorder()[i]
                                        && after_borrow(node.left) == #[trigger] left0.update_at(
                                        i,
                                        *final(item.unwrap()),
                                    );
                                assert(old(self).inorder()[i] == left0.inorder()[i]);
                                assert(old(self).update_at(i, *final(item.unwrap())).lhs()
                                    == left0.update_at(i, *final(item.unwrap())));
                            }
                            assert forall|
                                kf: spec_fn(Item) -> Key,
                                c: spec_fn(Key, Key) -> Option<Ordering>,
                            |
                                #![trigger key_fn_is(*to_key, kf), cmp_fn_is(*cmp, c)]
                                key_fn_is(*to_key, kf) && cmp_fn_is(*cmp, c) implies (left0.locate(
                                kf,
                                c,
                                *target_key,
                            ) matches Some(i) ==> 0 <= i < left0.count()) by {
                                left0.lemma_locate_found(kf, c, *target_key);
                            }
                        }
                        item
                    },
                    Some(Ordering::Greater) => {
                        let ghost right0 = node.right;
                        let item = node.right.get_mut_sorted_to_key_cmp(target_key, to_key, cmp);
                        proof {
                            if item is Some {
                                let n = old(self).lhs().count();
                                let i = choose|i: int|
                                    0 <= i < right0.count() && *item.unwrap() == right0.inorder()[i]
                                        && after_borrow(node.right) == #[trigger] right0.update_at(
                                        i,
                                        *final(item.unwrap()),
                                    );
                                assert(old(self).inorder()[n + 1 + i] == right0.inorder()[i]);
                                assert(old(self).update_at(n + 1 + i, *final(item.unwrap())).rhs()
                                    == right0.update_at(i, *final(item.unwrap())));
                            }
                            assert forall|
                                kf: spec_fn(Item) -> Key,
                                c: spec_fn(Key, Key) -> Option<Ordering>,
                            |
                                #![trigger key_fn_is(*to_key, kf), cmp_fn_is(*cmp, c)]
                                key_fn_is(*to_key, kf) && cmp_fn_is(*cmp, c) implies (right0.locate(
                                kf,
                                c,
                                *target_key,
                            ) matches Some(i) ==> 0 <= i < right0.count()) by {
                                right0.lemma_locate_found(kf, c, *target_key);
                            }
                        }
                        item
                    },
                    _ => {
                        let item = &mut node.value;
                        proof {
                            let n = old(self).lhs().count();
                            assert(old(self).update_at(n, *final(item)).top() == *final(item));
                        }
                        Some(item)
                    },
                }
            },
        }
    }

    /// The item of a sorted tree whose key equals `target_value`, with the
    /// keys given by `key` and ordered by themselves.
    pub fn get_sorted_with_key<F, Key>(&self, target_value: &Key, key: &F) -> (item: Option<
        &Item,
    >) where Key: PartialOrd, F: Fn(&Item) -> &Key
        requires
            key_fn_total(*key),
        ensures
            item matches Some(x) ==> self.inorder().contains(*x),
            forall|kf: spec_fn(Item) -> Key|
                #![trigger key_fn_is(*key, kf)]
                key_fn_is(*key, kf) && Key::obeys_partial_cmp_spec() ==> match self.locate(
                    kf,
                    natural_order(),
                    *target_value,
                ) {
                    Some(i) => item == Some(&self.inorder()[i]),
                    None => item is None,
                },
    {
        proof {
            lemma_natural_cmp::<Key>();
        }
        let item = self.get_sorted_to_key_cmp(target_value, key, &natural_cmp::<Key>);
        proof {
            if Key::obeys_partial_cmp_spec() {
                assert(cmp_fn_is(natural_cmp::<Key>, natural_order::<Key>()));
            }
        }
        item
    }

    /// An exclusive reference to the item of a sorted tree whose key equals
    /// `target_value`, with the keys given by `key` and ordered by themselves.
    pub fn get_sorted_mut_with_key<F, Key>(&mut self, target_value: &Key, key: &F) -> (item: Option<
        &mut Item,
    >) where Key: PartialOrd, F: Fn(&Item) -> &Key
        requires
            key_fn_total(*key),
        ensures
            item is None ==> *final(self) == *old(self),
            old(self).same_shape(*final(self)),
            item is Some ==> exists|i: int|
                0 <= i < old(self).count() && *item.unwrap() == old(self).inorder()[i]
                    && *final(self) == #[trigger] old(self).update_at(i, *final(item.unwrap())),
            forall|kf: spec_fn(Item) -> Key|
                #![trigger key_fn_is(*key, kf)]
                key_fn_is(*key, kf) && Key::obeys_partial_cmp_spec() ==> match old(self).locate(
                    kf,
                    natural_order(),
                    *target_value,
                ) {
                    Some(i) => item is Some && *item.unwrap() == old(self).inorder()[i]
                        && *final(self) == old(self).update_at(i, *final(item.unwrap())),
                    None => item is None,
                },
    {
        proof {
            lemma_natural_cmp::<Key>();
        }
        let item = self.get_mut_sorted_to_key_cmp(target_value, key, &natural_cmp::<Key>);
        proof {
            if Key::obeys_partial_cmp_spec() {
                assert(cmp_fn_is(natural_cmp::<Key>, natural_order::<Key>()));
            }
        }
        item
    }

    /// The item of a sorted tree that `compare` finds equal to `target_value`.
    pub fn get_sorted_with_compare<F>(&self, target_value: &Item, compare: &F) -> (item: Option<
        &Item,
    >) where F: Fn(&Item, &Item) -> Option<Ordering>
        requires
            cmp_fn_total(*compare),
        ensures
            item matches Some(x) ==> self.inorder().contains(*x),
            forall|c: spec_fn(Item, Item) -> Option<Ordering>|
                #![trigger cmp_fn_is(*compare, c)]
                cmp_fn_is(*compare, c) ==> match self.locate(own_key(), c, *target_value) {
                    Some(i) => item == Some(&self.inorder()[i]),
                    None => item is None,
                },
    {
        proof {
            lemma_identity_key::<Item>();
        }
        let item = self.get_sorted_to_key_cmp(target_value, &identity_key::<Item>, compare);
        proof {
            assert(key_fn_is(identity_key::<Item>, own_key::<Item>()));
        }
        item
    }

    /// An exclusive reference to the item of a sorted tree that `compare`
    /// finds equal to `target_value`.
    pub fn get_sorted_mut_with_compare<F>(&mut self, target_value: &Item, compare: &F) -> (item:
        Option<&mut Item>) where F: Fn(&Item, &Item) -> Option<Ordering>
        requires
            cmp_fn_total(*compare),
        ensures
            item is None ==> *final(self) == *old(self),
            old(self).same_shape(*final(self)),
            item is Some ==> exists|i: int|
                0 <= i < old(self).count() && *item.unwrap() == old(self).inorder()[i]
                    && *final(self) == #[trigger] old(self).update_at(i, *final(item.unwrap())),
            forall|c: spec_fn(Item, Item) -> Option<Ordering>|
                #![trigger cmp_fn_is(*compare, c)]
                cmp_fn_is(*compare, c) ==> match old(self).locate(own_key(), c, *target_value) {
                    Some(i) => item is Some && *item.unwrap() == old(self).inorder()[i]
                        && *final(self) == old(self).update_at(i, *final(item.unwrap())),
                    None => item is None,
                },
    {
        proof {
            lemma_identity_key::<Item>();
        }
        let item = self.get_mut_sorted_to_key_cmp(target_value, &identity_key::<Item>, compare);
        proof {
            assert(key_fn_is(identity_key::<Item>, own_key::<Item>()));
        }
        item
    }

    /// An exclusive reference to the item of a sorted tree that equals
    /// `target_value`.
    pub fn get_sorted_mut(&mut self, target_value: &Item) -> (item: Option<&mut Item>) where
        Item: PartialOrd,

        ensures
            item is None ==> *final(self) == *old(self),
            old(self).same_shape(*final(self)),
            item is Some ==> exists|i: int|
                0 <= i < old(self).count() && *item.unwrap() == old(self).inorder()[i]
                    && *final(self) == #[trigger] old(self).update_at(i, *final(item.unwrap())),
            Item::obeys_partial_cmp_spec() ==> match old(self).locate(
                own_key(),
                natural_order(),
                *target_value,
            ) {
                Some(i) => item is Some && *item.unwrap() == old(self).inorder()[i] && *final(self)
                    == old(self).update_at(i, *final(item.unwrap())),
                None => item is None,
            },
    {
        proof {
            lemma_identity_key::<Item>();
            lemma_natural_cmp::<Item>();
        }
        let item = self.get_mut_sorted_to_key_cmp(
            target_value,
            &identity_key::<Item>,
            &natural_cmp::<Item>,
        );
        proof {
            assert(key_fn_is(identity_key::<Item>, own_key::<Item>()));
            if Item::obeys_partial_cmp_spec() {
                assert(cmp_fn_is(natural_cmp::<Item>, natural_order::<Item>()));
            }
        }
        item
    }

    /// An exclusive reference to the first item in pre-order that equals
    /// `target_value`. What is written through it replaces that item and
    /// changes nothing else.
    pub fn get_mut(&mut self, target_value: &Item) -> (item: Option<&mut Item>) where
        Item: PartialEq,

        ensures
            item is None ==> *final(self) == *old(self),
            old(self).same_shape(*final(self)),
            item is Some ==> exists|i: int|
                0 <= i < old(self).count() && *item.unwrap() == old(self).inorder()[i]
                    && *final(self) == #[trigger] old(self).update_at(i, *final(item.unwrap())),
            Item::obeys_eq_spec() ==> match old(self).first_hit(equals(*target_value)) {
                Some(i) => item is Some && *item.unwrap() == old(self).inorder()[i] && *final(self)
                    == old(self).update_at(i, *final(item.unwrap())),
                None => item is None,
            },
        decreases *old(self),
    {
        match &mut self.root {
            None => None,
            Some(node) => {
                proof {
                    old(self).lemma_hit_parts(equals(*target_value));
                    old(self).lhs().lemma_same_shape_self();
                    old(self).rhs().lemma_same_shape_self();
                }
                if *target_value == node.value {
                    let item = &mut node.value;
                    proof {
                        let n = old(self).lhs().count();
                        assert(old(self).update_at(n, *final(item)).top() == *final(item));
                    }
                    Some(item)
                } else {
                    let ghost left0 = node.left;
                    let ghost right0 = node.right;
                    let found = node.left.get_mut(target_value);
                    match found {
                        Some(item) => {
                            proof {
                                let i = choose|i: int|
                                    0 <= i < left0.count() && *item == left0.inorder()[i]
                                        && after_borrow(node.left) == #[trigger] left0.update_at(
                                        i,
                                        *final(item),
                                    );
                                assert(old(self).inorder()[i] == left0.inorder()[i]);
                                assert(old(self).update_at(i, *final(item)).lhs()
                                    == left0.update_at(i, *final(item)));
                            }
                            Some(item)
                        },
                        None => {
                            let item = node.right.get_mut(target_value);
                            proof {
                                if item is Some {
                                    let n = old(self).lhs().count();
                                    let i = choose|i: int|
                                        0 <= i < right0.count() && *item.unwrap()
                                            == right0.inorder()[i] && after_borrow(node.right)
                                            == #[trigger] right0.update_at(
                                            i,
                                            *final(item.unwrap()),
                                        );
                                    assert(old(self).inorder()[n + 1 + i] == right0.inorder()[i]);
                                    assert(old(self).update_at(
                                        n + 1 + i,
                                        *final(item.unwrap()),
                                    ).rhs() == right0.update_at(i, *final(item.unwrap())));
                                }
                            }
                            item
                        },
                    }
                }
            },
        }
    }

    /// The subtree whose top is the first item in pre-order for which `hit`
    /// holds.
    pub open spec fn hit_subtree(self, hit: spec_fn(Item) -> bool) -> Option<Self>
        decreases self,
    {
        match self.root {
            None => None,
            Some(node) => {
                if hit(node.value) {
                    Some(self)
                } else {
                    match node.left.hit_subtree(hit) {
                        Some(t) => Some(t),
                        None => node.right.hit_subtree(hit),
                    }
                }
            },
        }
    }

    /// The tree with `sub` in the place of the subtree that `hit_subtree`
    /// gives; the tree itself where there is none.
    pub open spec fn with_hit_subtree(self, hit: spec_fn(Item) -> bool, sub: Self) -> Self
        decreases self,
    {
        match self.root {
            None => self,
            Some(node) => {
                if hit(node.value) {
                    sub
                } else if node.left.hit_subtree(hit) is Some {
                    self.with_left(node.left.with_hit_subtree(hit, sub))
                } else if node.right.hit_subtree(hit) is Some {
                    self.with_right(node.right.with_hit_subtree(hit, sub))
                } else {
                    self
                }
            },
        }
    }

    /// The subtree at whose top a search for `key` ends.
    pub open spec fn located_subtree<Key>(
        self,
        kf: spec_fn(Item) -> Key,
        c: spec_fn(Key, Key) -> Option<Ordering>,
        key: Key,
    ) -> Option<Self>
        decreases self,
    {
        match self.root {
            None => None,
            Some(node) => {
                if is_less(c, key, kf(node.value)) {
                    node.left.located_subtree(kf, c, key)
                } else if is_greater(c, key, kf(node.value)) {
                    node.right.located_subtree(kf, c, key)
                } else {
                    Some(self)
                }
            },
        }
    }

    /// The tree with `sub` in the place of the subtree that `located_subtree`
    /// gives; the tree itself where there is none.
    pub open spec fn with_located_subtree<Key>(
        self,
        kf: spec_fn(Item) -> Key,
        c: spec_fn(Key, Key) -> Option<Ordering>,
        key: Key,
        sub: Self,
    ) -> Self
        decreases self,
    {
        match self.root {
            None => self,
            Some(node) => {
                if is_less(c, key, kf(node.value)) {
                    if node.left.located_subtree(kf, c, key) is Some {
                        self.with_left(node.left.with_located_subtree(kf, c, key, sub))
                    } else {
                        self
                    }
                } else if is_greater(c, key, kf(node.value)) {
                    if node.right.located_subtree(kf, c, key) is Some {
                        self.with_right(node.right.with_located_subtree(kf, c, key, sub))
                    } else {
                        self
                    }
                } else {
                    sub
                }
            },
        }
    }

    /// The subtree at the end of the left spine, which holds the first item.
    pub open spec fn min_subtree(self) -> Option<Self>
        decreases self,
    {
        match self.root {
            None => None,
            Some(node) => if node.left.root is None {
                Some(self)
            } else {
                node.left.min_subtree()
            },
        }
    }

    /// The tree with `sub` in the place of the subtree at the end of its left
    /// spine.
    pub open spec fn with_min_subtree(self, sub: Self) -> Self
        decreases self,
    {
        match self.root {
            None => self,
            Some(node) => if node.left.root is None {
                sub
            } else {
                self.with_left(node.left.with_min_subtree(sub))
            },
        }
    }

    /// The subtree at the end of the right spine, which holds the last item.
    pub open spec fn max_subtree(self) -> Option<Self>
        decreases self,
    {
        match self.root {
            None => None,
            Some(node) => if node.right.root is None {
                Some(self)
            } else {
                node.right.max_subtree()
            },
        }
    }

    /// The tree with `sub` in the place of the subtree at the end of its right
    /// spine.
    pub open spec fn with_max_subtree(self, sub: Self) -> Self
        decreases self,
    {
        match self.root {
            None => self,
            Some(node) => if node.right.root is None {
                sub
            } else {
                self.with_right(node.right.with_max_subtree(sub))
            },
        }
    }

    /// The subtree that a search ends at is the one whose top is the item
    /// that the search finds; the subtree at the end of the left spine holds
    /// the first item at its top, the one at the end of the right spine the last.
    pub proof fn lemma_subtree_tops<Key>(
        self,
        kf: spec_fn(Item) -> Key,
        c: spec_fn(Key, Key) -> Option<Ordering>,
        key: Key,
    )
        ensures
            self.located_subtree(kf, c, key) is Some <==> self.locate(kf, c, key) is Some,
            self.locate(kf, c, key) matches Some(i) ==> self.located_subtree(
                kf,
                c,
                key,
            ).unwrap().root is Some && self.located_subtree(kf, c, key).unwrap().top()
                == self.inorder()[i],
            self.root is Some ==> self.min_subtree() is Some && self.min_subtree().unwrap().root
                is Some && self.min_subtree().unwrap().top() == self.inorder()[0],
            self.root is Some ==> self.max_subtree() is Some && self.max_subtree().unwrap().root
                is Some && self.max_subtree().unwrap().top() == self.inorder().last(),
        decreases self,
    {
        if self.root is Some {
            self.lemma_inorder_parts();
            self.lhs().lemma_subtree_tops(kf, c, key);
            self.rhs().lemma_subtree_tops(kf, c, key);
            self.lhs().lemma_locate_found(kf, c, key);
            self.rhs().lemma_locate_found(kf, c, key);
            if self.lhs().root is None {
                assert(self.lhs().inorder() =~= Seq::<Item>::empty());
            } else {
                self.lhs().lemma_inorder_parts();
            }
            if self.rhs().root is None {
                assert(self.rhs().inorder() =~= Seq::<Item>::empty());
            } else {
                self.rhs().lemma_inorder_parts();
            }
        }
    }

    /// Whether `after` is this tree with one subtree, `cut`, replaced by
    /// `graft`, and nothing else changed.
    pub open spec fn grafted(self, after: Self, cut: Self, graft: Self) -> bool
        decreases self,
    {
        ||| self == cut && after == graft
        ||| self.root is Some && after == self.with_left(after.lhs()) && self.lhs().grafted(
            after.lhs(),
            cut,
            graft,
        )
        ||| self.root is Some && after == self.with_right(after.rhs()) && self.rhs().grafted(
            after.rhs(),
            cut,
            graft,
        )
    }

    /// An exclusive reference to the subtree whose top is the first item in
    /// pre-order that equals `target_value`. What is written through it
    /// replaces that subtree and changes nothing else.
    pub fn get_tree_mut(&mut self, target_value: &Item) -> (sub: Option<&mut BinTree<Item>>) where
        Item: PartialEq,

        ensures
            sub is None ==> *final(self) == *old(self),
            sub is Some ==> old(self).grafted(
                *final(self),
                *sub.unwrap(),
                *final(sub.unwrap()),
            ),
            Item::obeys_eq_spec() ==> match old(self).hit_subtree(equals(*target_value)) {
                Some(t) => sub is Some && *sub.unwrap() == t && *final(self)
                    == old(self).with_hit_subtree(equals(*target_value), *final(sub.unwrap())),
                None => sub is None,
            },
        decreases *old(self),
    {
        let at_top = match &self.root {
            None => false,
            Some(node) => *target_value == node.value,
        };
        if at_top {
            Some(self)
        } else {
            match &mut self.root {
                None => None,
                Some(node) => {
                    let n = &mut **node;
                    let left = &mut n.left;
                    let right = &mut n.right;
                    match left.get_tree_mut(target_value) {
                        Some(sub) => Some(sub),
                        None => right.get_tree_mut(target_value),
                    }
                },
            }
        }
    }

    /// An exclusive reference to the subtree of a sorted tree whose top equals
    /// `value`. What is written through it replaces that subtree and changes
    /// nothing else.
    pub fn get_tree_sorted_mut(&mut self, value: &Item) -> (sub: Option<&mut BinTree<Item>>) where
        Item: PartialOrd,

        ensures
            sub is None ==> *final(self) == *old(self),
            sub is Some ==> old(self).grafted(
                *final(self),
                *sub.unwrap(),
                *final(sub.unwrap()),
            ),
            Item::obeys_partial_cmp_spec() ==> match old(self).located_subtree(
                own_key(),
                natural_order(),
                *value,
            ) {
                Some(t) => sub is Some && *sub.unwrap() == t && *final(self)
                    == old(self).with_located_subtree(
                    own_key(),
                    natural_order(),
                    *value,
                    *final(sub.unwrap()),
                ),
                None => sub is None,
            },
        decreases *old(self),
    {
        let way = match &self.root {
            None => None,
            Some(node) => if *value < node.value {
                Some(true)
            } else if *value > node.value {
                Some(false)
            } else {
                None
            },
        };
        match way {
            None => if self.is_empty() {
                None
            } else {
                Some(self)
            },
            Some(go_left) => match &mut self.root {
                None => None,
                Some(node) => if go_left {
                    node.left.get_tree_sorted_mut(value)
                } else {
                    node.right.get_tree_sorted_mut(value)
                },
            },
        }
    }

    /// An exclusive reference to the subtree at the end of the left spine,
    /// whose top is the first item; `None` for an empty tree.
    pub fn min_tree_mut(&mut self) -> (sub: Option<&mut BinTree<Item>>)
        ensures
            old(self).root is None ==> sub is None && *final(self) == *old(self),
            old(self).root is Some ==> sub is Some && Some(*sub.unwrap()) == old(self).min_subtree()
                && *final(self) == old(self).with_min_subtree(*final(sub.unwrap())),
        decreases *old(self),
    {
        let here = match &self.root {
            None => None,
            Some(node) => Some(node.left.is_empty()),
        };
        match here {
            None => None,
            Some(true) => Some(self),
            Some(false) => match &mut self.root {
                None => None,
                Some(node) => node.left.min_tree_mut(),
            },
        }
    }

    /// An exclusive reference to the subtree at the end of the right spine,
    /// whose top is the last item; `None` for an empty tree.
    pub fn max_tree_mut(&mut self) -> (sub: Option<&mut BinTree<Item>>)
        ensures
            old(self).root is None ==> sub is None && *final(self) == *old(self),
            old(self).root is Some ==> sub is Some && Some(*sub.unwrap()) == old(self).max_subtree()
                && *final(self) == old(self).with_max_subtree(*final(sub.unwrap())),
        decreases *old(self),
    {
        let here = match &self.root {
            None => None,
            Some(node) => Some(node.right.is_empty()),
        };
        match here {
            None => None,
            Some(true) => Some(self),
            Some(false) => match &mut self.root {
                None => None,
                Some(node) => node.right.max_tree_mut(),
            },
        }
    }
}

} // verus!
