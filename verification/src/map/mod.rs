//! A map from keys to values, kept in a balanced tree sorted by key.

use crate::bin_tree::order::{
    cmp_fn_is, key_fn_is, lemma_natural_cmp, natural_cmp, natural_order, sorted_by, weak_order,
};
use crate::bin_tree::laws::replaced_by;
use crate::bin_tree::utils_insertion::inserted;
use crate::bin_tree::utils_removal::removed;
use crate::bin_tree::formatted::{
    debug_text, list_string, list_text, pair_string, pair_text, texts_of,
};
use crate::bin_tree::{index_of, BinTree};
use crate::map::entry::{entry_key, BinTreeMapEntry};
use crate::BinTreeError;
use vstd::prelude::*;
use vstd::std_specs::cmp::PartialOrdSpec;

pub mod entry;
pub mod iter;

verus! {

/// A map: a sorted, balanced tree of entries that holds one entry per key,
/// together with the number of its entries.
#[derive(Debug)]
pub struct BinTreeMap<Key, Value> where Key: PartialOrd {
    data: BinTree<BinTreeMapEntry<Key, Value>>,
    len: usize,
}

impl<Key: PartialOrd, Value> BinTreeMap<Key, Value> {
    /// The tree that holds the entries.
    pub closed spec fn tree(self) -> BinTree<BinTreeMapEntry<Key, Value>> {
        self.data
    }

    /// The entries in ascending order of their keys.
    pub open spec fn entries(self) -> Seq<BinTreeMapEntry<Key, Value>> {
        self.tree().inorder()
    }

    /// The position of the entry that a search for `key` finds.
    pub open spec fn place(self, key: Key) -> Option<int> {
        self.tree().locate(entry_key(), natural_order(), key)
    }

    /// What the operations of the map keep up: the tree is balanced with
    /// right heights, the number kept beside it is the number of its entries,
    /// and the entries are in order of their keys wherever the keys' own order
    /// ranks them.
    pub closed spec fn wf(self) -> bool {
        &&& self.data.is_avl()
        &&& self.len == self.data.count()
        &&& Key::obeys_partial_cmp_spec() && weak_order(natural_order::<Key>()) ==> sorted_by(
            self.data.inorder(),
            entry_key(),
            natural_order(),
        )
    }

    /// What a well-formed map says of its tree.
    pub proof fn lemma_wf(self)
        requires
            self.wf(),
        ensures
            self.tree().is_avl(),
            Key::obeys_partial_cmp_spec() && weak_order(natural_order::<Key>()) ==> sorted_by(
                self.entries(),
                entry_key(),
                natural_order(),
            ),
    {
    }

    /// The empty map.
    pub fn new() -> (m: Self)
        ensures
            m.wf(),
            m.tree() == BinTree::<BinTreeMapEntry<Key, Value>>::spec_new(),
            m.entries() == Seq::<BinTreeMapEntry<Key, Value>>::empty(),
    {
        let m = Self { data: BinTree::new(), len: 0 };
        proof {
            assert(m.data.inorder() =~= Seq::<BinTreeMapEntry<Key, Value>>::empty());
        }
        m
    }

    /// The number of entries.
    pub fn len(&self) -> (n: usize)
        requires
            self.wf(),
        ensures
            n == self.entries().len(),
    {
        self.len
    }

    /// Whether the map holds no entry.
    pub fn is_empty(&self) -> (empty: bool)
        ensures
            empty == (self.entries().len() == 0),
    {
        proof {
            if self.data.root is Some {
                self.data.lemma_inorder_parts();
            }
        }
        self.data.is_empty()
    }

    /// Stores `value` under `key`; an entry with the same key gives way.
    pub fn insert(&mut self, key: Key, value: Value)
        requires
            old(self).wf(),
            old(self).entries().len() < isize::MAX,
        ensures
            final(self).wf(),
            final(self).entries().len() == old(self).entries().len() || final(self).entries().len()
                == old(self).entries().len() + 1,
            Key::obeys_partial_cmp_spec() ==> match old(self).place(key) {
                Some(i) => final(self).entries() == old(self).entries().update(
                    i,
                    (BinTreeMapEntry { key, value }),
                ),
                None => final(self).entries().len() == old(self).entries().len() + 1,
            },
            Key::obeys_partial_cmp_spec() ==> final(self).tree() == old(self).tree().after_insert(
                entry_key(),
                natural_order(),
                (BinTreeMapEntry { key, value }),
                true,
                true,
            ) && inserted(
                old(self).tree(),
                final(self).tree(),
                replaced_by(
                    old(self).tree(),
                    entry_key(),
                    natural_order(),
                    (BinTreeMapEntry { key, value }),
                    true,
                ),
                entry_key(),
                natural_order(),
                (BinTreeMapEntry { key, value }),
                true,
            ),
    {
        proof {
            lemma_natural_cmp::<Key>();
            self.data.lemma_depth_le_count();
            self.data.lemma_heights_ok_depth();
            self.data.law_insert(
                entry_key(),
                natural_order::<Key>(),
                (BinTreeMapEntry { key, value }),
                true,
                true,
            );
        }
        let replaced = self.data.insert_unique_to_key_cmp(
            BinTreeMapEntry { key, value },
            BinTreeMapEntry::<Key, Value>::key,
            natural_cmp::<Key>,
        );
        proof {
            assert(key_fn_is(BinTreeMapEntry::<Key, Value>::key, entry_key::<Key, Value>()));
            if Key::obeys_partial_cmp_spec() {
                assert(cmp_fn_is(natural_cmp::<Key>, natural_order::<Key>()));
                assert(inserted(
                    old(self).tree(),
                    self.data,
                    replaced,
                    entry_key(),
                    natural_order(),
                    (BinTreeMapEntry { key, value }),
                    true,
                ));
            }
        }
        if replaced.is_none() {
            self.len += 1;
        }
    }

    /// The value stored under `key`.
    pub fn get(&self, key: &Key) -> (value: Option<&Value>)
        ensures
            Key::obeys_partial_cmp_spec() ==> match self.place(*key) {
                Some(i) => value == Some(&self.entries()[i].value),
                None => value is None,
            },
    {
        match self.get_key_value(key) {
            Some((_, value)) => Some(value),
            None => None,
        }
    }

    /// The key and the value of the entry stored under `key`.
    pub fn get_key_value(&self, key: &Key) -> (kv: Option<(&Key, &Value)>)
        ensures
            Key::obeys_partial_cmp_spec() ==> match self.place(*key) {
                Some(i) => kv == Some((&self.entries()[i].key, &self.entries()[i].value)),
                None => kv is None,
            },
    {
        let found = self.data.get_sorted_with_key(key, &BinTreeMapEntry::<Key, Value>::key);
        proof {
            assert(key_fn_is(BinTreeMapEntry::<Key, Value>::key, entry_key::<Key, Value>()));
        }
        match found {
            Some(kv) => Some((&kv.key, &kv.value)),
            None => None,
        }
    }

    /// An exclusive reference to the value stored under `key`. What is
    /// written through it replaces that value and changes nothing else.
    pub fn get_mut(&mut self, key: &Key) -> (value: Option<&mut Value>)
        requires
            old(self).wf(),
        ensures
            value is None ==> *final(self) == *old(self),
            final(self).wf(),
            final(self).entries().len() == old(self).entries().len(),
            Key::obeys_partial_cmp_spec() ==> match old(self).place(*key) {
                Some(i) => value is Some && *value.unwrap() == old(self).entries()[i].value
                    && final(self).tree() == old(self).tree().update_at(
                    i,
                    (BinTreeMapEntry { key: old(self).entries()[i].key, value: *final(value.unwrap()) }),
                ),
                None => value is None,
            },
    {
        let ghost before = self.data;
        let found = self.data.get_sorted_mut_with_key(key, &BinTreeMapEntry::<Key, Value>::key);
        proof {
            assert(key_fn_is(BinTreeMapEntry::<Key, Value>::key, entry_key::<Key, Value>()));
            before.lemma_locate_found(entry_key(), natural_order(), *key);
            assert forall|after: BinTree<BinTreeMapEntry<Key, Value>>| #[trigger]
                before.same_shape(after) implies after.is_avl() && after.count()
                == before.count() by {
                before.lemma_same_shape(after);
            }
            assert forall|i: int, e: BinTreeMapEntry<Key, Value>|
                0 <= i < before.count() && e.key == before.inorder()[i].key && sorted_by(
                    before.inorder(),
                    entry_key(),
                    natural_order::<Key>(),
                ) && weak_order(natural_order::<Key>()) implies sorted_by(
                (#[trigger] before.update_at(i, e)).inorder(),
                entry_key(),
                natural_order::<Key>(),
            ) by {
                before.lemma_update_at(i, e);
                crate::bin_tree::order::lemma_update_sorted(
                    before.inorder(),
                    entry_key(),
                    natural_order::<Key>(),
                    i,
                    e,
                );
            }
        }
        match found {
            Some(kv) => Some(&mut kv.value),
            None => None,
        }
    }

    /// Whether a value is stored under `key`.
    pub fn contains_key(&self, key: &Key) -> (found: bool)
        ensures
            Key::obeys_partial_cmp_spec() ==> found == (self.place(*key) is Some),
    {
        self.get(key).is_some()
    }

    /// Turns the map into the tree that holds its entries.
    pub fn into_inner(self) -> (t: BinTree<BinTreeMapEntry<Key, Value>>)
        ensures
            t == self.tree(),
    {
        self.data
    }

    /// The tree that holds the entries.
    pub fn inner(&self) -> (t: &BinTree<BinTreeMapEntry<Key, Value>>)
        ensures
            *t == self.tree(),
    {
        &self.data
    }

    /// The tree that holds the entries, for the walks that change values: the
    /// map will hold what the tree will hold, and stays well-formed if the
    /// tree keeps its shape and the order of its keys.
    pub(crate) fn inner_mut(&mut self) -> (t: &mut BinTree<BinTreeMapEntry<Key, Value>>)
        ensures
            *t == old(self).tree(),
            final(self).tree() == *final(t),
            old(self).wf() && old(self).tree().same_shape(*final(t)) && (
            Key::obeys_partial_cmp_spec() && weak_order(natural_order::<Key>()) ==> sorted_by(
                final(t).inorder(),
                entry_key(),
                natural_order(),
            )) ==> final(self).wf(),
    {
        proof {
            assert forall|after: BinTree<BinTreeMapEntry<Key, Value>>| #[trigger]
                self.data.same_shape(after) implies after.is_avl() == self.data.is_avl()
                && after.count() == self.data.count() by {
                self.data.lemma_same_shape(after);
            }
        }
        &mut self.data
    }

    /// The tree that holds the entries, on one line.
    pub fn to_tree_string(&self) -> (text: String) where
        Key: core::fmt::Debug,
        Value: core::fmt::Debug,

        ensures
            exists|l: BinTree<String>| self.tree().same_shape(l) && text@ == l.line_text(),
    {
        self.data.to_string()
    }

    /// Takes the entry stored under `key` out of the map and hands back its
    /// value.
    pub fn remove(&mut self, key: &Key) -> (value: Option<Value>)
        requires
            old(self).wf(),
        ensures
            final(self).wf(),
            value is None ==> *final(self) == *old(self),
            value is Some ==> final(self).entries().len() == old(self).entries().len() - 1,
            Key::obeys_partial_cmp_spec() ==> match old(self).place(*key) {
                Some(i) => value == Some(old(self).entries()[i].value) && final(self).entries()
                    == old(self).entries().remove(i),
                None => value is None,
            },
            Key::obeys_partial_cmp_spec() ==> final(self).tree() == old(self).tree().after_remove(
                entry_key(),
                natural_order(),
                *key,
                true,
            ),
    {
        proof {
            lemma_natural_cmp::<Key>();
        }
        let taken = self.data.remove_sorted_to_key_cmp(
            key,
            BinTreeMapEntry::<Key, Value>::key,
            natural_cmp::<Key>,
            true,
        );
        proof {
            assert(key_fn_is(BinTreeMapEntry::<Key, Value>::key, entry_key::<Key, Value>()));
            if Key::obeys_partial_cmp_spec() {
                assert(cmp_fn_is(natural_cmp::<Key>, natural_order::<Key>()));
                assert(removed(
                    old(self).tree(),
                    self.data,
                    taken,
                    entry_key(),
                    natural_order(),
                    *key,
                ));
            }
        }
        match taken {
            Some(kv) => {
                self.len -= 1;
                Some(kv.value)
            },
            None => None,
        }
    }

    /// What an exchange of the values stored under two keys comes to, where
    /// `first` and `second` are the positions of the two entries: a missing
    /// first entry, a missing second entry, and one entry found for both are
    /// errors that leave the map as it is; otherwise the two values change
    /// places and the keys stay.
    pub open spec fn swapped(
        self,
        after: Self,
        outcome: Result<(), BinTreeError>,
        first: Option<int>,
        second: Option<int>,
    ) -> bool {
        match (first, second) {
            (None, _) => outcome == Err::<(), BinTreeError>(BinTreeError::SwapNotFound1) && after
                == self,
            (Some(_), None) => outcome == Err::<(), BinTreeError>(BinTreeError::SwapNotFound2)
                && after == self,
            (Some(i), Some(j)) => if i == j {
                outcome == Err::<(), BinTreeError>(BinTreeError::SwapSame) && after == self
            } else {
                outcome == Ok::<(), BinTreeError>(()) && after.tree() == self.tree().update_at(
                    i,
                    (BinTreeMapEntry { key: self.entries()[i].key, value: self.entries()[j].value }),
                ).update_at(
                    j,
                    (BinTreeMapEntry { key: self.entries()[j].key, value: self.entries()[i].value }),
                )
            },
        }
    }

    /// Exchanges the values stored under `key1` and `key2`.
    pub fn swap(&mut self, key1: &Key, key2: &Key) -> (outcome: Result<(), BinTreeError>)
        requires
            old(self).wf(),
        ensures
            final(self).wf(),
            outcome is Err ==> *final(self) == *old(self),
            final(self).entries().len() == old(self).entries().len(),
            outcome is Ok ==> exists|i: int, j: int|
                0 <= i < j < old(self).entries().len() && final(self).tree()
                    == #[trigger] old(self).tree().update_at(
                    i,
                    (BinTreeMapEntry {
                        key: old(self).entries()[i].key,
                        value: old(self).entries()[j].value,
                    }),
                ).update_at(
                    j,
                    (BinTreeMapEntry {
                        key: old(self).entries()[j].key,
                        value: old(self).entries()[i].value,
                    }),
                ),
            Key::obeys_partial_cmp_spec() ==> old(self).swapped(
                *final(self),
                outcome,
                old(self).place(*key1),
                old(self).place(*key2),
            ),
    {
        let ghost before = self.data;
        proof {
            assert(key_fn_is(BinTreeMapEntry::<Key, Value>::key, entry_key::<Key, Value>()));
            before.lemma_locate_found(entry_key(), natural_order(), *key1);
            before.lemma_locate_found(entry_key(), natural_order(), *key2);
        }
        let first = match self.data.position_sorted_with_key(
            key1,
            &BinTreeMapEntry::<Key, Value>::key,
        ) {
            Some(i) => i,
            None => {
                return Err(BinTreeError::SwapNotFound1);
            },
        };
        let second = match self.data.position_sorted_with_key(
            key2,
            &BinTreeMapEntry::<Key, Value>::key,
        ) {
            Some(j) => j,
            None => {
                return Err(BinTreeError::SwapNotFound2);
            },
        };
        if first == second {
            return Err(BinTreeError::SwapSame);
        }
        let (low, high) = if first < second {
            (first, second)
        } else {
            (second, first)
        };
        proof {
            before.lemma_swap_values_kept(index_of(low), index_of(high));
        }
        let pair = self.data.pair_mut(low, high);
        match pair {
            Some((a, b)) => {
                core::mem::swap(&mut a.value, &mut b.value);
            },
            None => {},
        }
        Ok(())
    }

    /// The entries as text, in ascending order of their keys: each entry as
    /// the pair of the `Debug` texts of its key and its value, and the pairs
    /// laid out as a list.
    pub fn to_string(&self) -> (text: String) where Key: core::fmt::Debug, Value: core::fmt::Debug
        ensures
            exists|keys: Seq<Seq<char>>, values: Seq<Seq<char>>|
                keys.len() == self.entries().len() && values.len() == self.entries().len() && text@
                    == list_text(Seq::new(keys.len(), |i: int| pair_text(keys[i], values[i]))),
    {
        let mut labels: Vec<String> = Vec::new();
        let ghost mut keys: Seq<Seq<char>> = Seq::empty();
        let ghost mut values: Seq<Seq<char>> = Seq::empty();
        let mut it = self.data.iter();
        loop
            invariant
                labels@.len() + it.remaining().len() == self.entries().len(),
                keys.len() == labels@.len(),
                values.len() == labels@.len(),
                texts_of(labels@) == Seq::new(keys.len(), |i: int| pair_text(keys[i], values[i])),
            ensures
                labels@.len() == self.entries().len(),
                keys.len() == labels@.len(),
                values.len() == labels@.len(),
                texts_of(labels@) == Seq::new(keys.len(), |i: int| pair_text(keys[i], values[i])),
            decreases it.remaining().len(),
        {
            match it.next() {
                None => {
                    break ;
                },
                Some(kv) => {
                    let key_text = debug_text(&kv.key);
                    let value_text = debug_text(&kv.value);
                    let pair = pair_string(&key_text, &value_text);
                    proof {
                        let before = keys.len();
                        keys = keys.push(key_text@);
                        values = values.push(value_text@);
                        assert(texts_of(labels@.push(pair)) =~= Seq::new(
                            keys.len(),
                            |i: int| pair_text(keys[i], values[i]),
                        )) by {
                            assert forall|i: int| 0 <= i < keys.len() implies texts_of(
                                labels@.push(pair),
                            )[i] == pair_text(keys[i], values[i]) by {
                                if i < before {
                                    assert(texts_of(labels@)[i] == labels@[i]@);
                                }
                            }
                        }
                    }
                    labels.push(pair);
                },
            }
        }
        list_string(&labels)
    }
}

impl<Key: PartialOrd + Clone, Value: Clone> Clone for BinTreeMap<Key, Value> {
    /// A map over a tree of the same shape that holds clones of the entries.
    fn clone(&self) -> (copy: Self)
        ensures
            self.tree().cloned_as(copy.tree()),
    {
        BinTreeMap { data: self.data.clone(), len: self.len }
    }
}

impl<Key: PartialOrd, Value> Default for BinTreeMap<Key, Value> {
    /// The empty map.
    fn default() -> (m: Self)
        ensures
            m.wf(),
            m.entries() == Seq::<BinTreeMapEntry<Key, Value>>::empty(),
    {
        Self::new()
    }
}

impl<Key: PartialOrd, Value> BinTree<BinTreeMapEntry<Key, Value>> {
    /// Exchanging the values of the entries at two different positions, with
    /// the keys left in place, keeps the tree balanced, its heights right, its
    /// size, and its order by key.
    pub proof fn lemma_swap_values_kept(self, i: int, j: int)
        requires
            0 <= i < j < self.count(),
        ensures
            ({
                let a = BinTreeMapEntry { key: self.inorder()[i].key, value: self.inorder()[j].value };
                let b = BinTreeMapEntry { key: self.inorder()[j].key, value: self.inorder()[i].value };
                let after = self.update_at(i, a).update_at(j, b);
                &&& after == self.update_at(j, b).update_at(i, a)
                &&& after.count() == self.count()
                &&& after.is_avl() == self.is_avl()
                &&& (weak_order(natural_order::<Key>()) && sorted_by(
                    self.inorder(),
                    entry_key(),
                    natural_order::<Key>(),
                ) ==> sorted_by(after.inorder(), entry_key(), natural_order::<Key>()))
            }),
    {
        let a = BinTreeMapEntry { key: self.inorder()[i].key, value: self.inorder()[j].value };
        let b = BinTreeMapEntry { key: self.inorder()[j].key, value: self.inorder()[i].value };
        let mid = self.update_at(i, a);
        let after = mid.update_at(j, b);
        self.lemma_update_two(i, a, j, b);
        self.lemma_update_at(i, a);
        mid.lemma_update_at(j, b);
        if weak_order(natural_order::<Key>()) && sorted_by(
            self.inorder(),
            entry_key(),
            natural_order::<Key>(),
        ) {
            crate::bin_tree::order::lemma_update_sorted(
                self.inorder(),
                entry_key(),
                natural_order::<Key>(),
                i,
                a,
            );
            crate::bin_tree::order::lemma_update_sorted(
                mid.inorder(),
                entry_key(),
                natural_order::<Key>(),
                j,
                b,
            );
        }
    }
}

} // verus!
