//! An ordered set of items, kept in a balanced sorted tree.

use crate::bin_tree::formatted::{debug_text, list_string, list_text};
use crate::bin_tree::iter::{BinTreeIntoIter, BinTreeIter};
use crate::bin_tree::laws::replaced_by;
use crate::bin_tree::order::{natural_order, own_key, sorted_by, weak_order};
use crate::bin_tree::utils_insertion::inserted;
use crate::bin_tree::utils_removal::removed;
use crate::bin_tree::{lemma_take_all, BinTree};
use vstd::prelude::*;
use vstd::std_specs::cmp::{PartialEqSpecImpl, PartialOrdSpec};

verus! {

/// An ordered set: a sorted, balanced tree that holds one item per value,
/// together with the number of its items.
#[derive(Debug)]
pub struct BinTreeOrderedSet<Item> where Item: PartialOrd {
    data: BinTree<Item>,
    len: usize,
}

impl<Item: PartialOrd> BinTreeOrderedSet<Item> {
    /// The tree that holds the items.
    pub closed spec fn tree(self) -> BinTree<Item> {
        self.data
    }

    /// The items in ascending order.
    pub open spec fn items(self) -> Seq<Item> {
        self.tree().inorder()
    }

    /// What always holds of a set: the tree is balanced with right heights,
    /// the number kept beside it is the number of its items, and the items
    /// are in order wherever the type's own order ranks them.
    #[verifier::type_invariant]
    pub closed spec fn well_formed(self) -> bool {
        &&& self.data.is_avl()
        &&& self.len == self.data.count()
        &&& Item::obeys_partial_cmp_spec() && weak_order(natural_order::<Item>()) ==> sorted_by(
            self.data.inorder(),
            own_key(),
            natural_order(),
        )
    }

    /// The empty set.
    pub fn new() -> (s: Self)
        ensures
            s.tree() == BinTree::<Item>::spec_new(),
            s.items() == Seq::<Item>::empty(),
    {
        let s = Self { data: BinTree::new(), len: 0 };
        proof {
            assert(s.data.inorder() =~= Seq::<Item>::empty());
        }
        s
    }

    /// The number of items in the set.
    pub fn len(&self) -> (n: usize)
        ensures
            n == self.items().len(),
    {
        proof {
            use_type_invariant(self);
        }
        self.len
    }

    /// Puts `value` into the set; an item equal to it gives way to it.
    pub fn insert(&mut self, value: Item)
        requires
            old(self).items().len() < isize::MAX,
        ensures
            final(self).items().len() == old(self).items().len() || final(self).items().len()
                == old(self).items().len() + 1,
            Item::obeys_partial_cmp_spec() ==> final(self).tree() == old(self).tree().after_insert(
                own_key(),
                natural_order(),
                value,
                true,
                true,
            ) && inserted(
                old(self).tree(),
                final(self).tree(),
                replaced_by(old(self).tree(), own_key(), natural_order(), value, true),
                own_key(),
                natural_order(),
                value,
                true,
            ),
    {
        let mut held = Self::new();
        core::mem::swap(self, &mut held);
        proof {
            use_type_invariant(&held);
            held.data.lemma_depth_le_count();
            held.data.lemma_heights_ok_depth();
        }
        let mut data = held.data;
        let mut len = held.len;
        proof {
            data.law_insert(own_key(), natural_order::<Item>(), value, true, true);
        }
        if data.insert_unique(value) {
            len += 1;
        }
        *self = Self { data, len };
    }

    /// Takes the item equal to `value` out of the set and hands it back.
    pub fn remove(&mut self, value: &Item) -> (taken: Option<Item>)
        ensures
            taken is None ==> final(self).tree() == old(self).tree(),
            taken is Some ==> final(self).items().len() == old(self).items().len() - 1,
            Item::obeys_partial_cmp_spec() ==> final(self).tree() == old(self).tree().after_remove(
                own_key(),
                natural_order(),
                *value,
                true,
            ) && removed(
                old(self).tree(),
                final(self).tree(),
                taken,
                own_key(),
                natural_order(),
                *value,
            ),
    {
        let mut held = Self::new();
        core::mem::swap(self, &mut held);
        proof {
            use_type_invariant(&held);
        }
        let mut data = held.data;
        let mut len = held.len;
        let taken = data.remove_sorted(value);
        if taken.is_some() {
            len -= 1;
        }
        *self = Self { data, len };
        taken
    }

    /// Whether the set holds an item equal to `value`.
    pub fn contains(&self, value: &Item) -> (found: bool)
        ensures
            Item::obeys_partial_cmp_spec() ==> found == (self.tree().locate(
                own_key(),
                natural_order(),
                *value,
            ) is Some),
    {
        self.data.contains_sorted(value)
    }

    /// References to the items in ascending order.
    pub fn iter<'a>(&'a self) -> (it: BinTreeIter<'a, Item>)
        ensures
            it.remaining() == self.items(),
    {
        self.data.iter_dfs_in()
    }

    /// Consumes the set and hands out its items in ascending order.
    pub fn into_iter(self) -> (it: BinTreeIntoIter<Item>)
        ensures
            it.remaining() == self.items(),
    {
        self.data.into_iter_dfs_in()
    }

    /// Turns the set into the tree that holds its items.
    pub fn into_inner(self) -> (t: BinTree<Item>)
        ensures
            t == self.tree(),
            t.is_avl(),
    {
        proof {
            use_type_invariant(&self);
        }
        self.data
    }

    /// The tree that holds the items: balanced, with right heights, and
    /// sorted wherever the type's own order ranks the items.
    pub fn inner(&self) -> (t: &BinTree<Item>)
        ensures
            *t == self.tree(),
            t.is_avl(),
            Item::obeys_partial_cmp_spec() && weak_order(natural_order::<Item>()) ==> sorted_by(
                t.inorder(),
                own_key(),
                natural_order(),
            ),
    {
        proof {
            use_type_invariant(self);
        }
        &self.data
    }

    /// The tree that holds the items, on one line.
    pub fn to_tree_string(&self) -> (text: String) where Item: core::fmt::Debug
        ensures
            exists|l: BinTree<String>| self.tree().same_shape(l) && text@ == l.line_text(),
    {
        self.data.to_string()
    }

    /// Puts each of `items` into the set, in turn.
    pub fn extend(&mut self, items: Vec<Item>)
        requires
            old(self).items().len() + items.len() < isize::MAX,
        ensures
            old(self).items().len() <= final(self).items().len() <= old(self).items().len()
                + items.len(),
            Item::obeys_partial_cmp_spec() ==> final(self).tree() == old(self).tree().after_inserts(
                own_key(),
                natural_order(),
                items@,
                true,
                true,
            ),
    {
        let ghost all = items@;
        let ghost start = self.items().len();
        let ghost first = self.tree();
        for elem in it: items
            invariant
                it.seq() == all,
                start <= self.items().len() <= start + it.index(),
                start + all.len() < isize::MAX,
                Item::obeys_partial_cmp_spec() ==> self.tree() == first.after_inserts(
                    own_key(),
                    natural_order(),
                    all.take(it.index()),
                    true,
                    true,
                ),
        {
            proof {
                assert(all.take(it.index() + 1).drop_last() =~= all.take(it.index()));
                assert(all.take(it.index() + 1).last() == elem);
            }
            self.insert(elem);
        }
        proof {
            lemma_take_all(all);
        }
    }

    /// The set of the items of `items`.
    pub fn from_vec(items: Vec<Item>) -> (s: Self)
        requires
            items.len() < isize::MAX,
        ensures
            s.items().len() <= items.len(),
            Item::obeys_partial_cmp_spec() ==> s.tree()
                == BinTree::<Item>::spec_new().after_inserts(
                own_key(),
                natural_order(),
                items@,
                true,
                true,
            ),
    {
        let mut s = Self::new();
        s.extend(items);
        s
    }

    /// The set of the items of `tree`.
    pub fn from_tree(tree: BinTree<Item>) -> (s: Self)
        requires
            tree.count() < isize::MAX,
        ensures
            s.items().len() <= tree.count(),
            Item::obeys_partial_cmp_spec() ==> s.tree()
                == BinTree::<Item>::spec_new().after_inserts(
                own_key(),
                natural_order(),
                tree.inorder(),
                true,
                true,
            ),
    {
        let items = tree.into_vec();
        Self::from_vec(items)
    }

    /// Whether the two sets hold equal items: each item of either is found in
    /// the other.
    pub fn same_items(&self, other: &Self) -> (same: bool)
        ensures
            Item::obeys_partial_cmp_spec() ==> same == (self.within(*other) && other.within(*self)),
    {
        self.subset_of(other) && other.subset_of(self)
    }

    /// Every item of this set is found in `other`.
    pub open spec fn within(self, other: Self) -> bool {
        forall|i: int|
            0 <= i < self.items().len() ==> other.tree().locate(
                own_key(),
                natural_order(),
                #[trigger] self.items()[i],
            ) is Some
    }

    /// Whether every item of this set is found in `other`.
    pub fn subset_of(&self, other: &Self) -> (all: bool)
        ensures
            Item::obeys_partial_cmp_spec() ==> all == self.within(*other),
    {
        let mut it = self.data.iter();
        let ghost done: int = 0;
        loop
            invariant
                0 <= done <= self.items().len(),
                it.remaining() == self.items().skip(done),
                Item::obeys_partial_cmp_spec() ==> forall|i: int|
                    0 <= i < done ==> other.tree().locate(
                        own_key(),
                        natural_order(),
                        #[trigger] self.items()[i],
                    ) is Some,
            decreases it.remaining().len(),
        {
            match it.next() {
                None => {
                    return true;
                },
                Some(item) => {
                    proof {
                        assert(self.items().skip(done)[0] == self.items()[done]);
                        assert(self.items().skip(done).drop_first() =~= self.items().skip(
                            done + 1,
                        ));
                    }
                    if !other.contains(item) {
                        return false;
                    }
                    proof {
                        done = done + 1;
                    }
                },
            }
        }
    }

    /// The items as text, in ascending order: the `Debug` texts of the items,
    /// laid out as a list.
    pub fn to_string(&self) -> (text: String) where Item: core::fmt::Debug
        ensures
            exists|labels: Seq<Seq<char>>|
                labels.len() == self.items().len() && text@ == list_text(labels),
    {
        let mut labels: Vec<String> = Vec::new();
        let mut it = self.data.iter();
        loop
            invariant
                labels@.len() + it.remaining().len() == self.items().len(),
            ensures
                labels@.len() == self.items().len(),
            decreases it.remaining().len(),
        {
            match it.next() {
                None => {
                    break ;
                },
                Some(item) => {
                    labels.push(debug_text(item));
                },
            }
        }
        list_string(&labels)
    }
}

impl<Item: PartialOrd> PartialEq for BinTreeOrderedSet<Item> {
    /// Two sets are equal when each item of either is found in the other.
    fn eq(&self, other: &Self) -> (same: bool) {
        self.same_items(other)
    }
}

impl<Item: PartialOrd> PartialEqSpecImpl for BinTreeOrderedSet<Item> {
    open spec fn obeys_eq_spec() -> bool {
        Item::obeys_partial_cmp_spec()
    }

    open spec fn eq_spec(&self, other: &Self) -> bool {
        self.within(*other) && other.within(*self)
    }
}

/// Another name for the ordered set.
pub type OrderedSetBinTree<Item> = BinTreeOrderedSet<Item>;

impl<Item: PartialOrd> Default for BinTreeOrderedSet<Item> {
    /// The empty set.
    fn default() -> (s: Self)
        ensures
            s.items() == Seq::<Item>::empty(),
    {
        Self::new()
    }
}

} // verus!
