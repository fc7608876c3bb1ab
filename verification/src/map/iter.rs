//! Walking a map in ascending order of its keys.

use crate::bin_tree::iter::{
    pending_items, BinTreeIntoIter, BinTreeIter, BinTreeIterMut, BinTreeTraversal,
    DepthFirstOrder, IterIntoData, IterMutData,
};
use crate::bin_tree::order::{natural_order, sorted_by, weak_order};
use crate::map::entry::{entry_key, BinTreeMapEntry};
use crate::map::BinTreeMap;
use vstd::prelude::*;
use vstd::std_specs::cmp::PartialOrdSpec;

verus! {

/// A walk that consumes the map and hands out its keys with their values.
pub struct BinTreeMapIntoIter<K, V> where K: PartialOrd {
    iter: BinTreeIntoIter<BinTreeMapEntry<K, V>>,
}

impl<K: PartialOrd, V> BinTreeMapIntoIter<K, V> {
    /// The entries that are still to come, in the order in which they will come.
    pub closed spec fn remaining(self) -> Seq<BinTreeMapEntry<K, V>> {
        self.iter.remaining()
    }

    /// The next key with its value, or `None` when the walk is over.
    pub fn next(&mut self) -> (r: Option<(K, V)>)
        ensures
            old(self).remaining().len() == 0 ==> r is None && final(self).remaining().len() == 0,
            old(self).remaining().len() > 0 ==> r == Some(
                (old(self).remaining()[0].key, old(self).remaining()[0].value),
            ) && final(self).remaining() == old(self).remaining().drop_first(),
    {
        match self.iter.next() {
            Some(entry) => Some((entry.key, entry.value)),
            None => None,
        }
    }
}

/// A walk that hands out references to the keys and their values.
pub struct BinTreeMapIter<'a, K, V> where K: PartialOrd {
    iter: BinTreeIter<'a, BinTreeMapEntry<K, V>>,
}

impl<'a, K: PartialOrd, V> BinTreeMapIter<'a, K, V> {
    /// The entries that are still to come, in the order in which they will come.
    pub closed spec fn remaining(self) -> Seq<BinTreeMapEntry<K, V>> {
        self.iter.remaining()
    }

    /// References to the next key and its value, or `None` when the walk is over.
    pub fn next(&mut self) -> (r: Option<(&'a K, &'a V)>)
        ensures
            old(self).remaining().len() == 0 ==> r is None && final(self).remaining().len() == 0,
            old(self).remaining().len() > 0 ==> r == Some(
                (&old(self).remaining()[0].key, &old(self).remaining()[0].value),
            ) && final(self).remaining() == old(self).remaining().drop_first(),
    {
        match self.iter.next() {
            Some(entry) => Some((&entry.key, &entry.value)),
            None => None,
        }
    }
}

/// A walk that hands out references to the keys and exclusive references to
/// their values, so that the values can be changed in place.
pub struct BinTreeMapIterMut<'a, K, V> where K: PartialOrd {
    iter: BinTreeIterMut<'a, BinTreeMapEntry<K, V>>,
}

impl<'a, K: PartialOrd, V> BinTreeMapIterMut<'a, K, V> {
    /// The entries that are still to come, in the order in which they will come.
    pub closed spec fn remaining(self) -> Seq<BinTreeMapEntry<K, V>> {
        self.iter.remaining()
    }

    /// The walk over the tree of entries that this walk is made of.
    pub closed spec fn walk(self) -> BinTreeIterMut<'a, BinTreeMapEntry<K, V>> {
        self.iter
    }

    /// The next key and an exclusive reference to its value, or `None` when
    /// the walk is over.
    ///
    /// What the entries still pending will hold in the end is the entry with
    /// the key handed out now and the value that will be written, followed by
    /// what the entries left will hold; and if every subtree still pending
    /// keeps its shape, so did every subtree that was pending before.
    pub fn next(&mut self) -> (r: Option<(&'a K, &'a mut V)>)
        ensures
            old(self).remaining().len() == 0 ==> r is None && final(self).remaining().len() == 0,
            old(self).remaining().len() > 0 ==> r is Some && *r.unwrap().0
                == old(self).remaining()[0].key && *r.unwrap().1 == old(self).remaining()[0].value
                && final(self).remaining() == old(self).remaining().drop_first(),
            final(self).walk().order() == old(self).walk().order(),
            r is None ==> final(self).walk().units().len() == 0,
            pending_items(
                Seq::new(
                    old(self).walk().units().len(),
                    |i: int|
                        match old(self).walk().units()[i] {
                            IterMutData::Value(v) => IterIntoData::Value(*final(v)),
                            IterMutData::Tree(t) => IterIntoData::Tree(*final(t)),
                        },
                ),
                old(self).walk().order(),
            ) == (match r {
                Some(kv) => seq![(BinTreeMapEntry { key: *kv.0, value: *final(kv.1) })],
                None => Seq::empty(),
            }) + pending_items(
                Seq::new(
                    final(self).walk().units().len(),
                    |i: int|
                        match final(self).walk().units()[i] {
                            IterMutData::Value(v) => IterIntoData::Value(*final(v)),
                            IterMutData::Tree(t) => IterIntoData::Tree(*final(t)),
                        },
                ),
                old(self).walk().order(),
            ),
            (forall|i: int|
                0 <= i < final(self).walk().units().len()
                    ==> (#[trigger] final(self).walk().units()[i] matches IterMutData::Tree(t)
                    ==> t.same_shape(*final(t))))
                ==> (forall|i: int|
                    0 <= i < old(self).walk().units().len()
                        ==> (#[trigger] old(self).walk().units()[i] matches IterMutData::Tree(t)
                        ==> t.same_shape(*final(t)))),
    {
        match self.iter.next() {
            Some(entry) => Some((&entry.key, &mut entry.value)),
            None => None,
        }
    }
}

/// A walk that hands out references to the keys.
pub struct BinTreeMapIterKeys<'a, K, V> where K: PartialOrd {
    iter: BinTreeIter<'a, BinTreeMapEntry<K, V>>,
}

impl<'a, K: PartialOrd, V> BinTreeMapIterKeys<'a, K, V> {
    /// The entries whose keys are still to come.
    pub closed spec fn remaining(self) -> Seq<BinTreeMapEntry<K, V>> {
        self.iter.remaining()
    }

    /// A reference to the next key, or `None` when the walk is over.
    pub fn next(&mut self) -> (r: Option<&'a K>)
        ensures
            old(self).remaining().len() == 0 ==> r is None && final(self).remaining().len() == 0,
            old(self).remaining().len() > 0 ==> r == Some(&old(self).remaining()[0].key)
                && final(self).remaining() == old(self).remaining().drop_first(),
    {
        match self.iter.next() {
            Some(entry) => Some(&entry.key),
            None => None,
        }
    }
}

/// A walk that hands out references to the values.
pub struct BinTreeMapIterValues<'a, K, V> where K: PartialOrd {
    iter: BinTreeIter<'a, BinTreeMapEntry<K, V>>,
}

impl<'a, K: PartialOrd, V> BinTreeMapIterValues<'a, K, V> {
    /// The entries whose values are still to come.
    pub closed spec fn remaining(self) -> Seq<BinTreeMapEntry<K, V>> {
        self.iter.remaining()
    }

    /// A reference to the next value, or `None` when the walk is over.
    pub fn next(&mut self) -> (r: Option<&'a V>)
        ensures
            old(self).remaining().len() == 0 ==> r is None && final(self).remaining().len() == 0,
            old(self).remaining().len() > 0 ==> r == Some(&old(self).remaining()[0].value)
                && final(self).remaining() == old(self).remaining().drop_first(),
    {
        match self.iter.next() {
            Some(entry) => Some(&entry.value),
            None => None,
        }
    }
}

impl<Key: PartialOrd, Value> BinTreeMap<Key, Value> {
    /// References to the keys and values, in ascending order of the keys.
    pub fn iter<'a>(&'a self) -> (it: BinTreeMapIter<'a, Key, Value>)
        ensures
            it.remaining() == self.entries(),
    {
        BinTreeMapIter { iter: self.inner().iter() }
    }

    /// References to the keys and exclusive references to the values, in
    /// ascending order of the keys.
    ///
    /// The walk holds the tree of entries as its one unit of pending work:
    /// what that unit will hold in the end is what the map's tree will hold
    /// once the walk is gone. The map stays well-formed if its tree keeps its
    /// shape and the order of its keys.
    pub fn iter_mut<'a>(&'a mut self) -> (it: BinTreeMapIterMut<'a, Key, Value>)
        ensures
            it.remaining() == old(self).entries(),
            it.walk().order() == BinTreeTraversal::DepthFirst(DepthFirstOrder::InOrder),
            it.walk().units().len() == 1,
            it.walk().units()[0] matches IterMutData::Tree(t) && *t == old(self).tree() && *final(t)
                == final(self).tree(),
            pending_items(
                Seq::new(
                    it.walk().units().len(),
                    |i: int|
                        match it.walk().units()[i] {
                            IterMutData::Value(v) => IterIntoData::Value(*final(v)),
                            IterMutData::Tree(t) => IterIntoData::Tree(*final(t)),
                        },
                ),
                BinTreeTraversal::DepthFirst(DepthFirstOrder::InOrder),
            ) == final(self).entries(),
            (forall|i: int|
                0 <= i < it.walk().units().len()
                    ==> (#[trigger] it.walk().units()[i] matches IterMutData::Tree(t)
                    ==> t.same_shape(*final(t))))
                ==> old(self).tree().same_shape(final(self).tree()),
            old(self).wf() && old(self).tree().same_shape(final(self).tree()) && (
            Key::obeys_partial_cmp_spec() && weak_order(natural_order::<Key>()) ==> sorted_by(
                final(self).entries(),
                entry_key(),
                natural_order(),
            )) ==> final(self).wf(),
    {
        BinTreeMapIterMut { iter: self.inner_mut().iter_mut() }
    }

    /// References to the keys, in ascending order.
    pub fn keys<'a>(&'a self) -> (it: BinTreeMapIterKeys<'a, Key, Value>)
        ensures
            it.remaining() == self.entries(),
    {
        BinTreeMapIterKeys { iter: self.inner().iter() }
    }

    /// References to the values, in ascending order of their keys.
    pub fn values<'a>(&'a self) -> (it: BinTreeMapIterValues<'a, Key, Value>)
        ensures
            it.remaining() == self.entries(),
    {
        BinTreeMapIterValues { iter: self.inner().iter() }
    }

    /// Consumes the map and hands out its keys with their values, in
    /// ascending order of the keys.
    pub fn into_iter(self) -> (it: BinTreeMapIntoIter<Key, Value>)
        ensures
            it.remaining() == self.entries(),
    {
        BinTreeMapIntoIter { iter: self.into_inner().into_iter() }
    }
}

} // verus!
