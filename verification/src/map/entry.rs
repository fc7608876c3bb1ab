//! The entries of the map: a key with its value, compared by the key alone.

use core::cmp::Ordering;
use vstd::prelude::*;
use vstd::std_specs::cmp::{PartialEqSpec, PartialEqSpecImpl, PartialOrdSpec, PartialOrdSpecImpl};

verus! {

/// A key together with the value stored under it.
#[derive(Debug, Default)]
pub struct BinTreeMapEntry<Key, Value> where Key: PartialOrd {
    pub key: Key,
    pub value: Value,
}

/// The key of an entry, as a mathematical function.
pub open spec fn entry_key<Key: PartialOrd, Value>() -> spec_fn(BinTreeMapEntry<Key, Value>) -> Key {
    |e: BinTreeMapEntry<Key, Value>| e.key
}

impl<Key: PartialOrd, Value> BinTreeMapEntry<Key, Value> {
    /// The key of the entry.
    pub fn key(&self) -> (k: &Key)
        ensures
            *k == self.key,
    {
        &self.key
    }
}

impl<Key: PartialOrd + Clone, Value: Clone> Clone for BinTreeMapEntry<Key, Value> {
    /// An entry with a clone of the key and a clone of the value.
    fn clone(&self) -> (copy: Self)
        ensures
            cloned(self.key, copy.key),
            cloned(self.value, copy.value),
    {
        BinTreeMapEntry { key: self.key.clone(), value: self.value.clone() }
    }
}

impl<Key: PartialOrd, Value> PartialEq for BinTreeMapEntry<Key, Value> {
    /// Two entries are equal when their keys are.
    fn eq(&self, other: &Self) -> (same: bool) {
        self.key == other.key
    }
}

impl<Key: PartialOrd, Value> PartialEqSpecImpl for BinTreeMapEntry<Key, Value> {
    open spec fn obeys_eq_spec() -> bool {
        Key::obeys_eq_spec()
    }

    open spec fn eq_spec(&self, other: &Self) -> bool {
        self.key.eq_spec(&other.key)
    }
}

impl<Key: PartialOrd, Value> PartialOrd for BinTreeMapEntry<Key, Value> {
    /// Two entries compare as their keys do.
    fn partial_cmp(&self, other: &Self) -> (answer: Option<Ordering>) {
        self.key.partial_cmp(&other.key)
    }
}

impl<Key: PartialOrd, Value> PartialOrdSpecImpl for BinTreeMapEntry<Key, Value> {
    open spec fn obeys_partial_cmp_spec() -> bool {
        Key::obeys_partial_cmp_spec()
    }

    open spec fn partial_cmp_spec(&self, other: &Self) -> Option<Ordering> {
        self.key.partial_cmp_spec(&other.key)
    }
}

} // verus!
