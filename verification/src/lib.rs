//! A generic ordered binary tree with optional AVL balancing.
//!
//! The tree itself, its height bookkeeping, the sorted insertion, removal and
//! lookup families and the four traversal orders live in [`bin_tree`]. An
//! ordered set and a key/value map are built on top of it.

use vstd::prelude::*;
use vstd::string::StringExecFns;

pub mod bin_tree;
pub mod map;
pub mod ordered_set;

pub use crate::bin_tree::{leaf, tree, BinTree, BinTreeNode};
pub use crate::map::entry::BinTreeMapEntry;
pub use crate::map::iter::{
    BinTreeMapIntoIter, BinTreeMapIter, BinTreeMapIterKeys, BinTreeMapIterMut,
    BinTreeMapIterValues,
};
pub use crate::map::BinTreeMap;
pub use crate::ordered_set::{BinTreeOrderedSet, OrderedSetBinTree};

verus! {

/// Why an exchange of two items could not be carried out.
#[derive(Debug, PartialEq, Eq, Clone, Copy, Structural)]
pub enum BinTreeError {
    /// Both lookups ended at the same slot.
    SwapSame,
    /// The first item was not found.
    SwapNotFound1,
    /// The second item was not found.
    SwapNotFound2,
}

impl BinTreeError {
    /// The name of the error, as text.
    pub open spec fn name(self) -> Seq<char> {
        match self {
            BinTreeError::SwapSame => "SwapSame"@,
            BinTreeError::SwapNotFound1 => "SwapNotFound1"@,
            BinTreeError::SwapNotFound2 => "SwapNotFound2"@,
        }
    }

    /// The name of the error, as text.
    pub fn to_string(&self) -> (text: String)
        ensures
            text@ == self.name(),
    {
        match self {
            BinTreeError::SwapSame => String::from_str("SwapSame"),
            BinTreeError::SwapNotFound1 => String::from_str("SwapNotFound1"),
            BinTreeError::SwapNotFound2 => String::from_str("SwapNotFound2"),
        }
    }
}

} // verus!
