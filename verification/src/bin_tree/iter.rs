//! Traversals over an explicit worklist: depth-first in three orders and
//! breadth-first, each by value, by reference and by exclusive reference.
//!
//! A worklist holds units that are either a value ready to be handed out or a
//! subtree still to be taken apart. The depth-first orders use it as a stack,
//! the breadth-first order as a queue.

use crate::bin_tree::BinTree;
use std::collections::VecDeque;
use vstd::prelude::*;

verus! {

/// The three depth-first orders.
#[derive(Debug, Clone, Copy, PartialEq, Eq, Structural)]
pub enum DepthFirstOrder {
    InOrder,
    PreOrder,
    PostOrder,
}

/// The four ways to walk a tree.
#[derive(Debug, Clone, Copy, PartialEq, Eq, Structural)]
pub enum BinTreeTraversal {
    DepthFirst(DepthFirstOrder),
    BreadthFirst,
}

/// A unit of pending work: a value to hand out or a subtree to take apart.
pub enum IterIntoData<Item> {
    Value(Item),
    Tree(BinTree<Item>),
}

/// The items of a tree in one of the depth-first orders.
pub open spec fn depth_first<T>(tree: BinTree<T>, order: DepthFirstOrder) -> Seq<T> {
    match order {
        DepthFirstOrder::InOrder => tree.inorder(),
        DepthFirstOrder::PreOrder => tree.preorder(),
        DepthFirstOrder::PostOrder => tree.postorder(),
    }
}

/// What one unit contributes under a depth-first order.
pub open spec fn unit_items<T>(unit: IterIntoData<T>, order: DepthFirstOrder) -> Seq<T> {
    match unit {
        IterIntoData::Value(v) => seq![v],
        IterIntoData::Tree(t) => depth_first(t, order),
    }
}

/// What a stack of units hands out, the last unit first.
pub open spec fn stack_items<T>(units: Seq<IterIntoData<T>>, order: DepthFirstOrder) -> Seq<T>
    decreases units.len(),
{
    if units.len() == 0 {
        Seq::empty()
    } else {
        unit_items(units.last(), order) + stack_items(units.drop_last(), order)
    }
}

/// A measure of the work left in one unit; taking a node apart lowers it.
pub open spec fn unit_weight<T>(unit: IterIntoData<T>) -> nat {
    match unit {
        IterIntoData::Value(_) => 1,
        IterIntoData::Tree(t) => 3 * t.size() + 1,
    }
}

/// The work left in a worklist.
pub open spec fn units_weight<T>(units: Seq<IterIntoData<T>>) -> nat
    decreases units.len(),
{
    if units.len() == 0 {
        0
    } else {
        units_weight(units.drop_last()) + unit_weight(units.last())
    }
}

/// The weight of two worklists joined is the sum of their weights.
pub proof fn lemma_weight_concat<T>(a: Seq<IterIntoData<T>>, b: Seq<IterIntoData<T>>)
    ensures
        units_weight(a + b) == units_weight(a) + units_weight(b),
    decreases b.len(),
{
    if b.len() == 0 {
        assert(a + b =~= a);
    } else {
        assert((a + b).drop_last() =~= a + b.drop_last());
        assert((a + b).last() == b.last());
        lemma_weight_concat(a, b.drop_last());
    }
}

/// The weight of a worklist of exactly one unit.
pub proof fn lemma_weight_one<T>(u: IterIntoData<T>)
    ensures
        units_weight(seq![u]) == unit_weight(u),
{
    assert(seq![u].drop_last() =~= Seq::<IterIntoData<T>>::empty());
    assert(units_weight(seq![u].drop_last()) == 0);
}

/// Taking the first unit off a worklist lowers its weight by that unit's.
pub proof fn lemma_weight_drop_first<T>(q: Seq<IterIntoData<T>>)
    requires
        q.len() > 0,
    ensures
        units_weight(q) == unit_weight(q[0]) + units_weight(q.drop_first()),
{
    assert(q =~= seq![q[0]] + q.drop_first());
    lemma_weight_concat(seq![q[0]], q.drop_first());
    lemma_weight_one(q[0]);
}

/// The weight of a worklist of three units.
pub proof fn lemma_weight_three<T>(a: IterIntoData<T>, b: IterIntoData<T>, c: IterIntoData<T>)
    ensures
        units_weight(seq![a, b, c]) == unit_weight(a) + unit_weight(b) + unit_weight(c),
{
    assert(seq![a, b, c] =~= seq![a] + seq![b] + seq![c]);
    lemma_weight_concat(seq![a] + seq![b], seq![c]);
    lemma_weight_concat(seq![a], seq![b]);
    lemma_weight_one(a);
    lemma_weight_one(b);
    lemma_weight_one(c);
}

/// What a queue of units hands out: the first unit is served first, and a node
/// taken apart sends its value and its two subtrees to the back of the queue.
pub open spec fn queue_items<T>(units: Seq<IterIntoData<T>>) -> Seq<T>
    decreases units_weight(units),
{
    if units.len() == 0 {
        Seq::empty()
    } else {
        proof {
            lemma_weight_drop_first(units);
        }
        match units[0] {
            IterIntoData::Value(v) => seq![v] + queue_items(units.drop_first()),
            IterIntoData::Tree(t) => match t.root {
                None => queue_items(units.drop_first()),
                Some(node) => {
                    proof {
                        let more = seq![
                            IterIntoData::Value(node.value),
                            IterIntoData::Tree(node.left),
                            IterIntoData::Tree(node.right),
                        ];
                        lemma_weight_concat(units.drop_first(), more);
                        lemma_weight_three(more[0], more[1], more[2]);
                        assert(more =~= seq![more[0], more[1], more[2]]);
                    }
                    queue_items(
                        units.drop_first() + seq![
                            IterIntoData::Value(node.value),
                            IterIntoData::Tree(node.left),
                            IterIntoData::Tree(node.right),
                        ],
                    )
                },
            },
        }
    }
}

/// What a worklist hands out under a traversal.
pub open spec fn pending_items<T>(units: Seq<IterIntoData<T>>, traversal: BinTreeTraversal) -> Seq<
    T,
> {
    match traversal {
        BinTreeTraversal::DepthFirst(order) => stack_items(units, order),
        BinTreeTraversal::BreadthFirst => queue_items(units),
    }
}

impl<T> BinTree<T> {
    /// The items level by level from the top, each level from left to right.
    pub open spec fn breadth_first(self) -> Seq<T> {
        queue_items(seq![IterIntoData::Tree(self)])
    }

    /// The items in the order of a traversal.
    pub open spec fn traversal_items(self, traversal: BinTreeTraversal) -> Seq<T> {
        match traversal {
            BinTreeTraversal::DepthFirst(order) => depth_first(self, order),
            BinTreeTraversal::BreadthFirst => self.breadth_first(),
        }
    }
}

/// A worklist holding one tree hands out that tree's items.
pub proof fn lemma_pending_single<T>(tree: BinTree<T>, traversal: BinTreeTraversal)
    ensures
        pending_items(seq![IterIntoData::Tree(tree)], traversal) == tree.traversal_items(traversal),
{
    let s = seq![IterIntoData::Tree(tree)];
    match traversal {
        BinTreeTraversal::DepthFirst(order) => {
            assert(s.drop_last() =~= Seq::<IterIntoData<T>>::empty());
            assert(stack_items(s.drop_last(), order) =~= Seq::<T>::empty());
            assert(stack_items(s, order) =~= depth_first(tree, order));
        },
        BinTreeTraversal::BreadthFirst => {},
    }
}

/// Pushing a unit on a stack puts its items in front.
pub proof fn lemma_stack_push<T>(units: Seq<IterIntoData<T>>, u: IterIntoData<T>, order: DepthFirstOrder)
    ensures
        stack_items(units.push(u), order) == unit_items(u, order) + stack_items(units, order),
        units_weight(units.push(u)) == units_weight(units) + unit_weight(u),
{
    assert(units.push(u).drop_last() =~= units);
    assert(units.push(u).last() == u);
}


/// Taking a node off the top of a stack and pushing its three parts, in the
/// sequence that the order asks for, hands out the same items with less work left.
pub proof fn lemma_stack_expand<T>(
    rest: Seq<IterIntoData<T>>,
    tree: BinTree<T>,
    order: DepthFirstOrder,
)
    requires
        tree.root is Some,
    ensures
        stack_items(expand_stack(rest, tree, order), order) == stack_items(
            rest.push(IterIntoData::Tree(tree)),
            order,
        ),
        units_weight(expand_stack(rest, tree, order)) < units_weight(
            rest.push(IterIntoData::Tree(tree)),
        ),
{
    let value = IterIntoData::Value(tree.top());
    let left = IterIntoData::Tree(tree.lhs());
    let right = IterIntoData::Tree(tree.rhs());
    lemma_stack_push(rest, IterIntoData::Tree(tree), order);
    match order {
        DepthFirstOrder::InOrder => {
            lemma_stack_push(rest, right, order);
            lemma_stack_push(rest.push(right), value, order);
            lemma_stack_push(rest.push(right).push(value), left, order);
            assert(tree.inorder() =~= tree.lhs().inorder() + seq![tree.top()]
                + tree.rhs().inorder());
            assert(stack_items(expand_stack(rest, tree, order), order) =~= tree.inorder()
                + stack_items(rest, order));
        },
        DepthFirstOrder::PreOrder => {
            lemma_stack_push(rest, right, order);
            lemma_stack_push(rest.push(right), left, order);
            lemma_stack_push(rest.push(right).push(left), value, order);
            assert(stack_items(expand_stack(rest, tree, order), order) =~= tree.preorder()
                + stack_items(rest, order));
        },
        DepthFirstOrder::PostOrder => {
            lemma_stack_push(rest, value, order);
            lemma_stack_push(rest.push(value), right, order);
            lemma_stack_push(rest.push(value).push(right), left, order);
            assert(tree.postorder() =~= tree.lhs().postorder() + tree.rhs().postorder()
                + seq![tree.top()]);
            assert(stack_items(expand_stack(rest, tree, order), order) =~= tree.postorder()
                + stack_items(rest, order));
        },
    }
}

/// The stack after the node on top of it has been taken apart.
pub open spec fn expand_stack<T>(
    rest: Seq<IterIntoData<T>>,
    tree: BinTree<T>,
    order: DepthFirstOrder,
) -> Seq<IterIntoData<T>>
    recommends
        tree.root is Some,
{
    let value = IterIntoData::Value(tree.top());
    let left = IterIntoData::Tree(tree.lhs());
    let right = IterIntoData::Tree(tree.rhs());
    match order {
        DepthFirstOrder::InOrder => rest.push(right).push(value).push(left),
        DepthFirstOrder::PreOrder => rest.push(right).push(left).push(value),
        DepthFirstOrder::PostOrder => rest.push(value).push(right).push(left),
    }
}

/// The queue after the node at its front has been taken apart.
pub open spec fn expand_queue<T>(rest: Seq<IterIntoData<T>>, tree: BinTree<T>) -> Seq<
    IterIntoData<T>,
>
    recommends
        tree.root is Some,
{
    rest.push(IterIntoData::Value(tree.top())).push(IterIntoData::Tree(tree.lhs())).push(
        IterIntoData::Tree(tree.rhs()),
    )
}

/// Taking a node off the front of a queue and sending its three parts to the
/// back hands out the same items with less work left.
pub proof fn lemma_queue_expand<T>(units: Seq<IterIntoData<T>>, tree: BinTree<T>)
    requires
        units.len() > 0,
        units[0] == IterIntoData::Tree(tree),
        tree.root is Some,
    ensures
        queue_items(expand_queue(units.drop_first(), tree)) == queue_items(units),
        units_weight(expand_queue(units.drop_first(), tree)) < units_weight(units),
{
    let more = seq![
        IterIntoData::Value(tree.top()),
        IterIntoData::Tree(tree.lhs()),
        IterIntoData::Tree(tree.rhs()),
    ];
    assert(expand_queue(units.drop_first(), tree) =~= units.drop_first() + more);
    lemma_weight_drop_first(units);
    lemma_weight_concat(units.drop_first(), more);
    lemma_weight_three(more[0], more[1], more[2]);
    assert(more =~= seq![more[0], more[1], more[2]]);
}

/// A traversal that owns the tree and hands out its items by value.
pub struct BinTreeIntoIter<T> {
    data: VecDeque<IterIntoData<T>>,
    traversal: BinTreeTraversal,
}

impl<T> BinTreeIntoIter<T> {
    /// The items that are still to come, in the order in which they will come.
    pub closed spec fn remaining(self) -> Seq<T> {
        pending_items(self.data@, self.traversal)
    }

    /// The work left, which every call of `next` lowers.
    pub closed spec fn weight(self) -> nat {
        units_weight(self.data@)
    }

    /// Hands out the next item, or `None` when the traversal is over.
    pub fn next(&mut self) -> (r: Option<T>)
        ensures
            old(self).remaining().len() == 0 ==> r is None && final(self).remaining().len() == 0,
            old(self).remaining().len() > 0 ==> r == Some(old(self).remaining()[0])
                && final(self).remaining() == old(self).remaining().drop_first(),
        decreases old(self).weight(),
    {
        let ghost before = self.data@;
        match self.traversal {
            BinTreeTraversal::DepthFirst(order) => {
                match self.data.pop_back() {
                    None => None,
                    Some(IterIntoData::Value(item)) => {
                        proof {
                            assert(self.data@ == before.drop_last());
                            assert(stack_items(before, order) =~= seq![item] + stack_items(
                                self.data@,
                                order,
                            ));
                            assert(old(self).remaining().drop_first() =~= self.remaining());
                        }
                        Some(item)
                    },
                    Some(IterIntoData::Tree(tree)) => {
                        let ghost rest = self.data@;
                        proof {
                            assert(rest == before.drop_last());
                            assert(before =~= rest.push(IterIntoData::Tree(tree)));
                        }
                        match tree.into_node() {
                            None => {
                                proof {
                                    lemma_stack_push(rest, IterIntoData::Tree(tree), order);
                                    assert(depth_first(tree, order) =~= Seq::<T>::empty());
                                    assert(stack_items(before, order) =~= stack_items(rest, order));
                                }
                                self.next()
                            },
                            Some((value, left, right)) => {
                                match order {
                                    DepthFirstOrder::InOrder => {
                                        self.data.push_back(IterIntoData::Tree(right));
                                        self.data.push_back(IterIntoData::Value(value));
                                        self.data.push_back(IterIntoData::Tree(left));
                                    },
                                    DepthFirstOrder::PreOrder => {
                                        self.data.push_back(IterIntoData::Tree(right));
                                        self.data.push_back(IterIntoData::Tree(left));
                                        self.data.push_back(IterIntoData::Value(value));
                                    },
                                    DepthFirstOrder::PostOrder => {
                                        self.data.push_back(IterIntoData::Value(value));
                                        self.data.push_back(IterIntoData::Tree(right));
                                        self.data.push_back(IterIntoData::Tree(left));
                                    },
                                }
                                proof {
                                    assert(self.data@ == expand_stack(rest, tree, order));
                                    lemma_stack_expand(rest, tree, order);
                                }
                                self.next()
                            },
                        }
                    },
                }
            },
            BinTreeTraversal::BreadthFirst => {
                match self.data.pop_front() {
                    None => None,
                    Some(IterIntoData::Value(item)) => {
                        proof {
                            assert(self.data@ == before.drop_first());
                            assert(old(self).remaining().drop_first() =~= self.remaining());
                        }
                        Some(item)
                    },
                    Some(IterIntoData::Tree(tree)) => {
                        let ghost rest = self.data@;
                        proof {
                            assert(rest == before.drop_first());
                            lemma_weight_drop_first(before);
                        }
                        match tree.into_node() {
                            None => self.next(),
                            Some((value, left, right)) => {
                                self.data.push_back(IterIntoData::Value(value));
                                self.data.push_back(IterIntoData::Tree(left));
                                self.data.push_back(IterIntoData::Tree(right));
                                proof {
                                    assert(self.data@ == expand_queue(rest, tree));
                                    lemma_queue_expand(before, tree);
                                }
                                self.next()
                            },
                        }
                    },
                }
            },
        }
    }
}

impl<T> BinTree<T> {
    /// Starts a traversal that consumes the tree.
    pub fn into_iter_traversal(self, traversal: BinTreeTraversal) -> (it: BinTreeIntoIter<T>)
        ensures
            it.remaining() == self.traversal_items(traversal),
    {
        let mut data = VecDeque::new();
        proof {
            lemma_pending_single(self, traversal);
        }
        data.push_back(IterIntoData::Tree(self));
        assert(data@ =~= seq![IterIntoData::Tree(self)]);
        BinTreeIntoIter { data, traversal }
    }

    /// Consumes the tree and hands out its items from left to right.
    pub fn into_iter(self) -> (it: BinTreeIntoIter<T>)
        ensures
            it.remaining() == self.inorder(),
    {
        self.into_iter_dfs_in()
    }

    /// Consumes the tree; depth-first, each value between its subtrees.
    pub fn into_iter_dfs_in(self) -> (it: BinTreeIntoIter<T>)
        ensures
            it.remaining() == self.inorder(),
    {
        self.into_iter_traversal(BinTreeTraversal::DepthFirst(DepthFirstOrder::InOrder))
    }

    /// Consumes the tree; depth-first, each value before its subtrees.
    pub fn into_iter_dfs_pre(self) -> (it: BinTreeIntoIter<T>)
        ensures
            it.remaining() == self.preorder(),
    {
        self.into_iter_traversal(BinTreeTraversal::DepthFirst(DepthFirstOrder::PreOrder))
    }

    /// Consumes the tree; depth-first, each value after its subtrees.
    pub fn into_iter_dfs_post(self) -> (it: BinTreeIntoIter<T>)
        ensures
            it.remaining() == self.postorder(),
    {
        self.into_iter_traversal(BinTreeTraversal::DepthFirst(DepthFirstOrder::PostOrder))
    }

    /// Consumes the tree; breadth-first.
    pub fn into_iter_bfs(self) -> (it: BinTreeIntoIter<T>)
        ensures
            it.remaining() == self.breadth_first(),
    {
        self.into_iter_traversal(BinTreeTraversal::BreadthFirst)
    }
}


/// A unit of pending work that borrows from the tree.
pub enum IterData<'a, Item> {
    Value(&'a Item),
    Tree(&'a BinTree<Item>),
}

/// The unit as plain values, as it stands now.
pub open spec fn ref_unit<'a, T>(unit: IterData<'a, T>) -> IterIntoData<T> {
    match unit {
        IterData::Value(v) => IterIntoData::Value(*v),
        IterData::Tree(t) => IterIntoData::Tree(*t),
    }
}

/// The worklist as plain values, as it stands now.
pub open spec fn ref_units<'a, T>(units: Seq<IterData<'a, T>>) -> Seq<IterIntoData<T>> {
    Seq::new(units.len(), |i: int| ref_unit(units[i]))
}

/// A traversal that borrows the tree and hands out references to its items.
pub struct BinTreeIter<'a, T> {
    data: VecDeque<IterData<'a, T>>,
    traversal: BinTreeTraversal,
}

impl<'a, T> BinTreeIter<'a, T> {
    /// The items that are still to come, in the order in which they will come.
    pub closed spec fn remaining(self) -> Seq<T> {
        pending_items(ref_units(self.data@), self.traversal)
    }

    /// The work left, which every call of `next` lowers.
    pub closed spec fn weight(self) -> nat {
        units_weight(ref_units(self.data@))
    }

    /// Hands out a reference to the next item, or `None` when the traversal is over.
    pub fn next(&mut self) -> (r: Option<&'a T>)
        ensures
            old(self).remaining().len() == 0 ==> r is None && final(self).remaining().len() == 0,
            old(self).remaining().len() > 0 ==> r is Some && *r.unwrap() == old(self).remaining()[0]
                && final(self).remaining() == old(self).remaining().drop_first(),
        decreases old(self).weight(),
    {
        let ghost before = ref_units(self.data@);
        match self.traversal {
            BinTreeTraversal::DepthFirst(order) => {
                match self.data.pop_back() {
                    None => None,
                    Some(IterData::Value(item)) => {
                        proof {
                            assert(ref_units(self.data@) =~= before.drop_last());
                            assert(before.last() == IterIntoData::Value(*item));
                            assert(stack_items(before, order) =~= seq![*item] + stack_items(
                                ref_units(self.data@),
                                order,
                            ));
                            assert(old(self).remaining().drop_first() =~= self.remaining());
                        }
                        Some(item)
                    },
                    Some(IterData::Tree(tree)) => {
                        let ghost rest = ref_units(self.data@);
                        let ghost whole = *tree;
                        proof {
                            assert(rest =~= before.drop_last());
                            assert(before.last() == IterIntoData::Tree(whole));
                            assert(before =~= rest.push(IterIntoData::Tree(whole)));
                        }
                        match tree.node() {
                            None => {
                                proof {
                                    lemma_stack_push(rest, IterIntoData::Tree(whole), order);
                                    assert(depth_first(whole, order) =~= Seq::<T>::empty());
                                    assert(stack_items(before, order) =~= stack_items(rest, order));
                                }
                                self.next()
                            },
                            Some((value, left, right)) => {
                                match order {
                                    DepthFirstOrder::InOrder => {
                                        self.data.push_back(IterData::Tree(right));
                                        self.data.push_back(IterData::Value(value));
                                        self.data.push_back(IterData::Tree(left));
                                    },
                                    DepthFirstOrder::PreOrder => {
                                        self.data.push_back(IterData::Tree(right));
                                        self.data.push_back(IterData::Tree(left));
                                        self.data.push_back(IterData::Value(value));
                                    },
                                    DepthFirstOrder::PostOrder => {
                                        self.data.push_back(IterData::Value(value));
                                        self.data.push_back(IterData::Tree(right));
                                        self.data.push_back(IterData::Tree(left));
                                    },
                                }
                                proof {
                                    assert(ref_units(self.data@) =~= expand_stack(rest, whole, order));
                                    lemma_stack_expand(rest, whole, order);
                                }
                                self.next()
                            },
                        }
                    },
                }
            },
            BinTreeTraversal::BreadthFirst => {
                match self.data.pop_front() {
                    None => None,
                    Some(IterData::Value(item)) => {
                        proof {
                            assert(ref_units(self.data@) =~= before.drop_first());
                            assert(before[0] == IterIntoData::Value(*item));
                            assert(old(self).remaining().drop_first() =~= self.remaining());
                        }
                        Some(item)
                    },
                    Some(IterData::Tree(tree)) => {
                        let ghost rest = ref_units(self.data@);
                        let ghost whole = *tree;
                        proof {
                            assert(rest =~= before.drop_first());
                            assert(before[0] == IterIntoData::Tree(whole));
                            lemma_weight_drop_first(before);
                        }
                        match tree.node() {
                            None => self.next(),
                            Some((value, left, right)) => {
                                self.data.push_back(IterData::Value(value));
                                self.data.push_back(IterData::Tree(left));
                                self.data.push_back(IterData::Tree(right));
                                proof {
                                    assert(ref_units(self.data@) =~= expand_queue(rest, whole));
                                    lemma_queue_expand(before, whole);
                                }
                                self.next()
                            },
                        }
                    },
                }
            },
        }
    }
}

impl<T> BinTree<T> {
    /// Starts a traversal that borrows the tree.
    pub fn iter_traversal<'a>(&'a self, traversal: BinTreeTraversal) -> (it: BinTreeIter<'a, T>)
        ensures
            it.remaining() == self.traversal_items(traversal),
    {
        let mut data = VecDeque::new();
        proof {
            lemma_pending_single(*self, traversal);
        }
        data.push_back(IterData::Tree(self));
        assert(ref_units(data@) =~= seq![IterIntoData::Tree(*self)]);
        BinTreeIter { data, traversal }
    }

    /// References to the items from left to right.
    pub fn iter<'a>(&'a self) -> (it: BinTreeIter<'a, T>)
        ensures
            it.remaining() == self.inorder(),
    {
        self.iter_dfs_in()
    }

    /// Depth-first, each value between its subtrees.
    pub fn iter_dfs_in<'a>(&'a self) -> (it: BinTreeIter<'a, T>)
        ensures
            it.remaining() == self.inorder(),
    {
        self.iter_traversal(BinTreeTraversal::DepthFirst(DepthFirstOrder::InOrder))
    }

    /// Depth-first, each value before its subtrees.
    pub fn iter_dfs_pre<'a>(&'a self) -> (it: BinTreeIter<'a, T>)
        ensures
            it.remaining() == self.preorder(),
    {
        self.iter_traversal(BinTreeTraversal::DepthFirst(DepthFirstOrder::PreOrder))
    }

    /// Depth-first, each value after its subtrees.
    pub fn iter_dfs_post<'a>(&'a self) -> (it: BinTreeIter<'a, T>)
        ensures
            it.remaining() == self.postorder(),
    {
        self.iter_traversal(BinTreeTraversal::DepthFirst(DepthFirstOrder::PostOrder))
    }

    /// Breadth-first.
    pub fn iter_bfs<'a>(&'a self) -> (it: BinTreeIter<'a, T>)
        ensures
            it.remaining() == self.breadth_first(),
    {
        self.iter_traversal(BinTreeTraversal::BreadthFirst)
    }
}

/// A unit of pending work that borrows from the tree exclusively.
pub enum IterMutData<'a, Item> {
    Value(&'a mut Item),
    Tree(&'a mut BinTree<Item>),
}

/// The unit as plain values, as it stands now.
pub open spec fn mut_unit<'a, T>(unit: IterMutData<'a, T>) -> IterIntoData<T> {
    match unit {
        IterMutData::Value(v) => IterIntoData::Value(*v),
        IterMutData::Tree(t) => IterIntoData::Tree(*t),
    }
}

/// The worklist as plain values, as it stands now.
pub open spec fn mut_units<'a, T>(units: Seq<IterMutData<'a, T>>) -> Seq<IterIntoData<T>> {
    Seq::new(units.len(), |i: int| mut_unit(units[i]))
}

/// A traversal that borrows the tree exclusively and hands out exclusive
/// references to its items, so that they can be changed in place.
pub struct BinTreeIterMut<'a, T> {
    data: VecDeque<IterMutData<'a, T>>,
    traversal: BinTreeTraversal,
}

impl<'a, T> BinTreeIterMut<'a, T> {
    /// The units of pending work, each with the reference that it holds.
    pub closed spec fn units(self) -> Seq<IterMutData<'a, T>> {
        self.data@
    }

    /// The traversal that the iterator follows.
    pub closed spec fn order(self) -> BinTreeTraversal {
        self.traversal
    }

    /// The items that are still to come, in the order in which they will come.
    pub closed spec fn remaining(self) -> Seq<T> {
        pending_items(mut_units(self.data@), self.traversal)
    }

    /// The work left, which every call of `next` lowers.
    pub closed spec fn weight(self) -> nat {
        units_weight(mut_units(self.data@))
    }

    /// Hands out an exclusive reference to the next item, or `None` when the
    /// traversal is over.
    ///
    /// The items still to come are as they are now: what is written through a
    /// reference handed out before does not reorder them. What the borrowed
    /// tree will hold is stated through the units of pending work: what they
    /// will hold in the end, read in the order of the traversal, is what will
    /// be written through the reference handed out now, followed by what the
    /// units left will hold in the end; and if every subtree still pending
    /// keeps its shape, so did every subtree that was pending before.
    pub fn next(&mut self) -> (r: Option<&'a mut T>)
        ensures
            old(self).remaining().len() == 0 ==> r is None && final(self).remaining().len() == 0,
            old(self).remaining().len() > 0 ==> r is Some && *r.unwrap() == old(self).remaining()[0]
                && final(self).remaining() == old(self).remaining().drop_first(),
            final(self).order() == old(self).order(),
            r is None ==> final(self).units().len() == 0,
            pending_items(
                Seq::new(
                    old(self).units().len(),
                    |i: int|
                        match old(self).units()[i] {
                            IterMutData::Value(v) => IterIntoData::Value(*final(v)),
                            IterMutData::Tree(t) => IterIntoData::Tree(*final(t)),
                        },
                ),
                old(self).order(),
            ) == (match r {
                Some(x) => seq![*final(x)],
                None => Seq::empty(),
            }) + pending_items(
                Seq::new(
                    final(self).units().len(),
                    |i: int|
                        match final(self).units()[i] {
                            IterMutData::Value(v) => IterIntoData::Value(*final(v)),
                            IterMutData::Tree(t) => IterIntoData::Tree(*final(t)),
                        },
                ),
                old(self).order(),
            ),
            (forall|i: int|
                0 <= i < final(self).units().len()
                    ==> (#[trigger] final(self).units()[i] matches IterMutData::Tree(t)
                    ==> t.same_shape(*final(t))))
                ==> (forall|i: int|
                    0 <= i < old(self).units().len()
                        ==> (#[trigger] old(self).units()[i] matches IterMutData::Tree(t)
                        ==> t.same_shape(*final(t)))),
        decreases old(self).weight(),
    {
        let ghost before = mut_units(self.data@);
        let ghost units0 = self.data@;
        let ghost fin0 = Seq::new(
            units0.len(),
            |i: int|
                match units0[i] {
                    IterMutData::Value(v) => IterIntoData::Value(*final(v)),
                    IterMutData::Tree(t) => IterIntoData::Tree(*final(t)),
                },
        );
        match self.traversal {
            BinTreeTraversal::DepthFirst(order) => {
                match self.data.pop_back() {
                    None => None,
                    Some(IterMutData::Value(item)) => {
                        proof {
                            assert(mut_units(self.data@) =~= before.drop_last());
                            assert(before.last() == IterIntoData::Value(*item));
                            assert(stack_items(before, order) =~= seq![*item] + stack_items(
                                mut_units(self.data@),
                                order,
                            ));
                            assert(old(self).remaining().drop_first() =~= self.remaining());
                            let fin1 = Seq::new(
                                self.data@.len(),
                                |i: int|
                                    match self.data@[i] {
                                        IterMutData::Value(v) => IterIntoData::Value(*final(v)),
                                        IterMutData::Tree(t) => IterIntoData::Tree(*final(t)),
                                    },
                            );
                            assert(fin0.drop_last() =~= fin1);
                            assert(fin0.last() == IterIntoData::Value(*final(item)));
                            assert(stack_items(fin0, order) =~= seq![*final(item)] + stack_items(
                                fin1,
                                order,
                            ));
                            assert forall|i: int| (forall|i: int|
                                0 <= i < self.data@.len()
                                    ==> (#[trigger] self.data@[i] matches IterMutData::Tree(t)
                                    ==> t.same_shape(*final(t)))) && 0 <= i < units0.len() implies (
                            #[trigger] units0[i] matches IterMutData::Tree(t)
                                ==> t.same_shape(*final(t))) by {
                                if i < self.data@.len() {
                                    assert(units0[i] == self.data@[i]);
                                }
                            }
                        }
                        Some(item)
                    },
                    Some(IterMutData::Tree(tree)) => {
                        let ghost rest = mut_units(self.data@);
                        let ghost units_rest = self.data@;
                        let ghost fin_rest = Seq::new(
                            units_rest.len(),
                            |i: int|
                                match units_rest[i] {
                                    IterMutData::Value(v) => IterIntoData::Value(*final(v)),
                                    IterMutData::Tree(t) => IterIntoData::Tree(*final(t)),
                                },
                        );
                        let ghost whole = *tree;
                        let ghost then = *final(tree);
                        proof {
                            assert(rest =~= before.drop_last());
                            assert(before.last() == IterIntoData::Tree(whole));
                            assert(before =~= rest.push(IterIntoData::Tree(whole)));
                            assert(fin0 =~= fin_rest.push(IterIntoData::Tree(then)));
                            lemma_stack_push(fin_rest, IterIntoData::Tree(then), order);
                            whole.lemma_same_shape_self();
                        }
                        match tree.node_mut() {
                            None => {
                                proof {
                                    lemma_stack_push(rest, IterIntoData::Tree(whole), order);
                                    assert(depth_first(whole, order) =~= Seq::<T>::empty());
                                    assert(stack_items(before, order) =~= stack_items(rest, order));
                                    assert(then == whole);
                                    assert(stack_items(fin0, order) =~= stack_items(fin_rest, order));
                                }
                                let r = self.next();
                                proof {
assert forall|i: int| (forall|i: int|
                                    0 <= i < self.data@.len()
                                        ==> (#[trigger] self.data@[i] matches IterMutData::Tree(t)
                                        ==> t.same_shape(*final(t)))) && 0 <= i < units0.len() implies (
                                    #[trigger] units0[i] matches IterMutData::Tree(t)
                                        ==> t.same_shape(*final(t))) by {
                                                                                if i < units_rest.len() {
                                            assert(units0[i] == units_rest[i]);
                                        }
                                    }
                                }
                                r
                            },
                            Some((value, left, right)) => {
                                let ghost left_then = *final(left);
                                let ghost right_then = *final(right);
                                let ghost value_then = *final(value);
                                let ghost left_now = *left;
                                let ghost right_now = *right;
                                match order {
                                    DepthFirstOrder::InOrder => {
                                        self.data.push_back(IterMutData::Tree(right));
                                        self.data.push_back(IterMutData::Value(value));
                                        self.data.push_back(IterMutData::Tree(left));
                                    },
                                    DepthFirstOrder::PreOrder => {
                                        self.data.push_back(IterMutData::Tree(right));
                                        self.data.push_back(IterMutData::Tree(left));
                                        self.data.push_back(IterMutData::Value(value));
                                    },
                                    DepthFirstOrder::PostOrder => {
                                        self.data.push_back(IterMutData::Value(value));
                                        self.data.push_back(IterMutData::Tree(right));
                                        self.data.push_back(IterMutData::Tree(left));
                                    },
                                }
                                let ghost units1 = self.data@;
                                proof {
                                    assert(mut_units(self.data@) =~= expand_stack(rest, whole, order));
                                    lemma_stack_expand(rest, whole, order);
                                    let fin1 = Seq::new(
                                        units1.len(),
                                        |i: int|
                                            match units1[i] {
                                                IterMutData::Value(v) => IterIntoData::Value(*final(v)),
                                                IterMutData::Tree(t) => IterIntoData::Tree(*final(t)),
                                            },
                                    );
                                    assert(then.root is Some);
                                    assert(then.top() == value_then);
                                    assert(then.lhs() == left_then);
                                    assert(then.rhs() == right_then);
                                    assert(fin1 =~= expand_stack(fin_rest, then, order));
                                    lemma_stack_expand(fin_rest, then, order);
                                }
                                let r = self.next();
                                proof {
assert forall|i: int| (forall|i: int|
                                    0 <= i < self.data@.len()
                                        ==> (#[trigger] self.data@[i] matches IterMutData::Tree(t)
                                        ==> t.same_shape(*final(t)))) && 0 <= i < units0.len() implies (
                                    #[trigger] units0[i] matches IterMutData::Tree(t)
                                        ==> t.same_shape(*final(t))) by {
                                    let n = units_rest.len() as int;
                                    assert(units1[n] matches IterMutData::Tree(t)
                                        ==> t.same_shape(*final(t)));
                                    assert(units1[n + 1] matches IterMutData::Tree(t)
                                        ==> t.same_shape(*final(t)));
                                    assert(units1[n + 2] matches IterMutData::Tree(t)
                                        ==> t.same_shape(*final(t)));
                                    assert(left_now.same_shape(left_then));
                                    assert(right_now.same_shape(right_then));
                                    assert(whole.same_shape(then));
                                                                                if i < units_rest.len() {
                                            assert(units0[i] == units_rest[i]);
                                            assert(units1[i] == units_rest[i]);
                                        }
                                    }
                                }
                                r
                            },
                        }
                    },
                }
            },
            BinTreeTraversal::BreadthFirst => {
                match self.data.pop_front() {
                    None => None,
                    Some(IterMutData::Value(item)) => {
                        proof {
                            assert(mut_units(self.data@) =~= before.drop_first());
                            assert(before[0] == IterIntoData::Value(*item));
                            assert(old(self).remaining().drop_first() =~= self.remaining());
                            let fin1 = Seq::new(
                                self.data@.len(),
                                |i: int|
                                    match self.data@[i] {
                                        IterMutData::Value(v) => IterIntoData::Value(*final(v)),
                                        IterMutData::Tree(t) => IterIntoData::Tree(*final(t)),
                                    },
                            );
                            assert(fin0.drop_first() =~= fin1);
                            assert(fin0[0] == IterIntoData::Value(*final(item)));
                            assert forall|i: int| (forall|i: int|
                                0 <= i < self.data@.len()
                                    ==> (#[trigger] self.data@[i] matches IterMutData::Tree(t)
                                    ==> t.same_shape(*final(t)))) && 0 <= i < units0.len() implies (
                            #[trigger] units0[i] matches IterMutData::Tree(t)
                                ==> t.same_shape(*final(t))) by {
                                if i > 0 {
                                    assert(units0[i] == self.data@[i - 1]);
                                }
                            }
                        }
                        Some(item)
                    },
                    Some(IterMutData::Tree(tree)) => {
                        let ghost rest = mut_units(self.data@);
                        let ghost units_rest = self.data@;
                        let ghost fin_rest = Seq::new(
                            units_rest.len(),
                            |i: int|
                                match units_rest[i] {
                                    IterMutData::Value(v) => IterIntoData::Value(*final(v)),
                                    IterMutData::Tree(t) => IterIntoData::Tree(*final(t)),
                                },
                        );
                        let ghost whole = *tree;
                        let ghost then = *final(tree);
                        proof {
                            assert(rest =~= before.drop_first());
                            assert(before[0] == IterIntoData::Tree(whole));
                            lemma_weight_drop_first(before);
                            assert(fin0.drop_first() =~= fin_rest);
                            assert(fin0[0] == IterIntoData::Tree(then));
                            whole.lemma_same_shape_self();
                        }
                        match tree.node_mut() {
                            None => {
                                proof {
                                    assert(then == whole);
                                }
                                let r = self.next();
                                proof {
assert forall|i: int| (forall|i: int|
                                    0 <= i < self.data@.len()
                                        ==> (#[trigger] self.data@[i] matches IterMutData::Tree(t)
                                        ==> t.same_shape(*final(t)))) && 0 <= i < units0.len() implies (
                                    #[trigger] units0[i] matches IterMutData::Tree(t)
                                        ==> t.same_shape(*final(t))) by {
                                                                                if i > 0 {
                                            assert(units0[i] == units_rest[i - 1]);
                                        }
                                    }
                                }
                                r
                            },
                            Some((value, left, right)) => {
                                let ghost left_then = *final(left);
                                let ghost right_then = *final(right);
                                let ghost value_then = *final(value);
                                let ghost left_now = *left;
                                let ghost right_now = *right;
                                self.data.push_back(IterMutData::Value(value));
                                self.data.push_back(IterMutData::Tree(left));
                                self.data.push_back(IterMutData::Tree(right));
                                let ghost units1 = self.data@;
                                proof {
                                    assert(mut_units(self.data@) =~= expand_queue(rest, whole));
                                    lemma_queue_expand(before, whole);
                                    let fin1 = Seq::new(
                                        units1.len(),
                                        |i: int|
                                            match units1[i] {
                                                IterMutData::Value(v) => IterIntoData::Value(*final(v)),
                                                IterMutData::Tree(t) => IterIntoData::Tree(*final(t)),
                                            },
                                    );
                                    assert(then.root is Some);
                                    assert(then.top() == value_then);
                                    assert(then.lhs() == left_then);
                                    assert(then.rhs() == right_then);
                                    assert(fin1 =~= expand_queue(fin0.drop_first(), then));
                                    lemma_queue_expand(fin0, then);
                                }
                                let r = self.next();
                                proof {
assert forall|i: int| (forall|i: int|
                                    0 <= i < self.data@.len()
                                        ==> (#[trigger] self.data@[i] matches IterMutData::Tree(t)
                                        ==> t.same_shape(*final(t)))) && 0 <= i < units0.len() implies (
                                    #[trigger] units0[i] matches IterMutData::Tree(t)
                                        ==> t.same_shape(*final(t))) by {
                                    let n = units_rest.len() as int;
                                    assert(units1[n + 1] matches IterMutData::Tree(t)
                                        ==> t.same_shape(*final(t)));
                                    assert(units1[n + 2] matches IterMutData::Tree(t)
                                        ==> t.same_shape(*final(t)));
                                    assert(left_now.same_shape(left_then));
                                    assert(right_now.same_shape(right_then));
                                    assert(whole.same_shape(then));
                                                                                if i > 0 {
                                            assert(units0[i] == units_rest[i - 1]);
                                            assert(units1[i - 1] == units_rest[i - 1]);
                                        }
                                    }
                                }
                                r
                            },
                        }
                    },
                }
            },
        }
    }
}

impl<T> BinTree<T> {
    /// Starts a traversal that borrows the tree exclusively.
    ///
    /// The iterator holds the tree as its one unit of pending work: what that
    /// unit will hold in the end is what the tree will hold once the iterator
    /// is gone. Together with what `next` states, this says that the tree
    /// will hold, in the order of the traversal, what was written through the
    /// references handed out, and that it keeps its shape.
    pub fn iter_mut_traversal<'a>(&'a mut self, traversal: BinTreeTraversal) -> (it: BinTreeIterMut<
        'a,
        T,
    >)
        ensures
            it.remaining() == old(self).traversal_items(traversal),
            it.order() == traversal,
            it.units().len() == 1,
            it.units()[0] matches IterMutData::Tree(t) && *t == *old(self) && *final(t)
                == *final(self),
            pending_items(
                Seq::new(
                    it.units().len(),
                    |i: int|
                        match it.units()[i] {
                            IterMutData::Value(v) => IterIntoData::Value(*final(v)),
                            IterMutData::Tree(t) => IterIntoData::Tree(*final(t)),
                        },
                ),
                traversal,
            ) == final(self).traversal_items(traversal),
            (forall|i: int|
                0 <= i < it.units().len() ==> (#[trigger] it.units()[i] matches IterMutData::Tree(t)
                    ==> t.same_shape(*final(t))))
                ==> old(self).same_shape(*final(self)),
    {
        let mut data = VecDeque::new();
        proof {
            lemma_pending_single(*self, traversal);
        }
        let ghost whole = *self;
        let ghost then = *final(self);
        proof {
            lemma_pending_single(then, traversal);
        }
        data.push_back(IterMutData::Tree(self));
        assert(mut_units(data@) =~= seq![IterIntoData::Tree(whole)]);
        assert(Seq::new(
            data@.len(),
            |i: int|
                match data@[i] {
                    IterMutData::Value(v) => IterIntoData::Value(*final(v)),
                    IterMutData::Tree(t) => IterIntoData::Tree(*final(t)),
                },
        ) =~= seq![IterIntoData::Tree(then)]);
        BinTreeIterMut { data, traversal }
    }

    /// Exclusive references to the items from left to right.
    /// What the tree will hold afterwards is stated as for
    /// [`BinTree::iter_mut_traversal`].
    pub fn iter_mut<'a>(&'a mut self) -> (it: BinTreeIterMut<'a, T>)
        ensures
            it.remaining() == old(self).inorder(),
            it.order() == BinTreeTraversal::DepthFirst(DepthFirstOrder::InOrder),
            it.units().len() == 1,
            it.units()[0] matches IterMutData::Tree(t) && *t == *old(self) && *final(t)
                == *final(self),
            pending_items(
                Seq::new(
                    it.units().len(),
                    |i: int|
                        match it.units()[i] {
                            IterMutData::Value(v) => IterIntoData::Value(*final(v)),
                            IterMutData::Tree(t) => IterIntoData::Tree(*final(t)),
                        },
                ),
                BinTreeTraversal::DepthFirst(DepthFirstOrder::InOrder),
            ) == final(self).inorder(),
            (forall|i: int|
                0 <= i < it.units().len() ==> (#[trigger] it.units()[i] matches IterMutData::Tree(t)
                    ==> t.same_shape(*final(t))))
                ==> old(self).same_shape(*final(self)),
    {
        self.iter_mut_dfs_in()
    }

    /// Depth-first, each value between its subtrees.
    /// What the tree will hold afterwards is stated as for
    /// [`BinTree::iter_mut_traversal`].
    pub fn iter_mut_dfs_in<'a>(&'a mut self) -> (it: BinTreeIterMut<'a, T>)
        ensures
            it.remaining() == old(self).inorder(),
            it.order() == BinTreeTraversal::DepthFirst(DepthFirstOrder::InOrder),
            it.units().len() == 1,
            it.units()[0] matches IterMutData::Tree(t) && *t == *old(self) && *final(t)
                == *final(self),
            pending_items(
                Seq::new(
                    it.units().len(),
                    |i: int|
                        match it.units()[i] {
                            IterMutData::Value(v) => IterIntoData::Value(*final(v)),
                            IterMutData::Tree(t) => IterIntoData::Tree(*final(t)),
                        },
                ),
                BinTreeTraversal::DepthFirst(DepthFirstOrder::InOrder),
            ) == final(self).inorder(),
            (forall|i: int|
                0 <= i < it.units().len() ==> (#[trigger] it.units()[i] matches IterMutData::Tree(t)
                    ==> t.same_shape(*final(t))))
                ==> old(self).same_shape(*final(self)),
    {
        self.iter_mut_traversal(BinTreeTraversal::DepthFirst(DepthFirstOrder::InOrder))
    }

    /// Depth-first, each value before its subtrees.
    /// What the tree will hold afterwards is stated as for
    /// [`BinTree::iter_mut_traversal`].
    pub fn iter_mut_dfs_pre<'a>(&'a mut self) -> (it: BinTreeIterMut<'a, T>)
        ensures
            it.remaining() == old(self).preorder(),
            it.order() == BinTreeTraversal::DepthFirst(DepthFirstOrder::PreOrder),
            it.units().len() == 1,
            it.units()[0] matches IterMutData::Tree(t) && *t == *old(self) && *final(t)
                == *final(self),
            pending_items(
                Seq::new(
                    it.units().len(),
                    |i: int|
                        match it.units()[i] {
                            IterMutData::Value(v) => IterIntoData::Value(*final(v)),
                            IterMutData::Tree(t) => IterIntoData::Tree(*final(t)),
                        },
                ),
                BinTreeTraversal::DepthFirst(DepthFirstOrder::PreOrder),
            ) == final(self).preorder(),
            (forall|i: int|
                0 <= i < it.units().len() ==> (#[trigger] it.units()[i] matches IterMutData::Tree(t)
                    ==> t.same_shape(*final(t))))
                ==> old(self).same_shape(*final(self)),
    {
        self.iter_mut_traversal(BinTreeTraversal::DepthFirst(DepthFirstOrder::PreOrder))
    }

    /// Depth-first, each value after its subtrees.
    /// What the tree will hold afterwards is stated as for
    /// [`BinTree::iter_mut_traversal`].
    pub fn iter_mut_dfs_post<'a>(&'a mut self) -> (it: BinTreeIterMut<'a, T>)
        ensures
            it.remaining() == old(self).postorder(),
            it.order() == BinTreeTraversal::DepthFirst(DepthFirstOrder::PostOrder),
            it.units().len() == 1,
            it.units()[0] matches IterMutData::Tree(t) && *t == *old(self) && *final(t)
                == *final(self),
            pending_items(
                Seq::new(
                    it.units().len(),
                    |i: int|
                        match it.units()[i] {
                            IterMutData::Value(v) => IterIntoData::Value(*final(v)),
                            IterMutData::Tree(t) => IterIntoData::Tree(*final(t)),
                        },
                ),
                BinTreeTraversal::DepthFirst(DepthFirstOrder::PostOrder),
            ) == final(self).postorder(),
            (forall|i: int|
                0 <= i < it.units().len() ==> (#[trigger] it.units()[i] matches IterMutData::Tree(t)
                    ==> t.same_shape(*final(t))))
                ==> old(self).same_shape(*final(self)),
    {
        self.iter_mut_traversal(BinTreeTraversal::DepthFirst(DepthFirstOrder::PostOrder))
    }

    /// Breadth-first.
    /// What the tree will hold afterwards is stated as for
    /// [`BinTree::iter_mut_traversal`].
    pub fn iter_mut_bfs<'a>(&'a mut self) -> (it: BinTreeIterMut<'a, T>)
        ensures
            it.remaining() == old(self).breadth_first(),
            it.order() == BinTreeTraversal::BreadthFirst,
            it.units().len() == 1,
            it.units()[0] matches IterMutData::Tree(t) && *t == *old(self) && *final(t)
                == *final(self),
            pending_items(
                Seq::new(
                    it.units().len(),
                    |i: int|
                        match it.units()[i] {
                            IterMutData::Value(v) => IterIntoData::Value(*final(v)),
                            IterMutData::Tree(t) => IterIntoData::Tree(*final(t)),
                        },
                ),
                BinTreeTraversal::BreadthFirst,
            ) == final(self).breadth_first(),
            (forall|i: int|
                0 <= i < it.units().len() ==> (#[trigger] it.units()[i] matches IterMutData::Tree(t)
                    ==> t.same_shape(*final(t))))
                ==> old(self).same_shape(*final(self)),
    {
        self.iter_mut_traversal(BinTreeTraversal::BreadthFirst)
    }
}

} // verus!
