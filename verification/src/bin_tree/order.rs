//! Key functions and three-way comparisons as the sorted operations see them,
//! and what it means for the items of a tree to be in order.
//!
//! An executable key function or comparison enters the contracts through the
//! mathematical function that it computes, which [`key_fn_is`] and
//! [`cmp_fn_is`] state.

use core::cmp::Ordering;
use vstd::prelude::*;
use vstd::std_specs::cmp::PartialOrdSpec;

verus! {

/// The key function may be called on every item.
pub open spec fn key_fn_total<Item, Key, F: Fn(&Item) -> &Key>(to_key: F) -> bool {
    forall|a: Item| call_requires(to_key, (&a,))
}

/// The comparison may be called on every pair of keys.
pub open spec fn cmp_fn_total<Key, F: Fn(&Key, &Key) -> Option<Ordering>>(cmp: F) -> bool {
    forall|a: Key, b: Key| call_requires(cmp, (&a, &b))
}

/// The key function computes `kf`: whatever it returns for an item is the key
/// that `kf` gives for it.
pub open spec fn key_fn_is<Item, Key, F: Fn(&Item) -> &Key>(
    to_key: F,
    kf: spec_fn(Item) -> Key,
) -> bool {
    forall|a: Item, k: Key| #[trigger] call_ensures(to_key, (&a,), &k) ==> k == kf(a)
}

/// The comparison computes `c`: whatever it returns for two keys is the
/// answer that `c` gives for them.
pub open spec fn cmp_fn_is<Key, F: Fn(&Key, &Key) -> Option<Ordering>>(
    cmp: F,
    c: spec_fn(Key, Key) -> Option<Ordering>,
) -> bool {
    forall|a: Key, b: Key, r: Option<Ordering>| #[trigger]
        call_ensures(cmp, (&a, &b), r) ==> r == c(a, b)
}

/// The first key comes strictly before the second.
pub open spec fn is_less<Key>(c: spec_fn(Key, Key) -> Option<Ordering>, a: Key, b: Key) -> bool {
    c(a, b) == Some(Ordering::Less)
}

/// The first key comes strictly after the second.
pub open spec fn is_greater<Key>(c: spec_fn(Key, Key) -> Option<Ordering>, a: Key, b: Key) -> bool {
    c(a, b) == Some(Ordering::Greater)
}

/// Neither key comes before the other; the sorted operations treat such keys
/// as the same key.
pub open spec fn is_same<Key>(c: spec_fn(Key, Key) -> Option<Ordering>, a: Key, b: Key) -> bool {
    !is_less(c, a, b) && !is_greater(c, a, b)
}

/// The comparison orders the keys like a ranking: turning the arguments
/// around turns the answer around, "before" carries over from pair to pair,
/// and so does "not before".
pub open spec fn weak_order<Key>(c: spec_fn(Key, Key) -> Option<Ordering>) -> bool {
    &&& forall|a: Key, b: Key| #[trigger] is_less(c, a, b) <==> is_greater(c, b, a)
    &&& forall|a: Key, b: Key, d: Key|
        #[trigger] is_less(c, a, b) && #[trigger] is_less(c, b, d) ==> is_less(c, a, d)
    &&& forall|a: Key, b: Key, d: Key|
        !#[trigger] is_less(c, a, b) && !#[trigger] is_less(c, b, d) ==> !is_less(c, a, d)
}

/// The items are in non-decreasing order of their keys: no item's key comes
/// before the key of an item that stands earlier.
pub open spec fn sorted_by<Item, Key>(
    s: Seq<Item>,
    kf: spec_fn(Item) -> Key,
    c: spec_fn(Key, Key) -> Option<Ordering>,
) -> bool {
    forall|i: int, j: int| 0 <= i < j < s.len()
        ==> !is_less(c, kf(#[trigger] s[j]), kf(#[trigger] s[i]))
}

/// The position of a key among sorted items: every item before it has a key
/// that is not after the given key, every item from it on has a key after it.
pub open spec fn is_upper_index<Item, Key>(
    s: Seq<Item>,
    kf: spec_fn(Item) -> Key,
    c: spec_fn(Key, Key) -> Option<Ordering>,
    key: Key,
    idx: int,
) -> bool {
    &&& 0 <= idx <= s.len()
    &&& forall|i: int| 0 <= i < idx ==> !is_less(c, key, kf(#[trigger] s[i]))
    &&& forall|i: int| idx <= i < s.len() ==> is_less(c, key, kf(#[trigger] s[i]))
}

/// Sorted items stay sorted when an item is put in at the position of its key.
pub proof fn lemma_insert_sorted<Item, Key>(
    s: Seq<Item>,
    kf: spec_fn(Item) -> Key,
    c: spec_fn(Key, Key) -> Option<Ordering>,
    idx: int,
    x: Item,
)
    requires
        weak_order(c),
        sorted_by(s, kf, c),
        is_upper_index(s, kf, c, kf(x), idx),
    ensures
        sorted_by(s.insert(idx, x), kf, c),
{
    let t = s.insert(idx, x);
    assert forall|i: int, j: int| 0 <= i < j < t.len() implies !is_less(
        c,
        kf(#[trigger] t[j]),
        kf(#[trigger] t[i]),
    ) by {
        if j == idx {
            assert(t[i] == s[i]);
        } else if i == idx {
            assert(t[j] == s[j - 1]);
            assert(is_less(c, kf(x), kf(s[j - 1])));
            assert(is_greater(c, kf(s[j - 1]), kf(x)));
        } else {
            let i0 = if i < idx {
                i
            } else {
                i - 1
            };
            let j0 = if j < idx {
                j
            } else {
                j - 1
            };
            assert(t[i] == s[i0]);
            assert(t[j] == s[j0]);
        }
    }
}

/// Sorted items stay sorted when one of them gives way to an item with the
/// same key.
pub proof fn lemma_update_sorted<Item, Key>(
    s: Seq<Item>,
    kf: spec_fn(Item) -> Key,
    c: spec_fn(Key, Key) -> Option<Ordering>,
    idx: int,
    x: Item,
)
    requires
        weak_order(c),
        sorted_by(s, kf, c),
        0 <= idx < s.len(),
        is_same(c, kf(x), kf(s[idx])),
    ensures
        sorted_by(s.update(idx, x), kf, c),
{
    let t = s.update(idx, x);
    assert forall|i: int, j: int| 0 <= i < j < t.len() implies !is_less(
        c,
        kf(#[trigger] t[j]),
        kf(#[trigger] t[i]),
    ) by {
        assert(!is_less(c, kf(s[j]), kf(s[i])));
        if j == idx {
            assert(!is_less(c, kf(x), kf(s[idx])));
            assert(!is_less(c, kf(s[idx]), kf(s[i])));
        } else if i == idx {
            assert(!is_greater(c, kf(x), kf(s[idx])));
            assert(!is_less(c, kf(s[idx]), kf(x)));
            assert(!is_less(c, kf(s[j]), kf(s[idx])));
        }
    }
}

/// Sorted items stay sorted when one of them is taken out.
pub proof fn lemma_remove_sorted<Item, Key>(
    s: Seq<Item>,
    kf: spec_fn(Item) -> Key,
    c: spec_fn(Key, Key) -> Option<Ordering>,
    idx: int,
)
    requires
        sorted_by(s, kf, c),
        0 <= idx < s.len(),
    ensures
        sorted_by(s.remove(idx), kf, c),
{
    let t = s.remove(idx);
    assert forall|i: int, j: int| 0 <= i < j < t.len() implies !is_less(
        c,
        kf(#[trigger] t[j]),
        kf(#[trigger] t[i]),
    ) by {
        let i0 = if i < idx {
            i
        } else {
            i + 1
        };
        let j0 = if j < idx {
            j
        } else {
            j + 1
        };
        assert(t[i] == s[i0]);
        assert(t[j] == s[j0]);
    }
}

/// Every stretch of sorted items is sorted.
pub proof fn lemma_subrange_sorted<Item, Key>(
    s: Seq<Item>,
    kf: spec_fn(Item) -> Key,
    c: spec_fn(Key, Key) -> Option<Ordering>,
    from: int,
    to: int,
)
    requires
        sorted_by(s, kf, c),
        0 <= from <= to <= s.len(),
    ensures
        sorted_by(s.subrange(from, to), kf, c),
{
    let t = s.subrange(from, to);
    assert forall|i: int, j: int| 0 <= i < j < t.len() implies !is_less(
        c,
        kf(#[trigger] t[j]),
        kf(#[trigger] t[i]),
    ) by {
        assert(t[i] == s[from + i]);
        assert(t[j] == s[from + j]);
    }
}


/// What putting `x` into the items comes to, whatever the order: either `x`
/// stands somewhere among the old items, or it stands in the place of the item
/// that was handed back.
pub open spec fn put_in<Item>(
    before: Seq<Item>,
    after: Seq<Item>,
    replaced: Option<Item>,
    x: Item,
) -> bool {
    match replaced {
        None => exists|i: int| 0 <= i <= before.len() && after == #[trigger] before.insert(i, x),
        Some(old_item) => exists|i: int|
            0 <= i < before.len() && old_item == before[i] && after == #[trigger] before.update(
                i,
                x,
            ),
    }
}

/// What taking an item out of the items comes to, whatever the order: the
/// item that was handed back is gone from its place and the others stand as
/// they stood; where nothing was handed back, nothing changed.
pub open spec fn taken_out<Item>(before: Seq<Item>, after: Seq<Item>, taken: Option<Item>) -> bool {
    match taken {
        None => after == before,
        Some(item) => exists|i: int|
            0 <= i < before.len() && item == before[i] && after == #[trigger] before.remove(i),
    }
}

/// Putting an item into one stretch of the items puts it into the whole.
pub proof fn lemma_put_in_part<Item>(
    front: Seq<Item>,
    part: Seq<Item>,
    part_after: Seq<Item>,
    back: Seq<Item>,
    replaced: Option<Item>,
    x: Item,
)
    requires
        put_in(part, part_after, replaced, x),
    ensures
        put_in(front + part + back, front + part_after + back, replaced, x),
{
    let n = front.len() as int;
    let whole = front + part + back;
    match replaced {
        None => {
            let i = choose|i: int| 0 <= i <= part.len() && part_after
                == #[trigger] part.insert(i, x);
            assert(front + part_after + back =~= whole.insert(n + i, x));
        },
        Some(old_item) => {
            let i = choose|i: int|
                0 <= i < part.len() && old_item == part[i] && part_after == #[trigger] part.update(
                    i,
                    x,
                );
            assert(front + part_after + back =~= whole.update(n + i, x));
            assert(whole[n + i] == part[i]);
        },
    }
}

/// Taking an item out of one stretch of the items takes it out of the whole.
pub proof fn lemma_taken_out_part<Item>(
    front: Seq<Item>,
    part: Seq<Item>,
    part_after: Seq<Item>,
    back: Seq<Item>,
    taken: Option<Item>,
)
    requires
        taken_out(part, part_after, taken),
    ensures
        taken_out(front + part + back, front + part_after + back, taken),
{
    let n = front.len() as int;
    let whole = front + part + back;
    match taken {
        None => {},
        Some(item) => {
            let i = choose|i: int|
                0 <= i < part.len() && item == part[i] && part_after == #[trigger] part.remove(i);
            assert(front + part_after + back =~= whole.remove(n + i));
            assert(whole[n + i] == part[i]);
        },
    }
}

/// Each item is its own key.
pub open spec fn own_key<T>() -> spec_fn(T) -> T {
    |a: T| a
}

/// The order that the type itself gives to its values.
pub open spec fn natural_order<T: PartialOrd>() -> spec_fn(T, T) -> Option<Ordering> {
    |a: T, b: T| a.partial_cmp_spec(&b)
}

/// The key function of the operations that order items by themselves.
pub fn identity_key<T>(x: &T) -> (r: &T)
    ensures
        r == x,
{
    x
}

/// The comparison of the operations that order items by themselves.
pub fn natural_cmp<T: PartialOrd>(a: &T, b: &T) -> (r: Option<Ordering>)
    ensures
        T::obeys_partial_cmp_spec() ==> r == a.partial_cmp_spec(b),
{
    a.partial_cmp(b)
}

/// `identity_key` computes `own_key`.
pub proof fn lemma_identity_key<T>()
    ensures
        key_fn_total(identity_key::<T>),
        key_fn_is(identity_key::<T>, own_key::<T>()),
{
}

/// Where the type's order is specified, `natural_cmp` computes `natural_order`.
pub proof fn lemma_natural_cmp<T: PartialOrd>()
    ensures
        cmp_fn_total(natural_cmp::<T>),
        T::obeys_partial_cmp_spec() ==> cmp_fn_is(natural_cmp::<T>, natural_order::<T>()),
{
}

/// The first position whose item has a key after `key`; the number of items
/// when there is none.
pub open spec fn upper_pos<Item, Key>(
    s: Seq<Item>,
    kf: spec_fn(Item) -> Key,
    c: spec_fn(Key, Key) -> Option<Ordering>,
    key: Key,
) -> int
    decreases s.len(),
{
    if s.len() == 0 {
        0
    } else if is_less(c, key, kf(s[0])) {
        0
    } else {
        1 + upper_pos(s.drop_first(), kf, c, key)
    }
}

/// A position that splits the items into those not after `key` and those
/// after it is the first position whose item has a key after `key`.
pub proof fn lemma_upper_pos<Item, Key>(
    s: Seq<Item>,
    kf: spec_fn(Item) -> Key,
    c: spec_fn(Key, Key) -> Option<Ordering>,
    key: Key,
    idx: int,
)
    requires
        is_upper_index(s, kf, c, key, idx),
    ensures
        idx == upper_pos(s, kf, c, key),
    decreases s.len(),
{
    if s.len() > 0 {
        if idx == 0 {
            assert(is_less(c, key, kf(s[0])));
        } else {
            assert(!is_less(c, key, kf(s[0])));
            let t = s.drop_first();
            assert forall|i: int| 0 <= i < idx - 1 implies !is_less(c, key, kf(#[trigger] t[i])) by {
                assert(t[i] == s[i + 1]);
            }
            assert forall|i: int| idx - 1 <= i < t.len() implies is_less(
                c,
                key,
                kf(#[trigger] t[i]),
            ) by {
                assert(t[i] == s[i + 1]);
            }
            lemma_upper_pos(t, kf, c, key, idx - 1);
        }
    }
}

/// The items after `x` was put in at the position of its key.
pub open spec fn insert_sorted<Item, Key>(
    s: Seq<Item>,
    kf: spec_fn(Item) -> Key,
    c: spec_fn(Key, Key) -> Option<Ordering>,
    x: Item,
) -> Seq<Item> {
    s.insert(upper_pos(s, kf, c, kf(x)), x)
}

/// The items after each of `items` was put in at the position of its key, one
/// after the other.
pub open spec fn insert_each<Item, Key>(
    s: Seq<Item>,
    kf: spec_fn(Item) -> Key,
    c: spec_fn(Key, Key) -> Option<Ordering>,
    items: Seq<Item>,
) -> Seq<Item>
    decreases items.len(),
{
    if items.len() == 0 {
        s
    } else {
        insert_sorted(insert_each(s, kf, c, items.drop_last()), kf, c, items.last())
    }
}

/// A key function given by reference may be called wherever the key function
/// itself may be called.
pub proof fn lemma_key_fn_total_ref<Item, Key, F: Fn(&Item) -> &Key>(to_key: &F)
    ensures
        key_fn_total(to_key) == key_fn_total(*to_key),
{
    assert forall|a: Item| call_requires(to_key, (&a,)) == call_requires(*to_key, (&a,)) by {}
}

/// A key function given by reference computes what the key function itself
/// computes.
pub proof fn lemma_key_fn_ref<Item, Key, F: Fn(&Item) -> &Key>(
    to_key: &F,
    kf: spec_fn(Item) -> Key,
)
    ensures
        key_fn_is(to_key, kf) == key_fn_is(*to_key, kf),
{
    assert forall|a: Item, k: Key|
        call_ensures(to_key, (&a,), &k) == call_ensures(*to_key, (&a,), &k) by {}
}

/// A comparison given by reference may be called wherever the comparison
/// itself may be called.
pub proof fn lemma_cmp_fn_total_ref<Key, F: Fn(&Key, &Key) -> Option<Ordering>>(cmp: &F)
    ensures
        cmp_fn_total(cmp) == cmp_fn_total(*cmp),
{
    assert forall|a: Key, b: Key|
        call_requires(cmp, (&a, &b)) == call_requires(*cmp, (&a, &b)) by {}
}

/// A comparison given by reference computes what the comparison itself
/// computes.
pub proof fn lemma_cmp_fn_ref<Key, F: Fn(&Key, &Key) -> Option<Ordering>>(
    cmp: &F,
    c: spec_fn(Key, Key) -> Option<Ordering>,
)
    ensures
        cmp_fn_is(cmp, c) == cmp_fn_is(*cmp, c),
{
    assert forall|a: Key, b: Key, r: Option<Ordering>|
        call_ensures(cmp, (&a, &b), r) == call_ensures(*cmp, (&a, &b), r) by {}
}

} // verus!
