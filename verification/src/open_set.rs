//! The open set of the solver: a bounded min-heap of an outside crate,
//! seen through the multiset of the items it holds.

use vstd::prelude::*;
use vstd::multiset::Multiset;
use heapless::binary_heap::{BinaryHeap, Min};

verus! {

/// The most items that the open set can hold.
pub const MAX_HEAP_SIZE: usize = 128;

#[verifier::external_type_specification]
#[verifier::external_body]
#[verifier::reject_recursive_types(T)]
#[verifier::reject_recursive_types(K)]
pub struct ExBinaryHeap<T, K, const N: usize>(BinaryHeap<T, K, N>);

#[verifier::external_type_specification]
#[verifier::external_body]
pub struct ExMin(Min);

/// The items that the heap holds. An item is the tuple of `f`, `g`, position
/// and parent position of a candidate.
pub uninterp spec fn heap_items(
    heap: BinaryHeap<(usize, usize, usize, usize), Min, MAX_HEAP_SIZE>,
) -> Multiset<(usize, usize, usize, usize)>;

/// The order of the items in the heap: tuples compare field by field, the
/// first field that differs decides. So the lowest `f` comes first, among
/// equal `f` the lowest `g`, then the lowest position, then the lowest parent.
pub open spec fn item_le(a: (usize, usize, usize, usize), b: (usize, usize, usize, usize)) -> bool {
    a.0 < b.0 || (a.0 == b.0 && (a.1 < b.1 || (a.1 == b.1 && (a.2 < b.2 || (a.2 == b.2 && a.3
        <= b.3)))))
}

/// `item` is in `items` and no item of `items` comes before it.
pub open spec fn is_min_item(
    items: Multiset<(usize, usize, usize, usize)>,
    item: (usize, usize, usize, usize),
) -> bool {
    &&& items.count(item) > 0
    &&& forall|other: (usize, usize, usize, usize)|
        items.count(other) > 0 ==> item_le(item, other)
}

/// Calls `BinaryHeap::new` of heapless: the new heap holds nothing.
#[verifier::external_body]
pub(crate) fn heap_new() -> (heap: BinaryHeap<(usize, usize, usize, usize), Min, MAX_HEAP_SIZE>)
    ensures
        heap_items(heap) == Multiset::<(usize, usize, usize, usize)>::empty(),
{
    BinaryHeap::new()
}

/// Calls `BinaryHeap::len` of heapless: the number of items held.
#[verifier::external_body]
pub(crate) fn heap_len(
    heap: &BinaryHeap<(usize, usize, usize, usize), Min, MAX_HEAP_SIZE>,
) -> (n: usize)
    ensures
        n == heap_items(*heap).len(),
{
    heap.len()
}

/// Calls `BinaryHeap::push` of heapless. A heap that holds fewer than
/// `MAX_HEAP_SIZE` items takes the item; a full heap hands it back and
/// stays as it is.
#[verifier::external_body]
pub(crate) fn heap_push(
    heap: &mut BinaryHeap<(usize, usize, usize, usize), Min, MAX_HEAP_SIZE>,
    item: (usize, usize, usize, usize),
) -> (r: Result<(), (usize, usize, usize, usize)>)
    ensures
        match r {
            Ok(_) => heap_items(*old(heap)).len() < MAX_HEAP_SIZE && heap_items(*final(heap))
                == heap_items(*old(heap)).insert(item),
            Err(back) => heap_items(*old(heap)).len() >= MAX_HEAP_SIZE && back == item
                && heap_items(*final(heap)) == heap_items(*old(heap)),
        },
{
    heap.push(item)
}

/// Calls `BinaryHeap::pop` of heapless. An empty heap gives `None`; any
/// other gives up one of its items, and none of its items comes before
/// that one in the order of tuples.
#[verifier::external_body]
pub(crate) fn heap_pop(
    heap: &mut BinaryHeap<(usize, usize, usize, usize), Min, MAX_HEAP_SIZE>,
) -> (r: Option<(usize, usize, usize, usize)>)
    ensures
        match r {
            Some(item) => is_min_item(heap_items(*old(heap)), item) && heap_items(*final(heap))
                == heap_items(*old(heap)).remove(item),
            None => heap_items(*old(heap)).len() == 0 && heap_items(*final(heap)) == heap_items(
                *old(heap),
            ),
        },
{
    heap.pop()
}

/// Calls `BinaryHeap::clear` of heapless: the heap holds nothing afterwards.
#[verifier::external_body]
pub(crate) fn heap_clear(heap: &mut BinaryHeap<(usize, usize, usize, usize), Min, MAX_HEAP_SIZE>)
    ensures
        heap_items(*final(heap)) == Multiset::<(usize, usize, usize, usize)>::empty(),
{
    heap.clear()
}

/// Calls `BinaryHeap::iter` of heapless and copies what it visits: every
/// item of the heap, each as often as the heap holds it, in no stated order.
#[verifier::external_body]
pub(crate) fn heap_to_vec(
    heap: &BinaryHeap<(usize, usize, usize, usize), Min, MAX_HEAP_SIZE>,
) -> (items: Vec<(usize, usize, usize, usize)>)
    ensures
        items@.to_multiset() == heap_items(*heap),
{
    heap.iter().copied().collect()
}

/// Two items that both come first are the same item.
pub proof fn lemma_min_item_unique(
    items: Multiset<(usize, usize, usize, usize)>,
    a: (usize, usize, usize, usize),
    b: (usize, usize, usize, usize),
)
    requires
        is_min_item(items, a),
        is_min_item(items, b),
    ensures
        a == b,
{
    assert(item_le(a, b));
    assert(item_le(b, a));
}

} // verus!
