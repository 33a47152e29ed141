//! The priority queue of the nearest neighbor search: a bounded heap without
//! allocation, and a binary heap in a vector for what does not fit it.

use heapless::binary_heap::{BinaryHeap, Min};
use vstd::multiset::Multiset;
use vstd::prelude::*;

verus! {

/// The bounded binary heap of the crate `heapless`.
#[verifier::external_type_specification]
#[verifier::external_body]
#[verifier::reject_recursive_types(T)]
#[verifier::reject_recursive_types(K)]
pub struct ExBinaryHeap<T, K, const N: usize>(BinaryHeap<T, K, N>);

/// The marker of `heapless` for a heap that hands out its smallest item.
#[verifier::external_type_specification]
#[verifier::external_body]
pub struct ExMin(Min);

/// An entry of the queue: a distance and the number of a node.
pub type Entry = (i64, usize);

/// The heap that holds the first entries of a search.
pub type StackHeap = BinaryHeap<Entry, Min, 32>;

/// The entries that a heap holds.
pub uninterp spec fn heap_items(heap: StackHeap) -> Multiset<Entry>;

/// Whether the entry `a` comes out of the queue no later than `b`: it has
/// the smaller distance, or the same distance and no larger number.
pub open spec fn entry_le(a: Entry, b: Entry) -> bool {
    a.0 < b.0 || (a.0 == b.0 && a.1 <= b.1)
}

/// `first` is an entry of `items` that comes out no later than any other.
pub open spec fn is_first(first: Entry, items: Multiset<Entry>) -> bool {
    &&& items.count(first) > 0
    &&& forall|other: Entry| items.count(other) > 0 ==> entry_le(first, other)
}

/// An empty heap.
///
/// Calls `BinaryHeap::new` of `heapless`, which makes a heap with no items.
#[verifier::external_body]
fn heap_new() -> (heap: StackHeap)
    ensures
        heap_items(heap) == Multiset::<Entry>::empty(),
{
    BinaryHeap::new()
}

/// Adds `item` to `heap` where there is room for it, and hands it back where
/// there is not.
///
/// Calls `BinaryHeap::push` of `heapless`, which refuses an item exactly when
/// the heap holds as many items as its capacity, here 32.
#[verifier::external_body]
fn heap_push(heap: &mut StackHeap, item: Entry) -> (r: Result<(), Entry>)
    ensures
        r is Ok <==> heap_items(*old(heap)).len() < 32,
        r is Ok ==> heap_items(*final(heap)) == heap_items(*old(heap)).insert(item),
        r is Err ==> r->Err_0 == item && heap_items(*final(heap)) == heap_items(*old(heap)),
{
    heap.push(item)
}

/// Takes the smallest item out of `heap`.
///
/// Calls `BinaryHeap::pop` of `heapless`, which for a heap of the kind `Min`
/// removes and returns the smallest item by the order of the items, and
/// returns `None` for an empty heap. Tuples are ordered by their first
/// component, then by their second.
#[verifier::external_body]
fn heap_pop(heap: &mut StackHeap) -> (r: Option<Entry>)
    ensures
        r is None <==> heap_items(*old(heap)).len() == 0,
        r is None ==> heap_items(*final(heap)) == heap_items(*old(heap)),
        r is Some ==> is_first(r->0, heap_items(*old(heap))) && heap_items(*final(heap))
            == heap_items(*old(heap)).remove(r->0),
{
    heap.pop()
}

/// The items of `heap`, in no particular order.
///
/// Calls `BinaryHeap::into_vec` of `heapless`, which hands out the vector that
/// holds the items of the heap.
#[verifier::external_body]
fn heap_into_vec(heap: StackHeap) -> (r: Vec<Entry>)
    ensures
        r@.to_multiset() == heap_items(heap),
{
    heap.into_vec().into_iter().collect()
}

/// Whether the entry `a` comes out of the queue before `b`.
fn entry_before(a: Entry, b: Entry) -> (r: bool)
    ensures
        r == !entry_le(b, a),
        r ==> entry_le(a, b),
{
    a.0 < b.0 || (a.0 == b.0 && a.1 < b.1)
}

/// Every entry of `items` but the first comes out no earlier than the entry
/// at half its place: `items` is a binary heap.
pub open spec fn heap_ordered(items: Seq<Entry>) -> bool {
    forall|j: int| 1 <= j < items.len() ==> entry_le(items[(j - 1) / 2], #[trigger] items[j])
}

/// `items` is a binary heap but for the entry at `hole`, which may come out
/// before the entry above it; the entries below it come out no earlier than
/// the entry above it.
pub open spec fn ordered_above(items: Seq<Entry>, hole: int) -> bool {
    &&& forall|j: int|
        1 <= j < items.len() && j != hole ==> entry_le(items[(j - 1) / 2], #[trigger] items[j])
    &&& forall|j: int|
        1 <= j < items.len() && (j - 1) / 2 == hole && hole >= 1 ==> entry_le(
            items[(hole - 1) / 2],
            #[trigger] items[j],
        )
}

/// `items` is a binary heap but for the entry at `hole`, which may come out
/// after the entries below it; the entries below it come out no earlier than
/// the entry above it.
pub open spec fn ordered_below(items: Seq<Entry>, hole: int) -> bool {
    &&& forall|j: int|
        1 <= j < items.len() && (j - 1) / 2 != hole ==> entry_le(
            items[(j - 1) / 2],
            #[trigger] items[j],
        )
    &&& forall|j: int|
        1 <= j < items.len() && (j - 1) / 2 == hole && hole >= 1 ==> entry_le(
            items[(hole - 1) / 2],
            #[trigger] items[j],
        )
}

/// The first entry of a binary heap comes out no later than any other.
pub proof fn lemma_root_is_first(items: Seq<Entry>, j: int)
    requires
        heap_ordered(items),
        0 <= j < items.len(),
    ensures
        entry_le(items[0], items[j]),
    decreases j,
{
    if j >= 1 {
        lemma_root_is_first(items, (j - 1) / 2);
        assert(entry_le(items[(j - 1) / 2], items[j]));
    }
}

/// Exchanging two entries leaves the same entries.
pub proof fn lemma_exchange(items: Seq<Entry>, i: int, j: int)
    requires
        0 <= i < items.len(),
        0 <= j < items.len(),
    ensures
        items.update(i, items[j]).update(j, items[i]).to_multiset() == items.to_multiset(),
{
    broadcast use vstd::multiset::group_multiset_axioms;

    let once = items.update(i, items[j]);
    vstd::seq_lib::to_multiset_update(items, i, items[j]);
    vstd::seq_lib::to_multiset_update(once, j, items[i]);
    vstd::seq_lib::to_multiset_contains(items, items[i]);
    vstd::seq_lib::to_multiset_contains(items, items[j]);
    assert(items.contains(items[i]));
    assert(items.contains(items[j]));
    assert(once.update(j, items[i]).to_multiset() =~= items.to_multiset());
}

/// Exchanges the entries at `i` and `j`.
fn exchange(items: &mut Vec<Entry>, i: usize, j: usize)
    requires
        i < old(items)@.len(),
        j < old(items)@.len(),
    ensures
        final(items)@ == old(items)@.update(i as int, old(items)@[j as int]).update(
            j as int,
            old(items)@[i as int],
        ),
        final(items)@.to_multiset() == old(items)@.to_multiset(),
{
    let a = items[i];
    let b = items[j];
    items.set(i, b);
    items.set(j, a);
    proof {
        lemma_exchange(old(items)@, i as int, j as int);
    }
}

/// Moves the entry at `start` up the heap until the entry above it comes out
/// no later.
fn sift_up(items: &mut Vec<Entry>, start: usize)
    requires
        start < old(items)@.len(),
        ordered_above(old(items)@, start as int),
    ensures
        heap_ordered(final(items)@),
        final(items)@.to_multiset() == old(items)@.to_multiset(),
{
    let mut i = start;
    while i > 0
        invariant
            i < items@.len(),
            ordered_above(items@, i as int),
            items@.to_multiset() == old(items)@.to_multiset(),
        ensures
            heap_ordered(items@),
        decreases i,
    {
        let above = (i - 1) / 2;
        if !entry_before(items[i], items[above]) {
            break ;
        }
        let ghost before = items@;
        exchange(items, i, above);
        proof {
            let after = items@;
            assert forall|j: int| 1 <= j < after.len() && j != above implies entry_le(
                after[(j - 1) / 2],
                #[trigger] after[j],
            ) by {
                if j == i {
                } else if (j - 1) / 2 == i as int {
                    assert(entry_le(before[(i as int - 1) / 2], before[j]));
                } else if (j - 1) / 2 == above as int {
                    assert(entry_le(before[above as int], before[j]));
                } else {
                    assert(entry_le(before[(j - 1) / 2], before[j]));
                }
            }
            assert forall|j: int|
                1 <= j < after.len() && (j - 1) / 2 == above && above >= 1 implies entry_le(
                after[(above as int - 1) / 2],
                #[trigger] after[j],
            ) by {
                assert(entry_le(before[(above as int - 1) / 2], before[above as int]));
                if j != i {
                    assert(entry_le(before[above as int], before[j]));
                }
            }
        }
        i = above;
    }
}

/// Moves the entry at the top down the heap until the entries below it come
/// out no earlier.
fn sift_down(items: &mut Vec<Entry>)
    requires
        ordered_below(old(items)@, 0),
    ensures
        heap_ordered(final(items)@),
        final(items)@.to_multiset() == old(items)@.to_multiset(),
{
    let len = items.len();
    let mut i: usize = 0;
    loop
        invariant
            len == items@.len(),
            i < len || len == 0,
            ordered_below(items@, i as int),
            items@.to_multiset() == old(items)@.to_multiset(),
        ensures
            heap_ordered(items@),
        decreases len - i,
    {
        if i >= len / 2 {
            // No entry lies below.
            proof {
                assert forall|j: int| 1 <= j < items@.len() implies entry_le(
                    items@[(j - 1) / 2],
                    #[trigger] items@[j],
                ) by {
                    assert((j - 1) / 2 != i as int);
                }
            }
            break ;
        }
        let left = 2 * i + 1;
        let right = left + 1;
        let least = if right < len && entry_before(items[right], items[left]) {
            right
        } else {
            left
        };
        if !entry_before(items[least], items[i]) {
            proof {
                assert forall|j: int| 1 <= j < items@.len() implies entry_le(
                    items@[(j - 1) / 2],
                    #[trigger] items@[j],
                ) by {
                    if (j - 1) / 2 == i as int {
                        assert(j == left || j == right);
                    }
                }
            }
            break ;
        }
        let ghost before = items@;
        exchange(items, i, least);
        proof {
            let after = items@;
            assert forall|j: int| 1 <= j < after.len() && (j - 1) / 2 != least implies entry_le(
                after[(j - 1) / 2],
                #[trigger] after[j],
            ) by {
                if j == least as int {
                } else if (j - 1) / 2 == i as int {
                    assert(j == left || j == right);
                } else if j == i as int {
                    assert(entry_le(before[(i as int - 1) / 2], before[least as int]));
                } else {
                    assert(entry_le(before[(j - 1) / 2], before[j]));
                }
            }
            assert forall|j: int|
                1 <= j < after.len() && (j - 1) / 2 == least && least >= 1 implies entry_le(
                after[(least as int - 1) / 2],
                #[trigger] after[j],
            ) by {
                assert(entry_le(before[least as int], before[j]));
            }
        }
        i = least;
    }
}

/// A priority queue that hands out its entries smallest first.
///
/// The first 32 entries are kept in a heap that does not allocate. Once they
/// do not fit, all entries move to a binary heap in a vector.
pub enum SmallHeap {
    Stack(StackHeap),
    Heap(Vec<Entry>),
}

impl SmallHeap {
    /// The entries of the queue.
    pub open spec fn items(&self) -> Multiset<Entry> {
        match self {
            SmallHeap::Stack(heap) => heap_items(*heap),
            SmallHeap::Heap(items) => items@.to_multiset(),
        }
    }

    /// What holds of every queue: the vector is a binary heap.
    pub open spec fn wf(&self) -> bool {
        match self {
            SmallHeap::Stack(_) => true,
            SmallHeap::Heap(items) => heap_ordered(items@),
        }
    }

    /// An empty queue.
    pub fn new() -> (r: Self)
        ensures
            r.wf(),
            r.items() == Multiset::<Entry>::empty(),
    {
        SmallHeap::Stack(heap_new())
    }

    /// Takes out the entry that comes first.
    pub fn pop(&mut self) -> (r: Option<Entry>)
        requires
            old(self).wf(),
        ensures
            final(self).wf(),
            r is None <==> old(self).items().len() == 0,
            r is None ==> final(self).items() == old(self).items(),
            r is Some ==> is_first(r->0, old(self).items()) && final(self).items() == old(
                self,
            ).items().remove(r->0),
    {
        match self {
            SmallHeap::Stack(heap) => heap_pop(heap),
            SmallHeap::Heap(items) => {
                proof {
                    vstd::seq_lib::to_multiset_len(items@);
                }
                if items.len() == 0 {
                    return None;
                }
                let ghost before = items@;
                let first = items.swap_remove(0);
                proof {
                    let last = before.len() - 1;
                    assert forall|other: Entry| before.to_multiset().count(other) > 0 implies entry_le(
                        first,
                        other,
                    ) by {
                        vstd::seq_lib::to_multiset_contains(before, other);
                        let j = choose|j: int| 0 <= j < before.len() && before[j] == other;
                        lemma_root_is_first(before, j);
                    }
                    vstd::seq_lib::to_multiset_contains(before, first);
                    assert(before.contains(before[0]));
                    if last == 0 {
                        assert(items@ =~= before.remove(0));
                        vstd::seq_lib::to_multiset_remove(before, 0);
                    } else {
                        let swapped = before.update(0, before[last]);
                        assert(items@ =~= swapped.remove(last));
                        vstd::seq_lib::to_multiset_remove(swapped, last);
                        vstd::seq_lib::to_multiset_update(before, 0, before[last]);
                        assert(items@.to_multiset() =~= before.to_multiset().remove(first)) by {
                            broadcast use vstd::multiset::group_multiset_axioms;

                        }
                    }
                    assert forall|j: int| 1 <= j < items@.len() && (j - 1) / 2 != 0 implies entry_le(
                        items@[(j - 1) / 2],
                        #[trigger] items@[j],
                    ) by {
                        assert(entry_le(before[(j - 1) / 2], before[j]));
                    }
                }
                sift_down(items);
                Some(first)
            },
        }
    }

    /// Adds `item` to the queue.
    pub fn push(&mut self, item: Entry)
        requires
            old(self).wf(),
        ensures
            final(self).wf(),
            final(self).items() == old(self).items().insert(item),
    {
        let refused = match self {
            SmallHeap::Stack(heap) => match heap_push(heap, item) {
                Ok(()) => None,
                Err(item) => Some(item),
            },
            SmallHeap::Heap(items) => {
                proof {
                    vstd::seq_lib::to_multiset_build(items@, item);
                }
                let ghost before = items@;
                items.push(item);
                proof {
                    assert forall|j: int|
                        1 <= j < items@.len() && j != items@.len() - 1 implies entry_le(
                        items@[(j - 1) / 2],
                        #[trigger] items@[j],
                    ) by {
                        assert(entry_le(before[(j - 1) / 2], before[j]));
                    }
                }
                let last = items.len() - 1;
                sift_up(items, last);
                None
            },
        };
        match refused {
            Some(item) => {
                let mut items = self.spill();
                let mut heap: Vec<Entry> = Vec::new();
                proof {
                    broadcast use vstd::multiset::group_multiset_axioms;

                    assert(heap@.to_multiset() =~= Multiset::<Entry>::empty()) by {
                        heap@.to_multiset_ensures();
                    }
                    assert(heap@.to_multiset().add(items@.to_multiset()) =~= old(self).items());
                }
                while items.len() > 0
                    invariant
                        heap_ordered(heap@),
                        heap@.to_multiset().add(items@.to_multiset()) == old(self).items(),
                    decreases items@.len(),
                {
                    let ghost waiting = items@;
                    let ghost built = heap@;
                    let entry = items.pop().unwrap();
                    heap.push(entry);
                    proof {
                        broadcast use vstd::multiset::group_multiset_axioms;

                        assert(waiting =~= items@.push(entry));
                        vstd::seq_lib::to_multiset_build(items@, entry);
                        vstd::seq_lib::to_multiset_build(built, entry);
                        assert forall|j: int|
                            1 <= j < heap@.len() && j != heap@.len() - 1 implies entry_le(
                            heap@[(j - 1) / 2],
                            #[trigger] heap@[j],
                        ) by {
                            assert(entry_le(built[(j - 1) / 2], built[j]));
                        }
                    }
                    let last = heap.len() - 1;
                    sift_up(&mut heap, last);
                    proof {
                        broadcast use vstd::multiset::group_multiset_axioms;

                        assert(heap@.to_multiset().add(items@.to_multiset()) =~= built.to_multiset().add(
                            waiting.to_multiset(),
                        ));
                    }
                }
                proof {
                    broadcast use vstd::multiset::group_multiset_axioms;

                    assert(items@.to_multiset() =~= Multiset::<Entry>::empty()) by {
                        items@.to_multiset_ensures();
                        vstd::seq_lib::to_multiset_len(items@);
                    }
                    vstd::seq_lib::to_multiset_build(heap@, item);
                    assert(heap@.to_multiset() =~= old(self).items());
                }
                let ghost built = heap@;
                heap.push(item);
                proof {
                    assert forall|j: int|
                        1 <= j < heap@.len() && j != heap@.len() - 1 implies entry_le(
                        heap@[(j - 1) / 2],
                        #[trigger] heap@[j],
                    ) by {
                        assert(entry_le(built[(j - 1) / 2], built[j]));
                    }
                }
                let last = heap.len() - 1;
                sift_up(&mut heap, last);
                *self = SmallHeap::Heap(heap);
            },
            None => {},
        }
    }

    /// Takes all entries out of the queue, into a vector.
    fn spill(&mut self) -> (r: Vec<Entry>)
        ensures
            r@.to_multiset() == old(self).items(),
    {
        let mut taken = SmallHeap::Heap(Vec::new());
        core::mem::swap(self, &mut taken);
        match taken {
            SmallHeap::Stack(heap) => heap_into_vec(heap),
            SmallHeap::Heap(items) => items,
        }
    }
}

} // verus!
