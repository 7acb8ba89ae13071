//! The queue of cells waiting to pass their cluster on, highest level
//! first.

use vstd::prelude::*;

verus! {

/// A cell that belongs to a cluster and is waiting to pass it on.
#[derive(Clone, Copy, Debug)]
pub struct QueueItem {
    pub location: (i32, i32),
    pub density: u32,
    pub cluster: i32,
}

/// The sequence holds the item.
pub open spec fn holds(items: Seq<QueueItem>, item: QueueItem) -> bool {
    exists|i: int| 0 <= i < items.len() && items[i] == item
}

/// No two items of the sequence are for the same cell.
pub open spec fn one_per_cell(items: Seq<QueueItem>) -> bool {
    forall|i: int, j: int| 0 <= i < j < items.len() ==> items[i].location != items[j].location
}

/// The place above the place `i` of a heap.
pub open spec fn above(i: int) -> int {
    (i - 1) / 2
}

/// No item is higher than the item above it, where `skip` is not one of
/// the two.
spec fn ordered_but(items: Seq<QueueItem>, skip: int) -> bool {
    forall|i: int|
        1 <= i < items.len() && i != skip && above(i) != skip ==> (#[trigger] items[i]).density
            <= items[above(i)].density
}

/// No item is higher than the item above it.
spec fn ordered(items: Seq<QueueItem>) -> bool {
    ordered_but(items, -1)
}

/// The sequence with the items at `i` and `j` in each other's place.
spec fn swapped(items: Seq<QueueItem>, i: int, j: int) -> Seq<QueueItem> {
    items.update(i, items[j]).update(j, items[i])
}

/// The two sequences hold the same items, and where no cell has two items
/// in the first, none has in the second.
#[verifier::opaque]
spec fn same_items(a: Seq<QueueItem>, b: Seq<QueueItem>) -> bool {
    &&& a.len() == b.len()
    &&& forall|it: QueueItem| holds(a, it) <==> holds(b, it)
    &&& one_per_cell(a) ==> one_per_cell(b)
}

proof fn lemma_same_items_itself(a: Seq<QueueItem>)
    ensures
        same_items(a, a),
{
    reveal(same_items);
}

proof fn lemma_same_items_chain(a: Seq<QueueItem>, b: Seq<QueueItem>, c: Seq<QueueItem>)
    requires
        same_items(a, b),
        same_items(b, c),
    ensures
        same_items(a, c),
{
    reveal(same_items);
}

/// Two items that change places are both still there, and no cell comes to
/// have two items.
proof fn lemma_swapped(items: Seq<QueueItem>, i: int, j: int)
    requires
        0 <= i < items.len(),
        0 <= j < items.len(),
    ensures
        same_items(items, swapped(items, i, j)),
{
    reveal(same_items);
    let after = swapped(items, i, j);
    let place = |k: int|
        if k == i {
            j
        } else if k == j {
            i
        } else {
            k
        };
    assert forall|k: int| 0 <= k < items.len() implies #[trigger] after[k] == items[place(k)] by {}
    assert forall|k: int| 0 <= k < items.len() implies #[trigger] items[k] == after[place(k)] by {}
    assert forall|it: QueueItem| holds(after, it) <==> holds(items, it) by {
        if holds(after, it) {
            let k = choose|k: int| 0 <= k < after.len() && after[k] == it;
            assert(items[place(k)] == it);
        }
        if holds(items, it) {
            let k = choose|k: int| 0 <= k < items.len() && items[k] == it;
            assert(after[place(k)] == it);
        }
    }
    if one_per_cell(items) {
        assert forall|a: int, b: int| 0 <= a < b < after.len() implies after[a].location
            != after[b].location by {
            let (pa, pb) = (place(a), place(b));
            assert(after[a] == items[pa] && after[b] == items[pb]);
            if pa < pb {
                assert(items[pa].location != items[pb].location);
            } else {
                assert(items[pb].location != items[pa].location);
            }
        }
    }
}

/// The sequence `rest` holds what `before` holds but for `top`, an item of
/// the highest level.
#[verifier::opaque]
spec fn taken(before: Seq<QueueItem>, rest: Seq<QueueItem>, top: QueueItem) -> bool {
    &&& holds(before, top)
    &&& rest.len() == before.len() - 1
    &&& forall|it: QueueItem| holds(before, it) ==> it.density <= top.density
    &&& forall|it: QueueItem| holds(rest, it) ==> holds(before, it)
    &&& forall|it: QueueItem| holds(before, it) && it != top ==> holds(rest, it)
    &&& one_per_cell(before) ==> one_per_cell(rest) && forall|it: QueueItem|
        holds(rest, it) ==> it.location != top.location
}

proof fn lemma_taken_transfers(
    before: Seq<QueueItem>,
    rest: Seq<QueueItem>,
    now: Seq<QueueItem>,
    top: QueueItem,
)
    requires
        taken(before, rest, top),
        same_items(rest, now),
    ensures
        taken(before, now, top),
{
    reveal(same_items);
    reveal(taken);
}

/// The sequence `grown` holds what `before` holds and `item`.
#[verifier::opaque]
spec fn put(before: Seq<QueueItem>, grown: Seq<QueueItem>, item: QueueItem) -> bool {
    &&& grown.len() == before.len() + 1
    &&& forall|it: QueueItem| holds(grown, it) <==> holds(before, it) || it == item
    &&& one_per_cell(before) && (forall|i: int|
        0 <= i < before.len() ==> before[i].location != item.location) ==> one_per_cell(grown)
}

proof fn lemma_put_transfers(
    before: Seq<QueueItem>,
    grown: Seq<QueueItem>,
    now: Seq<QueueItem>,
    item: QueueItem,
)
    requires
        put(before, grown, item),
        same_items(grown, now),
    ensures
        put(before, now, item),
{
    reveal(same_items);
    reveal(put);
}

proof fn lemma_put(before: Seq<QueueItem>, item: QueueItem)
    ensures
        put(before, before.push(item), item),
{
    reveal(put);
    let grown = before.push(item);
    assert forall|it: QueueItem| holds(grown, it) <==> holds(before, it) || it == item by {
        if holds(before, it) {
            let i = choose|i: int| 0 <= i < before.len() && before[i] == it;
            assert(grown[i] == it);
        }
        if it == item {
            assert(grown[before.len() as int] == it);
        }
        if holds(grown, it) {
            let i = choose|i: int| 0 <= i < grown.len() && grown[i] == it;
            if i < before.len() {
                assert(before[i] == it);
            }
        }
    }
    if one_per_cell(before) && (forall|i: int|
        0 <= i < before.len() ==> before[i].location != item.location) {
        assert forall|a: int, b: int| 0 <= a < b < grown.len() implies grown[a].location
            != grown[b].location by {
            if b < before.len() {
                assert(before[a].location != before[b].location);
            }
        }
    }
}

/// Taking the first item of a heap and putting the last in its place
/// leaves what the heap held but for the first item, which was an item of
/// the highest level.
proof fn lemma_taken(before: Seq<QueueItem>)
    requires
        before.len() > 0,
        ordered(before),
    ensures
        taken(before, before.update(0, before.last()).drop_last(), before[0]),
{
    reveal(taken);
    let n = before.len() as int;
    let top = before[0];
    let rest = before.update(0, before.last()).drop_last();
    assert forall|it: QueueItem| holds(before, it) implies it.density <= top.density by {
        let k = choose|k: int| 0 <= k < before.len() && before[k] == it;
        lemma_first_is_highest(before, k);
    }
    assert forall|it: QueueItem| holds(rest, it) implies holds(before, it) by {
        let k = choose|k: int| 0 <= k < rest.len() && rest[k] == it;
        if k == 0 {
            assert(before[n - 1] == it);
        } else {
            assert(before[k] == it);
        }
    }
    assert forall|it: QueueItem| holds(before, it) && it != top implies holds(rest, it) by {
        let k = choose|k: int| 0 <= k < before.len() && before[k] == it;
        if k == n - 1 {
            assert(rest[0] == it);
        } else {
            assert(rest[k] == it);
        }
    }
    if one_per_cell(before) {
        assert forall|a: int, b: int| 0 <= a < b < rest.len() implies rest[a].location
            != rest[b].location by {
            if a == 0 {
                assert(before[b].location != before[n - 1].location);
            } else {
                assert(before[a].location != before[b].location);
            }
        }
        assert forall|it: QueueItem| holds(rest, it) implies it.location != top.location by {
            let k = choose|k: int| 0 <= k < rest.len() && rest[k] == it;
            if k == 0 {
                assert(before[0].location != before[n - 1].location);
            } else {
                assert(before[0].location != before[k].location);
            }
        }
    }
}

/// The items are a heap but for the item at `i`, which may be higher than
/// the item above it; the items below it are no higher than that one.
#[verifier::opaque]
spec fn heap_but_up(items: Seq<QueueItem>, i: int) -> bool {
    &&& forall|k: int|
        1 <= k < items.len() && k != i ==> (#[trigger] items[k]).density <= items[above(k)].density
    &&& forall|k: int|
        1 <= k < items.len() && above(k) == i && i > 0 ==> (#[trigger] items[k]).density
            <= items[above(i)].density
}

/// An item that is higher than the item above it changes places with it.
proof fn lemma_sift_up(items: Seq<QueueItem>, i: int)
    requires
        0 < i < items.len(),
        heap_but_up(items, i),
        items[above(i)].density < items[i].density,
    ensures
        heap_but_up(swapped(items, i, above(i)), above(i)),
{
    reveal(heap_but_up);
    let up = above(i);
    let after = swapped(items, i, up);
    assert forall|k: int| 1 <= k < after.len() && k != up implies (#[trigger] after[k]).density
        <= after[above(k)].density by {
        if k == i {
        } else if above(k) == i {
            assert(items[k].density <= items[above(i)].density);
        } else if above(k) == up {
            assert(items[k].density <= items[up].density);
        } else {
            assert(items[k].density <= items[above(k)].density);
        }
    }
    assert forall|k: int| 1 <= k < after.len() && above(k) == up && up > 0 implies (
    #[trigger] after[k]).density <= after[above(up)].density by {
        assert(items[up].density <= items[above(up)].density);
        if k != i {
            assert(items[k].density <= items[up].density);
        }
    }
}

/// An item that is no higher than the item above it is in its place.
proof fn lemma_sift_up_done(items: Seq<QueueItem>, i: int)
    requires
        0 <= i < items.len(),
        heap_but_up(items, i),
        i > 0 ==> items[i].density <= items[above(i)].density,
    ensures
        ordered(items),
{
    reveal(heap_but_up);
    assert forall|k: int| 1 <= k < items.len() implies (#[trigger] items[k]).density
        <= items[above(k)].density by {}
}

/// The items are a heap but for the item at `i`, which may be lower than
/// the items below it; those are no higher than the item above it.
#[verifier::opaque]
spec fn heap_but_down(items: Seq<QueueItem>, i: int) -> bool {
    &&& forall|k: int|
        1 <= k < items.len() && above(k) != i ==> (#[trigger] items[k]).density
            <= items[above(k)].density
    &&& forall|k: int|
        1 <= k < items.len() && above(k) == i && i > 0 ==> (#[trigger] items[k]).density
            <= items[above(i)].density
}

/// An item that is lower than the highest of the items below it changes
/// places with that one.
proof fn lemma_sift_down(items: Seq<QueueItem>, i: int, highest: int)
    requires
        0 <= i < items.len(),
        heap_but_down(items, i),
        highest == 2 * i + 1 || highest == 2 * i + 2,
        highest < items.len(),
        items[i].density < items[highest].density,
        items[2 * i + 1].density <= items[highest].density,
        2 * i + 2 < items.len() ==> items[2 * i + 2].density <= items[highest].density,
    ensures
        heap_but_down(swapped(items, i, highest), highest),
{
    reveal(heap_but_down);
    let after = swapped(items, i, highest);
    assert forall|k: int| 1 <= k < after.len() && above(k) != highest implies (
    #[trigger] after[k]).density <= after[above(k)].density by {
        if k == i {
            assert(items[highest].density <= items[above(i)].density);
        } else if above(k) == i {
            assert(k == 2 * i + 1 || k == 2 * i + 2);
        } else {
            assert(items[k].density <= items[above(k)].density);
        }
    }
    assert forall|k: int| 1 <= k < after.len() && above(k) == highest implies (
    #[trigger] after[k]).density <= after[above(highest)].density by {
        assert(items[k].density <= items[highest].density);
    }
}

/// An item that is no lower than the items below it is in its place.
proof fn lemma_sift_done(items: Seq<QueueItem>, i: int)
    requires
        0 <= i,
        heap_but_down(items, i),
        2 * i + 1 < items.len() ==> items[2 * i + 1].density <= items[i].density,
        2 * i + 2 < items.len() ==> items[2 * i + 2].density <= items[i].density,
    ensures
        ordered(items),
{
    reveal(heap_but_down);
    assert forall|k: int| 1 <= k < items.len() implies (#[trigger] items[k]).density
        <= items[above(k)].density by {
        if above(k) == i {
            assert(k == 2 * i + 1 || k == 2 * i + 2);
        }
    }
}

/// In a heap no item is higher than the first.
proof fn lemma_first_is_highest(items: Seq<QueueItem>, i: int)
    requires
        ordered(items),
        0 <= i < items.len(),
    ensures
        items[i].density <= items[0].density,
    decreases i,
{
    if i > 0 {
        lemma_first_is_highest(items, above(i));
    }
}

/// A queue that hands out an item of the highest level it holds. The items
/// are kept as a heap: none is higher than the item above it.
pub struct DensityQueue {
    items: Vec<QueueItem>,
}

impl View for DensityQueue {
    type V = Seq<QueueItem>;

    /// The items in the queue, in no order that matters.
    closed spec fn view(&self) -> Seq<QueueItem> {
        self.items@
    }
}

impl DensityQueue {
    /// The items are kept as a heap.
    pub closed spec fn wf(&self) -> bool {
        ordered(self.items@)
    }

    /// The empty queue.
    pub fn new() -> (r: DensityQueue)
        ensures
            r.wf(),
            r@.len() == 0,
    {
        DensityQueue { items: Vec::new() }
    }

    /// How many items are waiting.
    pub fn len(&self) -> (r: usize)
        ensures
            r == self@.len(),
    {
        self.items.len()
    }

    /// Puts `item` into the queue.
    pub fn push(&mut self, item: QueueItem)
        requires
            old(self).wf(),
        ensures
            final(self).wf(),
            final(self)@.len() == old(self)@.len() + 1,
            forall|it: QueueItem| holds(final(self)@, it) <==> holds(old(self)@, it) || it == item,
            one_per_cell(old(self)@) && (forall|i: int|
                0 <= i < old(self)@.len() ==> old(self)@[i].location != item.location)
                ==> one_per_cell(final(self)@),
    {
        let ghost before = self.items@;
        self.items.push(item);
        let ghost grown = self.items@;
        proof {
            lemma_put(before, item);
            lemma_same_items_itself(grown);
            assert(heap_but_up(grown, grown.len() - 1)) by {
                reveal(heap_but_up);
                assert forall|k: int| 1 <= k < grown.len() && k != grown.len() - 1 implies (
                #[trigger] grown[k]).density <= grown[above(k)].density by {
                    assert(before[k].density <= before[above(k)].density);
                }
            }
        }
        let mut i: usize = self.items.len() - 1;
        while i > 0 && self.items[(i - 1) / 2].density < self.items[i].density
            invariant
                0 <= i < self.items@.len(),
                same_items(grown, self.items@),
                heap_but_up(self.items@, i as int),
            decreases i,
        {
            let up = (i - 1) / 2;
            let ghost prior = self.items@;
            let lower = self.items[up];
            let higher = self.items[i];
            self.items[up] = higher;
            self.items[i] = lower;
            proof {
                assert(self.items@ =~= swapped(prior, i as int, up as int));
                lemma_swapped(prior, i as int, up as int);
                lemma_same_items_chain(grown, prior, self.items@);
                lemma_sift_up(prior, i as int);
            }
            i = up;
        }
        proof {
            lemma_sift_up_done(self.items@, i as int);
            lemma_put_transfers(before, grown, self.items@, item);
            reveal(put);
        }
    }

    /// Takes an item of the highest level out of the queue. `None` where
    /// the queue is empty.
    pub fn pop(&mut self) -> (r: Option<QueueItem>)
        requires
            old(self).wf(),
        ensures
            final(self).wf(),
            match r {
                Some(top) => {
                    &&& holds(old(self)@, top)
                    &&& final(self)@.len() == old(self)@.len() - 1
                    &&& forall|it: QueueItem| holds(old(self)@, it) ==> it.density <= top.density
                    &&& forall|it: QueueItem| holds(final(self)@, it) ==> holds(old(self)@, it)
                    &&& forall|it: QueueItem|
                        holds(old(self)@, it) && it != top ==> holds(final(self)@, it)
                    &&& one_per_cell(old(self)@) ==> one_per_cell(final(self)@) && forall|
                        it: QueueItem,
                    |
                        holds(final(self)@, it) ==> it.location != top.location
                },
                None => old(self)@.len() == 0 && final(self)@ == old(self)@,
            },
    {
        let ghost before = self.items@;
        let n = self.items.len();
        if n == 0 {
            return None;
        }
        let top = self.items[0];
        let last = self.items[n - 1];
        self.items[0] = last;
        self.items.pop();
        let ghost rest = self.items@;
        proof {
            assert(rest =~= before.update(0, before.last()).drop_last());
            lemma_taken(before);
            lemma_same_items_itself(rest);
            assert(heap_but_down(rest, 0)) by {
                reveal(heap_but_down);
                assert forall|k: int| 1 <= k < rest.len() && above(k) != 0 implies (
                #[trigger] rest[k]).density <= rest[above(k)].density by {
                    assert(before[k].density <= before[above(k)].density);
                }
            }
        }
        let len = self.items.len();
        let mut i: usize = 0;
        loop
            invariant
                len == self.items@.len(),
                0 <= i <= len,
                same_items(rest, self.items@),
                heap_but_down(self.items@, i as int),
            ensures
                ordered(self.items@),
                same_items(rest, self.items@),
            decreases len - i,
        {
            if i >= len / 2 {
                // The place has nothing below it.
                proof {
                    lemma_sift_done(self.items@, i as int);
                }
                break ;
            }
            let left = 2 * i + 1;
            let right = left + 1;
            let mut highest = i;
            if self.items[left].density > self.items[highest].density {
                highest = left;
            }
            if right < len && self.items[right].density > self.items[highest].density {
                highest = right;
            }
            if highest == i {
                proof {
                    lemma_sift_done(self.items@, i as int);
                }
                break ;
            }
            let ghost prior = self.items@;
            let lower = self.items[i];
            let higher = self.items[highest];
            self.items[i] = higher;
            self.items[highest] = lower;
            proof {
                assert(self.items@ =~= swapped(prior, i as int, highest as int));
                lemma_swapped(prior, i as int, highest as int);
                lemma_same_items_chain(rest, prior, self.items@);
                lemma_sift_down(prior, i as int, highest as int);
            }
            i = highest;
        }
        proof {
            lemma_taken_transfers(before, rest, self.items@, top);
            reveal(taken);
        }
        Some(top)
    }
}

} // verus!
