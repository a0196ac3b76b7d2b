//! Weighted reservoir sampling: one pass over a stream of items, each with a
//! priority, keeping the `k` items of smallest priority in a bounded max-heap.

use vstd::prelude::*;

verus! {

/// Where priorities come from. For an item of weight `w` a source draws
/// `-ln(u + e) / (w + 1)`, with `u` uniform in the unit interval and `e` the
/// machine epsilon, and hands it out as the key that orders as the drawn
/// number does (see `order_key`): the smaller the priority, the sooner the
/// item is kept.
pub trait PrioritySource {
    /// Draws the priority of one item of the given weight.
    fn draw(&mut self, weight: u64) -> u64;
}

/// The bit that holds the sign of a double-precision number.
pub const SIGN_BIT: u64 = 0x8000_0000_0000_0000;

/// Whether the bits of a double-precision number have the sign set.
pub open spec fn has_sign(bits: u64) -> bool {
    bits >= SIGN_BIT
}

/// The bits of a double-precision number without its sign.
pub open spec fn magnitude(bits: u64) -> int {
    if has_sign(bits) {
        bits - SIGN_BIT
    } else {
        bits as int
    }
}

/// The total order of double-precision numbers, on their bits: a number with
/// the sign set comes before one without; of two without the sign the one of
/// smaller magnitude comes first, of two with the sign the one of larger
/// magnitude.
pub open spec fn total_order_lt(a: u64, b: u64) -> bool {
    if has_sign(a) {
        !has_sign(b) || magnitude(a) > magnitude(b)
    } else {
        !has_sign(b) && magnitude(a) < magnitude(b)
    }
}

/// The key of a double-precision number, given by its bits.
pub open spec fn key_of(bits: u64) -> u64 {
    if has_sign(bits) {
        (u64::MAX - bits) as u64
    } else {
        (bits + SIGN_BIT) as u64
    }
}

/// Keys order as the numbers do in their total order, and tell them apart.
pub proof fn lemma_keys_order(a: u64, b: u64)
    ensures
        key_of(a) < key_of(b) <==> total_order_lt(a, b),
        key_of(a) == key_of(b) <==> a == b,
{
}

/// The key of a double-precision number, given by its bits: an integer that
/// orders as the number does in the total order of such numbers.
pub fn order_key(bits: u64) -> (key: u64)
    ensures
        key == key_of(bits),
{
    if bits >= SIGN_BIT {
        u64::MAX - bits
    } else {
        bits + SIGN_BIT
    }
}

/// One node of the heap: a priority and the slot that holds its item.
#[derive(Clone, Copy)]
pub struct HeapEntry {
    pub priority: u64,
    pub slot: usize,
}

/// The parent of a node of the heap.
pub open spec fn parent(j: int) -> int {
    (j - 1) / 2
}

/// Every node's priority is at most its parent's.
pub open spec fn is_max_heap(h: Seq<HeapEntry>) -> bool {
    forall|j: int| 1 <= j < h.len() ==> (#[trigger] h[j]).priority <= h[parent(j)].priority
}

/// The root of a max-heap holds the largest priority.
pub proof fn lemma_root_is_largest(h: Seq<HeapEntry>, i: int)
    requires
        is_max_heap(h),
        0 <= i < h.len(),
    ensures
        h[i].priority <= h[0].priority,
    decreases i,
{
    if i > 0 {
        lemma_root_is_largest(h, parent(i));
    }
}

/// Some node holds the slot.
pub open spec fn holds_slot(h: Seq<HeapEntry>, s: int) -> bool {
    exists|i: int| 0 <= i < h.len() && (#[trigger] h[i]).slot == s
}

/// Every slot below `n` is held by some node.
pub open spec fn covers_slots(h: Seq<HeapEntry>, n: int) -> bool {
    forall|s: int| 0 <= s < n ==> #[trigger] holds_slot(h, s)
}

/// What was picked from a stream: `picks` are positions in the stream, no
/// position twice, as many as the stream or the limit `k` allows, and `chosen`
/// are the items at these positions.
pub open spec fn picks_from<T>(items: Seq<T>, k: nat, picks: Seq<int>, chosen: Seq<T>) -> bool {
    &&& picks.len() == if items.len() <= k { items.len() } else { k }
    &&& chosen.len() == picks.len()
    &&& forall|i: int|
        0 <= i < picks.len() ==> 0 <= #[trigger] picks[i] < items.len() && chosen[i]
            == items[picks[i]]
    &&& forall|i: int, j: int|
        0 <= i < j < picks.len() ==> #[trigger] picks[i] != #[trigger] picks[j]
}

/// The picks are the items of smallest priority: no item left out has a
/// smaller priority than an item picked.
pub open spec fn picks_smallest(priorities: Seq<u64>, picks: Seq<int>) -> bool {
    forall|i: int, u: int|
        0 <= i < picks.len() && 0 <= u < priorities.len() && !picks.contains(u)
            ==> priorities[#[trigger] picks[i]] <= #[trigger] priorities[u]
}

/// None of the items picked has a priority larger than `priority`.
pub open spec fn holds_none_larger(priorities: Seq<u64>, picks: Seq<int>, priority: u64) -> bool {
    forall|i: int| 0 <= i < picks.len() ==> priorities[#[trigger] picks[i]] <= priority
}

/// The item at `slot` has the largest priority among the items picked.
pub open spec fn is_largest_held(priorities: Seq<u64>, picks: Seq<int>, slot: int) -> bool {
    0 <= slot < picks.len() && holds_none_larger(priorities, picks, priorities[picks[slot]])
}

/// How the picks follow when one more item comes with its priority. While
/// fewer than `capacity` items are held, the item is picked too. Once
/// `capacity` items are held, an item whose priority is not smaller than the
/// largest held is dropped, and any other item takes the place of an item of
/// largest priority.
pub open spec fn picks_follow<T>(
    priorities: Seq<u64>,
    picks: Seq<int>,
    chosen: Seq<T>,
    capacity: nat,
    item: T,
    priority: u64,
    new_picks: Seq<int>,
    new_chosen: Seq<T>,
) -> bool {
    if chosen.len() < capacity {
        new_picks == picks.push(priorities.len() as int) && new_chosen == chosen.push(item)
    } else if holds_none_larger(priorities, picks, priority) {
        new_picks == picks && new_chosen == chosen
    } else {
        exists|slot: int| #[trigger]
            is_largest_held(priorities, picks, slot) && new_picks == picks.update(
                slot,
                priorities.len() as int,
            ) && new_chosen == chosen.update(slot, item)
    }
}

/// A reservoir of at most `capacity` items, fed one item at a time.
pub struct Reservoir<T> {
    heap: Vec<HeapEntry>,
    items: Vec<T>,
    capacity: usize,
    offered: Ghost<Seq<T>>,
    priorities: Ghost<Seq<u64>>,
    picks: Ghost<Seq<int>>,
}

/// Swaps two nodes of the heap.
fn swap_entries(heap: &mut Vec<HeapEntry>, i: usize, j: usize)
    requires
        i < old(heap)@.len(),
        j < old(heap)@.len(),
    ensures
        final(heap)@ == old(heap)@.update(i as int, old(heap)@[j as int]).update(
            j as int,
            old(heap)@[i as int],
        ),
{
    let a = heap[i];
    let b = heap[j];
    heap.set(i, b);
    heap.set(j, a);
}

/// What swapping two nodes keeps: the slots held and the nodes' contents.
proof fn lemma_swap_keeps_slots(h: Seq<HeapEntry>, i: int, j: int, n: int)
    requires
        0 <= i < h.len(),
        0 <= j < h.len(),
        covers_slots(h, n),
    ensures
        covers_slots(h.update(i, h[j]).update(j, h[i]), n),
{
    let g = h.update(i, h[j]).update(j, h[i]);
    assert forall|s: int| 0 <= s < n implies #[trigger] holds_slot(g, s) by {
        assert(holds_slot(h, s));
        let x = choose|x: int| 0 <= x < h.len() && (#[trigger] h[x]).slot == s;
        if x == i {
            assert(g[j].slot == s);
        } else if x == j {
            assert(g[i].slot == s);
        } else {
            assert(g[x].slot == s);
        }
    }
}

/// Restores the heap order after the last node was added: the node rises
/// while it is larger than its parent.
fn sift_up(heap: &mut Vec<HeapEntry>, Ghost(n): Ghost<int>)
    requires
        old(heap)@.len() > 0,
        is_max_heap(old(heap)@.drop_last()),
        covers_slots(old(heap)@, n),
    ensures
        is_max_heap(final(heap)@),
        final(heap)@.len() == old(heap)@.len(),
        covers_slots(final(heap)@, n),
        forall|i: int| 0 <= i < final(heap)@.len() ==> old(heap)@.contains(#[trigger] final(heap)@[i]),
{
    let mut cur: usize = heap.len() - 1;
    proof {
        assert forall|j: int| 1 <= j < heap@.len() && j != cur implies (#[trigger] heap@[j]).priority
            <= heap@[parent(j)].priority by {
            assert(heap@.drop_last()[j] == heap@[j]);
            assert(heap@.drop_last()[parent(j)] == heap@[parent(j)]);
        }
    }
    while cur > 0 && heap[(cur - 1) / 2].priority < heap[cur].priority
        invariant
            cur < heap@.len(),
            heap@.len() == old(heap)@.len(),
            covers_slots(heap@, n),
            forall|i: int| 0 <= i < heap@.len() ==> old(heap)@.contains(#[trigger] heap@[i]),
            forall|j: int|
                1 <= j < heap@.len() && j != cur ==> (#[trigger] heap@[j]).priority
                    <= heap@[parent(j)].priority,
            forall|c: int|
                1 <= c < heap@.len() && parent(c) == cur && cur > 0 ==> (#[trigger] heap@[c]).priority
                    <= heap@[parent(cur as int)].priority,
        decreases cur,
    {
        let up: usize = (cur - 1) / 2;
        let ghost before = heap@;
        proof {
            lemma_swap_keeps_slots(before, cur as int, up as int, n);
        }
        swap_entries(heap, cur, up);
        proof {
            assert forall|i: int| 0 <= i < heap@.len() implies old(heap)@.contains(
                #[trigger] heap@[i],
            ) by {
                if i == cur {
                    assert(heap@[i] == before[up as int]);
                } else if i == up {
                    assert(heap@[i] == before[cur as int]);
                } else {
                    assert(heap@[i] == before[i]);
                }
            }
            assert forall|j: int| 1 <= j < heap@.len() && j != up implies (#[trigger] heap@[j]).priority
                <= heap@[parent(j)].priority by {
                if j == cur {
                } else if parent(j) == up {
                    assert(before[j].priority <= before[up as int].priority);
                } else if parent(j) == cur {
                    assert(before[j].priority <= before[parent(cur as int)].priority);
                } else {
                    assert(before[j].priority <= before[parent(j)].priority);
                }
            }
            assert forall|c: int|
                1 <= c < heap@.len() && parent(c) == up && up > 0 implies (#[trigger] heap@[c]).priority
                    <= heap@[parent(up as int)].priority by {
                assert(before[up as int].priority <= before[parent(up as int)].priority);
                if c != cur {
                    assert(before[c].priority <= before[up as int].priority);
                }
            }
        }
        cur = up;
    }
}

/// Restores the heap order after the root was replaced: the node sinks while
/// one of its children is larger.
fn sift_down(heap: &mut Vec<HeapEntry>, Ghost(n): Ghost<int>)
    requires
        old(heap)@.len() > 0,
        forall|j: int|
            1 <= j < old(heap)@.len() && parent(j) != 0 ==> (#[trigger] old(heap)@[j]).priority <= old(
                heap,
            )@[parent(j)].priority,
        covers_slots(old(heap)@, n),
    ensures
        is_max_heap(final(heap)@),
        final(heap)@.len() == old(heap)@.len(),
        covers_slots(final(heap)@, n),
        forall|i: int| 0 <= i < final(heap)@.len() ==> old(heap)@.contains(#[trigger] final(heap)@[i]),
{
    let len: usize = heap.len();
    let mut cur: usize = 0;
    loop
        invariant
            len == heap@.len(),
            cur < len,
            heap@.len() == old(heap)@.len(),
            covers_slots(heap@, n),
            forall|i: int| 0 <= i < heap@.len() ==> old(heap)@.contains(#[trigger] heap@[i]),
            forall|j: int|
                1 <= j < heap@.len() && parent(j) != cur ==> (#[trigger] heap@[j]).priority
                    <= heap@[parent(j)].priority,
            forall|c: int|
                1 <= c < heap@.len() && parent(c) == cur && cur > 0 ==> (#[trigger] heap@[c]).priority
                    <= heap@[parent(cur as int)].priority,
        ensures
            is_max_heap(heap@),
            heap@.len() == old(heap)@.len(),
            covers_slots(heap@, n),
            forall|i: int| 0 <= i < heap@.len() ==> old(heap)@.contains(#[trigger] heap@[i]),
        decreases len - cur,
    {
        if cur >= len / 2 {
            // no child
            assert forall|j: int| 1 <= j < heap@.len() implies (#[trigger] heap@[j]).priority
                <= heap@[parent(j)].priority by {
                assert(parent(j) != cur);
            }
            break;
        }
        let left: usize = 2 * cur + 1;
        let right: usize = left + 1;
        let mut large: usize = left;
        if right < len && heap[right].priority > heap[left].priority {
            large = right;
        }
        if heap[large].priority <= heap[cur].priority {
            assert forall|j: int| 1 <= j < heap@.len() implies (#[trigger] heap@[j]).priority
                <= heap@[parent(j)].priority by {
                if parent(j) == cur {
                    assert(j == left || j == right);
                }
            }
            break;
        }
        let ghost before = heap@;
        proof {
            lemma_swap_keeps_slots(before, cur as int, large as int, n);
        }
        swap_entries(heap, cur, large);
        proof {
            assert forall|i: int| 0 <= i < heap@.len() implies old(heap)@.contains(
                #[trigger] heap@[i],
            ) by {
                if i == cur {
                    assert(heap@[i] == before[large as int]);
                } else if i == large {
                    assert(heap@[i] == before[cur as int]);
                } else {
                    assert(heap@[i] == before[i]);
                }
            }
            assert forall|j: int| 1 <= j < heap@.len() && parent(j) != large implies (
            #[trigger] heap@[j]).priority <= heap@[parent(j)].priority by {
                if j == cur {
                    assert(before[large as int].priority <= before[parent(cur as int)].priority);
                } else if parent(j) == cur {
                    assert(j == left || j == right);
                } else {
                    assert(before[j].priority <= before[parent(j)].priority);
                }
            }
            assert forall|c: int|
                1 <= c < heap@.len() && parent(c) == large && large > 0 implies (
                #[trigger] heap@[c]).priority <= heap@[parent(large as int)].priority by {
                assert(before[c].priority <= before[large as int].priority);
            }
        }
        cur = large;
    }
}

/// Each node stands for the item in its slot: the slot exists, and the node's
/// priority is the one with which that item was offered.
pub open spec fn nodes_match(heap: Seq<HeapEntry>, slots: int, priorities: Seq<u64>, picks: Seq<int>) -> bool {
    forall|i: int|
        0 <= i < heap.len() ==> (#[trigger] heap[i]).slot < slots && 0 <= picks[heap[i].slot as int]
            < priorities.len() && priorities[picks[heap[i].slot as int]] == heap[i].priority
}

/// What holds of a reservoir between two offers.
pub open spec fn reservoir_inv<T>(
    heap: Seq<HeapEntry>,
    items: Seq<T>,
    capacity: nat,
    offered: Seq<T>,
    priorities: Seq<u64>,
    picks: Seq<int>,
) -> bool {
    &&& heap.len() == items.len()
    &&& picks.len() == items.len()
    &&& items.len() <= capacity
    &&& offered.len() == priorities.len()
    &&& is_max_heap(heap)
    &&& covers_slots(heap, items.len() as int)
    &&& nodes_match(heap, items.len() as int, priorities, picks)
    &&& picks.len() < capacity ==> forall|s: int| 0 <= s < picks.len() ==> #[trigger] picks[s] == s
    &&& picks_from(offered, capacity, picks, items)
    &&& picks_smallest(priorities, picks)
}

/// No item held has a larger priority than the root.
proof fn lemma_root_bounds_picks<T>(
    heap: Seq<HeapEntry>,
    items: Seq<T>,
    capacity: nat,
    offered: Seq<T>,
    priorities: Seq<u64>,
    picks: Seq<int>,
)
    requires
        reservoir_inv(heap, items, capacity, offered, priorities, picks),
        heap.len() > 0,
    ensures
        forall|s: int| 0 <= s < picks.len() ==> priorities[#[trigger] picks[s]] <= heap[0].priority,
{
    assert forall|s: int| 0 <= s < picks.len() implies priorities[#[trigger] picks[s]]
        <= heap[0].priority by {
        assert(holds_slot(heap, s));
        let x = choose|x: int| 0 <= x < heap.len() && (#[trigger] heap[x]).slot == s;
        lemma_root_is_largest(heap, x);
    }
}

/// Adding a node for a new slot covers that slot too.
proof fn lemma_push_covers(heap: Seq<HeapEntry>, n: int, entry: HeapEntry)
    requires
        covers_slots(heap, n),
        entry.slot == n,
    ensures
        covers_slots(heap.push(entry), n + 1),
{
    let h = heap.push(entry);
    assert forall|s: int| 0 <= s < n + 1 implies #[trigger] holds_slot(h, s) by {
        if s < n {
            assert(holds_slot(heap, s));
            let x = choose|x: int| 0 <= x < heap.len() && (#[trigger] heap[x]).slot == s;
            assert(h[x].slot == s);
        } else {
            assert(h[heap.len() as int].slot == s);
        }
    }
}

/// Giving the root another priority keeps the slots covered.
proof fn lemma_update_covers(heap: Seq<HeapEntry>, n: int, entry: HeapEntry)
    requires
        covers_slots(heap, n),
        heap.len() > 0,
        entry.slot == heap[0].slot,
    ensures
        covers_slots(heap.update(0, entry), n),
{
    let h = heap.update(0, entry);
    assert forall|s: int| 0 <= s < n implies #[trigger] holds_slot(h, s) by {
        assert(holds_slot(heap, s));
        let x = choose|x: int| 0 <= x < heap.len() && (#[trigger] heap[x]).slot == s;
        assert(h[x].slot == s);
    }
}

/// The state after an item was kept in a reservoir that was not full.
proof fn lemma_kept<T>(
    heap: Seq<HeapEntry>,
    items: Seq<T>,
    capacity: nat,
    offered: Seq<T>,
    priorities: Seq<u64>,
    picks: Seq<int>,
    item: T,
    priority: u64,
    sifted: Seq<HeapEntry>,
)
    requires
        reservoir_inv(heap, items, capacity, offered, priorities, picks),
        items.len() < capacity,
        is_max_heap(sifted),
        sifted.len() == heap.len() + 1,
        covers_slots(sifted, items.len() as int + 1),
        forall|i: int|
            0 <= i < sifted.len() ==> heap.push(HeapEntry { priority, slot: items.len() as usize })
                .contains(#[trigger] sifted[i]),
        items.len() <= usize::MAX,
    ensures
        reservoir_inv(
            sifted,
            items.push(item),
            capacity,
            offered.push(item),
            priorities.push(priority),
            picks.push(offered.len() as int),
        ),
{
    let n = offered.len() as int;
    let pushed = heap.push(HeapEntry { priority, slot: items.len() as usize });
    let new_picks = picks.push(n);
    let new_prios = priorities.push(priority);
    assert(picks.len() == n);
    assert forall|i: int| 0 <= i < sifted.len() implies (#[trigger] sifted[i]).slot < items.len() + 1
        && 0 <= new_picks[sifted[i].slot as int] < new_prios.len()
        && new_prios[new_picks[sifted[i].slot as int]] == sifted[i].priority by {
        let e = sifted[i];
        assert(pushed.contains(e));
        let j = choose|j: int| 0 <= j < pushed.len() && pushed[j] == e;
        if j < heap.len() {
            assert(pushed[j] == heap[j]);
        }
    }
    assert forall|u: int| 0 <= u < new_prios.len() implies new_picks.contains(u) by {
        assert(new_picks[u] == u);
    }
}

/// The state after an item took the place of the item of largest priority.
proof fn lemma_replaced<T>(
    heap: Seq<HeapEntry>,
    items: Seq<T>,
    capacity: nat,
    offered: Seq<T>,
    priorities: Seq<u64>,
    picks: Seq<int>,
    item: T,
    priority: u64,
    sifted: Seq<HeapEntry>,
)
    requires
        reservoir_inv(heap, items, capacity, offered, priorities, picks),
        items.len() == capacity,
        capacity > 0,
        priority < heap[0].priority,
        is_max_heap(sifted),
        sifted.len() == heap.len(),
        covers_slots(sifted, items.len() as int),
        forall|i: int|
            0 <= i < sifted.len() ==> heap.update(0, HeapEntry { priority, slot: heap[0].slot })
                .contains(#[trigger] sifted[i]),
    ensures
        reservoir_inv(
            sifted,
            items.update(heap[0].slot as int, item),
            capacity,
            offered.push(item),
            priorities.push(priority),
            picks.update(heap[0].slot as int, offered.len() as int),
        ),
{
    let n = offered.len() as int;
    let slot = heap[0].slot as int;
    let replaced = heap.update(0, HeapEntry { priority, slot: heap[0].slot });
    let new_picks = picks.update(slot, n);
    let new_prios = priorities.push(priority);
    let new_items = items.update(slot, item);
    let out = picks[slot];
    lemma_root_bounds_picks(heap, items, capacity, offered, priorities, picks);
    assert forall|i: int| 0 <= i < sifted.len() implies (#[trigger] sifted[i]).slot < items.len()
        && 0 <= new_picks[sifted[i].slot as int] < new_prios.len()
        && new_prios[new_picks[sifted[i].slot as int]] == sifted[i].priority by {
        let e = sifted[i];
        assert(replaced.contains(e));
        let j = choose|j: int| 0 <= j < replaced.len() && replaced[j] == e;
        if j > 0 {
            assert(replaced[j] == heap[j]);
            if heap[j].slot == slot {
                lemma_slots_differ(heap, items.len() as int, 0, j);
            }
        }
    }
    assert forall|i: int, u: int|
        0 <= i < new_picks.len() && 0 <= u < new_prios.len() && !new_picks.contains(u) implies new_prios[
    #[trigger] new_picks[i]] <= #[trigger] new_prios[u] by {
        assert(u != n) by {
            assert(new_picks[slot] == n);
        }
        if u == out {
            if i != slot {
                assert(priorities[picks[i]] <= heap[0].priority);
            }
        } else {
            assert(!picks.contains(u)) by {
                if picks.contains(u) {
                    let w = choose|w: int| 0 <= w < picks.len() && picks[w] == u;
                    assert(new_picks[w] == u);
                }
            }
            assert(priorities[picks[slot]] <= priorities[u]);
            if i != slot {
                assert(priorities[picks[i]] <= priorities[u]);
            }
        }
    }
    assert(picks_from(offered.push(item), capacity, new_picks, new_items)) by {
        assert forall|i: int| 0 <= i < new_picks.len() implies 0 <= #[trigger] new_picks[i]
            < offered.push(item).len() && new_items[i] == offered.push(item)[new_picks[i]] by {
            if i != slot {
                assert(0 <= picks[i] < offered.len());
            }
        }
        assert forall|i: int, j: int| 0 <= i < j < new_picks.len() implies #[trigger] new_picks[i]
            != #[trigger] new_picks[j] by {
            assert(0 <= picks[i] < offered.len());
            assert(0 <= picks[j] < offered.len());
        }
    }
}

/// The state after an item was dropped by a full reservoir.
proof fn lemma_dropped<T>(
    heap: Seq<HeapEntry>,
    items: Seq<T>,
    capacity: nat,
    offered: Seq<T>,
    priorities: Seq<u64>,
    picks: Seq<int>,
    item: T,
    priority: u64,
)
    requires
        reservoir_inv(heap, items, capacity, offered, priorities, picks),
        items.len() == capacity,
        capacity > 0 ==> priority >= heap[0].priority,
    ensures
        reservoir_inv(heap, items, capacity, offered.push(item), priorities.push(priority), picks),
{
    let n = offered.len() as int;
    let new_prios = priorities.push(priority);
    if capacity > 0 {
        lemma_root_bounds_picks(heap, items, capacity, offered, priorities, picks);
    }
    assert forall|i: int, u: int|
        0 <= i < picks.len() && 0 <= u < new_prios.len() && !picks.contains(u) implies new_prios[
    #[trigger] picks[i]] <= #[trigger] new_prios[u] by {
        assert(0 <= picks[i] < offered.len());
        if u < n {
            assert(priorities[picks[i]] <= priorities[u]);
        }
    }
    assert(nodes_match(heap, items.len() as int, new_prios, picks));
    assert(picks_from(offered.push(item), capacity, picks, items)) by {
        assert forall|i: int| 0 <= i < picks.len() implies 0 <= #[trigger] picks[i] < offered.push(
            item,
        ).len() && items[i] == offered.push(item)[picks[i]] by {
            assert(0 <= picks[i] < offered.len());
        }
    }
}

impl<T> Reservoir<T> {
    /// The items offered so far, in the order in which they came.
    pub closed spec fn offered(&self) -> Seq<T> {
        self.offered@
    }

    /// The priorities of the items offered so far.
    pub closed spec fn priorities(&self) -> Seq<u64> {
        self.priorities@
    }

    /// The positions, in the stream, of the items now held.
    pub closed spec fn picks(&self) -> Seq<int> {
        self.picks@
    }

    /// The items now held.
    pub closed spec fn chosen(&self) -> Seq<T> {
        self.items@
    }

    /// The largest number of items held.
    pub closed spec fn capacity(&self) -> nat {
        self.capacity as nat
    }

    /// The reservoir is well formed: its nodes are in heap order, each node
    /// stands for one of the items held, and the items held are the picks.
    pub closed spec fn wf(&self) -> bool {
        reservoir_inv(
            self.heap@,
            self.items@,
            self.capacity as nat,
            self.offered@,
            self.priorities@,
            self.picks@,
        )
    }

    /// What a well-formed reservoir holds is a pick of the smallest priorities.
    pub proof fn lemma_holds_smallest(&self)
        requires
            self.wf(),
        ensures
            self.offered().len() == self.priorities().len(),
            picks_from(self.offered(), self.capacity(), self.picks(), self.chosen()),
            picks_smallest(self.priorities(), self.picks()),
    {
    }

    /// An empty reservoir for at most `capacity` items.
    pub fn new(capacity: usize) -> (reservoir: Self)
        ensures
            reservoir.wf(),
            reservoir.capacity() == capacity,
            reservoir.offered() == Seq::<T>::empty(),
            reservoir.priorities() == Seq::<u64>::empty(),
            reservoir.picks() == Seq::<int>::empty(),
            reservoir.chosen() == Seq::<T>::empty(),
    {
        Reservoir {
            heap: Vec::new(),
            items: Vec::new(),
            capacity,
            offered: Ghost(Seq::empty()),
            priorities: Ghost(Seq::empty()),
            picks: Ghost(Seq::empty()),
        }
    }

    /// The number of items held.
    pub fn len(&self) -> (n: usize)
        ensures
            n == self.chosen().len(),
    {
        self.items.len()
    }

    /// Offers the next item of the stream. While the reservoir is not full the
    /// item is kept. Afterwards it takes the place of an item of largest
    /// priority, if its own priority is smaller than that; an item whose
    /// priority is not smaller than the largest held is dropped.
    pub fn offer(&mut self, item: T, priority: u64)
        requires
            old(self).wf(),
        ensures
            final(self).wf(),
            final(self).capacity() == old(self).capacity(),
            final(self).offered() == old(self).offered().push(item),
            final(self).priorities() == old(self).priorities().push(priority),
            picks_follow(
                old(self).priorities(),
                old(self).picks(),
                old(self).chosen(),
                old(self).capacity(),
                item,
                priority,
                final(self).picks(),
                final(self).chosen(),
            ),
    {
        let ghost old_offered = self.offered@;
        let ghost old_prios = self.priorities@;
        let ghost old_picks = self.picks@;
        let ghost old_heap = self.heap@;
        let ghost old_items = self.items@;
        let ghost cap = self.capacity as nat;
        proof {
            self.offered = Ghost(old_offered.push(item));
            self.priorities = Ghost(old_prios.push(priority));
        }
        if self.items.len() < self.capacity {
            let slot: usize = self.items.len();
            self.items.push(item);
            self.heap.push(HeapEntry { priority, slot });
            proof {
                self.picks = Ghost(old_picks.push(old_offered.len() as int));
                assert(self.heap@.drop_last() =~= old_heap);
                lemma_push_covers(old_heap, slot as int, HeapEntry { priority, slot });
            }
            sift_up(&mut self.heap, Ghost(slot as int + 1));
            proof {
                lemma_kept(
                    old_heap,
                    old_items,
                    cap,
                    old_offered,
                    old_prios,
                    old_picks,
                    item,
                    priority,
                    self.heap@,
                );
            }
        } else if self.capacity > 0 && priority < self.heap[0].priority {
            let slot: usize = self.heap[0].slot;
            self.items.set(slot, item);
            self.heap.set(0, HeapEntry { priority, slot });
            proof {
                self.picks = Ghost(old_picks.update(slot as int, old_offered.len() as int));
                lemma_update_covers(old_heap, old_items.len() as int, HeapEntry { priority, slot });
                assert forall|j: int| 1 <= j < self.heap@.len() && parent(j) != 0 implies (
                #[trigger] self.heap@[j]).priority <= self.heap@[parent(j)].priority by {
                    assert(old_heap[j].priority <= old_heap[parent(j)].priority);
                }
            }
            sift_down(&mut self.heap, Ghost(old_items.len() as int));
            proof {
                lemma_root_bounds_picks(old_heap, old_items, cap, old_offered, old_prios, old_picks);
                assert(old_prios[old_picks[slot as int]] == old_heap[0].priority);
                assert(is_largest_held(old_prios, old_picks, slot as int));
                lemma_replaced(
                    old_heap,
                    old_items,
                    cap,
                    old_offered,
                    old_prios,
                    old_picks,
                    item,
                    priority,
                    self.heap@,
                );
            }
        } else {
            proof {
                if self.capacity > 0 {
                    lemma_root_bounds_picks(old_heap, old_items, cap, old_offered, old_prios, old_picks);
                }
                lemma_dropped(old_heap, old_items, cap, old_offered, old_prios, old_picks, item, priority);
            }
        }
    }

    /// Ends the stream and hands out the items held, in no particular order.
    pub fn into_items(self) -> (items: Vec<T>)
        ensures
            items@ == self.chosen(),
    {
        self.items
    }
}

/// Nodes that cover as many slots as there are nodes hold different slots.
proof fn lemma_slots_differ(h: Seq<HeapEntry>, n: int, a: int, b: int)
    requires
        h.len() == n,
        covers_slots(h, n),
        forall|i: int| 0 <= i < h.len() ==> (#[trigger] h[i]).slot < n,
        0 <= a < b < n,
    ensures
        h[a].slot != h[b].slot,
{
    if h[a].slot == h[b].slot {
        // the nodes other than `b` would cover all `n` slots
        let g = h.remove(b);
        assert forall|s: int| 0 <= s < n implies #[trigger] holds_slot(g, s) by {
            assert(holds_slot(h, s));
            let x = choose|x: int| 0 <= x < h.len() && (#[trigger] h[x]).slot == s;
            let y = if x == b { a } else { x };
            if y < b {
                assert(g[y].slot == s);
            } else {
                assert(g[y - 1].slot == s);
            }
        }
        lemma_nodes_needed(g, n);
    }
}

/// To cover `n` slots takes at least `n` nodes.
proof fn lemma_nodes_needed(g: Seq<HeapEntry>, n: int)
    requires
        covers_slots(g, n),
    ensures
        g.len() >= n,
    decreases n,
{
    if n <= 0 {
    } else {
        // drop a node that holds the last slot, and with it that slot
        assert(holds_slot(g, n - 1));
        let x = choose|x: int| 0 <= x < g.len() && (#[trigger] g[x]).slot == n - 1;
        let f = g.remove(x);
        assert forall|s: int| 0 <= s < n - 1 implies #[trigger] holds_slot(f, s) by {
            assert(holds_slot(g, s));
            let y = choose|y: int| 0 <= y < g.len() && (#[trigger] g[y]).slot == s;
            if y < x {
                assert(f[y].slot == s);
            } else {
                assert(f[y - 1].slot == s);
            }
        }
        lemma_nodes_needed(f, n - 1);
    }
}

/// The items of a stream of pairs.
pub open spec fn stream_items<T>(stream: Seq<(T, u64)>) -> Seq<T> {
    Seq::new(stream.len(), |i: int| stream[i].0)
}

/// The numbers that come with the items of a stream of pairs.
pub open spec fn stream_numbers<T>(stream: Seq<(T, u64)>) -> Seq<u64> {
    Seq::new(stream.len(), |i: int| stream[i].1)
}

/// Picks up to `num_items` items from a stream in which each item comes with
/// its priority: the result holds, in no particular order, the items of
/// smallest priority, all of them if the stream is no longer than `num_items`.
/// The items go through a `Reservoir` one by one: an item that comes when
/// `num_items` items are held, none of them with a larger priority than its
/// own, is not picked.
pub fn sample_by_priority<T>(items: Vec<(T, u64)>, num_items: usize) -> (sampled: Vec<T>)
    ensures
        exists|picks: Seq<int>|
            picks_from(stream_items(items@), num_items as nat, picks, sampled@) && picks_smallest(
                stream_numbers(items@),
                picks,
            ),
{
    let mut reservoir: Reservoir<T> = Reservoir::new(num_items);
    let ghost stream = items@;
    for pair in it: items
        invariant
            it.seq() == stream,
            reservoir.wf(),
            reservoir.capacity() == num_items,
            reservoir.offered() == stream_items(stream).take(it.index() as int),
            reservoir.priorities() == stream_numbers(stream).take(it.index() as int),
    {
        let (item, priority) = pair;
        reservoir.offer(item, priority);
        proof {
            let n = it.index() as int;
            assert(stream_items(stream).take(n).push(item) =~= stream_items(stream).take(n + 1));
            assert(stream_numbers(stream).take(n).push(priority) =~= stream_numbers(stream).take(
                n + 1,
            ));
        }
    }
    proof {
        reservoir.lemma_holds_smallest();
        assert(stream_items(stream).take(stream.len() as int) =~= stream_items(stream));
        assert(stream_numbers(stream).take(stream.len() as int) =~= stream_numbers(stream));
    }
    reservoir.into_items()
}

/// A priority source with a record of the weights that it was asked for
/// and of the priorities that it drew, in order.
pub struct Recorded<R> {
    source: R,
    asked: Ghost<Seq<u64>>,
    drawn: Ghost<Seq<u64>>,
}

impl<R: PrioritySource> Recorded<R> {
    /// The weights for which a priority was drawn so far.
    pub closed spec fn asked(&self) -> Seq<u64> {
        self.asked@
    }

    /// The priorities drawn so far.
    pub closed spec fn drawn(&self) -> Seq<u64> {
        self.drawn@
    }

    /// A source that has drawn nothing yet.
    pub fn new(source: R) -> (recorded: Self)
        ensures
            recorded.asked() == Seq::<u64>::empty(),
            recorded.drawn() == Seq::<u64>::empty(),
    {
        Recorded { source, asked: Ghost(Seq::empty()), drawn: Ghost(Seq::empty()) }
    }

    /// Draws the priority of one item of the given weight, and records both.
    pub fn draw(&mut self, weight: u64) -> (priority: u64)
        ensures
            final(self).asked() == old(self).asked().push(weight),
            final(self).drawn() == old(self).drawn().push(priority),
    {
        let priority = self.source.draw(weight);
        proof {
            self.asked = Ghost(self.asked@.push(weight));
            self.drawn = Ghost(self.drawn@.push(priority));
        }
        priority
    }

    /// Hands the source back.
    pub fn into_inner(self) -> (source: R) {
        self.source
    }
}

/// What a source drew between two points of time: one priority for each of
/// the weights, in order, and nothing else.
pub open spec fn drew_for(
    asked_before: Seq<u64>,
    drawn_before: Seq<u64>,
    asked: Seq<u64>,
    drawn: Seq<u64>,
    weights: Seq<u64>,
) -> bool {
    &&& asked == asked_before + weights
    &&& drawn.len() == drawn_before.len() + weights.len()
    &&& drawn.take(drawn_before.len() as int) == drawn_before
}

/// Picks up to `num_items` items from a stream in which each item comes with
/// its weight. A priority is drawn from `source` for each item in turn, for
/// the item's weight, and the items of smallest priority are kept, as
/// `sample_by_priority` does.
pub fn weighted_sample<T, R: PrioritySource>(
    items: Vec<(T, u64)>,
    num_items: usize,
    source: &mut Recorded<R>,
) -> (sampled: Vec<T>)
    ensures
        drew_for(
            old(source).asked(),
            old(source).drawn(),
            final(source).asked(),
            final(source).drawn(),
            stream_numbers(items@),
        ),
        exists|picks: Seq<int>|
            picks_from(stream_items(items@), num_items as nat, picks, sampled@) && picks_smallest(
                final(source).drawn().skip(old(source).drawn().len() as int),
                picks,
            ),
{
    let mut reservoir: Reservoir<T> = Reservoir::new(num_items);
    let ghost stream = items@;
    let ghost asked_before = source.asked();
    let ghost drawn_before = source.drawn();
    proof {
        assert(asked_before + stream_numbers(stream).take(0) =~= asked_before);
        assert(source.drawn().skip(drawn_before.len() as int) =~= Seq::<u64>::empty());
        assert(source.drawn().take(drawn_before.len() as int) =~= drawn_before);
    }
    for pair in it: items
        invariant
            it.seq() == stream,
            reservoir.wf(),
            reservoir.capacity() == num_items,
            reservoir.offered() == stream_items(stream).take(it.index() as int),
            reservoir.priorities() == source.drawn().skip(drawn_before.len() as int),
            source.asked() == asked_before + stream_numbers(stream).take(it.index() as int),
            source.drawn().len() == drawn_before.len() + it.index(),
            source.drawn().take(drawn_before.len() as int) == drawn_before,
    {
        let ghost n = it.index() as int;
        let ghost drawn = source.drawn();
        let (item, weight) = pair;
        let priority = source.draw(weight);
        reservoir.offer(item, priority);
        proof {
            assert(stream_items(stream).take(n).push(item) =~= stream_items(stream).take(n + 1));
            assert(stream_numbers(stream).take(n).push(weight) =~= stream_numbers(stream).take(n + 1));
            assert(source.asked() =~= asked_before + stream_numbers(stream).take(n + 1));
            assert(drawn.push(priority).skip(drawn_before.len() as int) =~= drawn.skip(
                drawn_before.len() as int,
            ).push(priority));
            assert(drawn.push(priority).take(drawn_before.len() as int) =~= drawn.take(
                drawn_before.len() as int,
            ));
        }
    }
    proof {
        reservoir.lemma_holds_smallest();
        assert(stream_items(stream).take(stream.len() as int) =~= stream_items(stream));
        assert(stream_numbers(stream).take(stream.len() as int) =~= stream_numbers(stream));
    }
    reservoir.into_items()
}

} // verus!
