//! A priority queue that hands out its smallest key first.

use vstd::multiset::Multiset;
use vstd::prelude::*;
use vstd::seq_lib::*;

verus! {

/// Every key but the first is at least as large as the one at half its place.
pub open spec fn heap_ordered(s: Seq<u64>) -> bool {
    forall|i: int| 1 <= i < s.len() ==> s[(i - 1) / 2] <= #[trigger] s[i]
}

/// A binary heap of integer keys, in which a key may stand more than once.
pub struct MinHeap {
    items: Vec<u64>,
}

impl View for MinHeap {
    type V = Multiset<u64>;

    closed spec fn view(&self) -> Multiset<u64> {
        self.items@.to_multiset()
    }
}

/// Two keys of a sequence trade places.
pub open spec fn traded(s: Seq<u64>, i: int, j: int) -> Seq<u64> {
    s.update(i, s[j]).update(j, s[i])
}

/// Trading places keeps the keys.
proof fn lemma_traded_multiset(s: Seq<u64>, i: int, j: int)
    requires
        0 <= i < s.len(),
        0 <= j < s.len(),
        i != j,
    ensures
        traded(s, i, j).to_multiset() == s.to_multiset(),
{
    broadcast use group_to_multiset_ensures;

    let one = s.update(i, s[j]);
    to_multiset_update(s, i, s[j]);
    to_multiset_update(one, j, s[i]);
    assert(s.contains(s[i]));
    assert(one[j] == s[j]);
    assert(one.to_multiset() == s.to_multiset().insert(s[j]).remove(s[i]));
    assert(traded(s, i, j).to_multiset() =~= s.to_multiset());
}

/// The first key of a heap is the smallest.
proof fn lemma_root_is_least(s: Seq<u64>, i: int)
    requires
        heap_ordered(s),
        0 <= i < s.len(),
    ensures
        s[0] <= s[i],
    decreases i,
{
    if i > 0 {
        lemma_root_is_least(s, (i - 1) / 2);
    }
}

/// The heap order holds everywhere but between the key at `hole` and the one above it, and
/// the keys below the hole are no smaller than the one above it.
spec fn ordered_below(s: Seq<u64>, hole: int) -> bool {
    &&& forall|i: int| 1 <= i < s.len() && i != hole ==> s[(i - 1) / 2] <= #[trigger] s[i]
    &&& forall|i: int|
        1 <= i < s.len() && (i - 1) / 2 == hole && hole > 0 ==> s[(hole - 1) / 2]
            <= #[trigger] s[i]
}

/// The heap order holds everywhere but between the key at `hole` and those below it, which
/// are no smaller than the key above the hole.
spec fn ordered_above(s: Seq<u64>, hole: int) -> bool {
    &&& forall|i: int|
        1 <= i < s.len() && (i - 1) / 2 != hole ==> s[(i - 1) / 2] <= #[trigger] s[i]
    &&& forall|i: int|
        1 <= i < s.len() && (i - 1) / 2 == hole && hole > 0 ==> s[(hole - 1) / 2]
            <= #[trigger] s[i]
}

impl MinHeap {
    /// The keys stand in heap order.
    pub closed spec fn wf(self) -> bool {
        heap_ordered(self.items@)
    }

    /// An empty heap.
    pub fn new() -> (heap: Self)
        ensures
            heap.wf(),
            heap@ == Multiset::<u64>::empty(),
    {
        broadcast use group_to_multiset_ensures;

        let heap = MinHeap { items: Vec::new() };
        assert(heap@ =~= Multiset::<u64>::empty());
        heap
    }

    /// Adds a key.
    pub fn push(&mut self, key: u64)
        requires
            old(self).wf(),
        ensures
            final(self).wf(),
            final(self)@ == old(self)@.insert(key),
    {
        broadcast use group_to_multiset_ensures;

        let mut i: usize = self.items.len();
        self.items.push(key);
        while i > 0
            invariant
                i < self.items@.len(),
                ordered_below(self.items@, i as int),
                self.items@.to_multiset() == old(self)@.insert(key),
            ensures
                heap_ordered(self.items@),
                self.items@.to_multiset() == old(self)@.insert(key),
            decreases i,
        {
            let above: usize = (i - 1) / 2;
            let lower: u64 = self.items[i];
            let upper: u64 = self.items[above];
            if upper <= lower {
                break;
            }
            let ghost before = self.items@;
            self.items.set(above, lower);
            self.items.set(i, upper);
            proof {
                lemma_traded_multiset(before, above as int, i as int);
                assert(self.items@ =~= traded(before, above as int, i as int));
            }
            i = above;
        }
    }

    /// Takes the smallest key out.
    pub fn pop(&mut self) -> (key: Option<u64>)
        requires
            old(self).wf(),
        ensures
            final(self).wf(),
            match key {
                None => old(self)@.len() == 0 && final(self)@ == old(self)@,
                Some(k) => {
                    &&& old(self)@.contains(k)
                    &&& forall|other: u64| #[trigger] old(self)@.contains(other) ==> k <= other
                    &&& final(self)@ == old(self)@.remove(k)
                },
            },
    {
        broadcast use group_to_multiset_ensures;

        let ghost all = self.items@;
        let last: u64 = match self.items.pop() {
            None => return None,
            Some(last) => last,
        };
        let ghost rest = self.items@;
        proof {
            assert(rest =~= all.drop_last());
            assert(all =~= rest.push(last));
            assert(rest.to_multiset().insert(last) =~= all.to_multiset());
            assert forall|other: u64| #[trigger] all.to_multiset().contains(other) implies all[0]
                <= other by {
                let i = choose|i: int| 0 <= i < all.len() && all[i] == other;
                lemma_root_is_least(all, i);
            }
            assert(all.contains(all[0]));
        }
        let len: usize = self.items.len();
        if len == 0 {
            assert(self@ =~= all.to_multiset().remove(last));
            return Some(last);
        }
        let least: u64 = self.items[0];
        self.items.set(0, last);
        proof {
            to_multiset_update(rest, 0, last);
            assert(rest.contains(rest[0]));
            assert(self.items@.to_multiset() =~= all.to_multiset().remove(least));
        }
        let mut i: usize = 0;
        while i < len / 2
            invariant
                i < len,
                len == self.items@.len(),
                ordered_above(self.items@, i as int),
                self.items@.to_multiset() == all.to_multiset().remove(least),
            ensures
                heap_ordered(self.items@),
                self.items@.to_multiset() == all.to_multiset().remove(least),
            decreases len - i,
        {
            let left: usize = 2 * i + 1;
            let child: usize = if left + 1 < len && self.items[left + 1] < self.items[left] {
                left + 1
            } else {
                left
            };
            let upper: u64 = self.items[i];
            let lower: u64 = self.items[child];
            if upper <= lower {
                assert forall|j: int| 1 <= j < len && (j - 1) / 2 == i implies upper
                    <= #[trigger] self.items@[j] by {
                    assert(j == 2 * i + 1 || j == 2 * i + 2);
                }
                break;
            }
            let ghost before = self.items@;
            self.items.set(i, lower);
            self.items.set(child, upper);
            proof {
                lemma_traded_multiset(before, i as int, child as int);
                assert(self.items@ =~= traded(before, i as int, child as int));
                assert forall|j: int| 1 <= j < len && (j - 1) / 2 != child implies self.items@[(j
                    - 1) / 2] <= #[trigger] self.items@[j] by {
                    if (j - 1) / 2 == i {
                        assert(j == 2 * i + 1 || j == 2 * i + 2);
                        assert(before[2 * i + 1] >= lower);
                    }
                }
            }
            i = child;
        }
        Some(least)
    }
}

} // verus!
