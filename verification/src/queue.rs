//! A queue of `(cost, node)` entries that hands out an entry of least cost:
//! a binary heap in a vector.

use vstd::multiset::Multiset;
use vstd::prelude::*;

verus! {

broadcast use {
    vstd::seq_lib::to_multiset_build,
    vstd::seq_lib::to_multiset_update,
    vstd::seq_lib::to_multiset_len,
    vstd::seq_lib::to_multiset_contains,
    vstd::multiset::group_multiset_axioms,
};

/// A bag of `(cost, node)` entries. An entry may be held more than once.
pub struct MinQueue {
    items: Vec<(u32, usize)>,
}

/// The place above place `k` in the heap.
spec fn parent(k: int) -> int {
    (k - 1) / 2
}

/// Whether every entry but the first costs no less than the one above it.
spec fn ordered(items: Seq<(u32, usize)>) -> bool {
    forall|k: int| 1 <= k < items.len() ==> items[parent(k)].0 <= (#[trigger] items[k]).0
}

/// Whether the heap is in order but for the entry at `hole`, which may cost
/// less than the one above it; the entries below the hole cost no less than
/// the one above the hole.
spec fn ordered_but_above(items: Seq<(u32, usize)>, hole: int) -> bool {
    &&& forall|k: int|
        1 <= k < items.len() && k != hole ==> items[parent(k)].0 <= (#[trigger] items[k]).0
    &&& forall|k: int|
        1 <= k < items.len() && parent(k) == hole && hole > 0 ==> items[parent(hole)].0 <= (
        #[trigger] items[k]).0
}

/// Whether the heap is in order but for the entry at `hole`, which may cost
/// more than the ones below it; the entries below the hole cost no less
/// than the one above the hole.
spec fn ordered_but_below(items: Seq<(u32, usize)>, hole: int) -> bool {
    &&& forall|k: int|
        1 <= k < items.len() && parent(k) != hole ==> items[parent(k)].0 <= (
        #[trigger] items[k]).0
    &&& forall|k: int|
        1 <= k < items.len() && parent(k) == hole && hole > 0 ==> items[parent(hole)].0 <= (
        #[trigger] items[k]).0
}

/// In a heap in order no entry costs less than the first.
proof fn lemma_first_is_least(items: Seq<(u32, usize)>, k: int)
    requires
        ordered(items),
        0 <= k < items.len(),
    ensures
        items[0].0 <= items[k].0,
    decreases k,
{
    if k > 0 {
        lemma_first_is_least(items, parent(k));
    }
}

/// Two entries changing places leaves the bag as it is.
proof fn lemma_swap_keeps_bag(items: Seq<(u32, usize)>, i: int, j: int)
    requires
        0 <= i < items.len(),
        0 <= j < items.len(),
    ensures
        items.update(i, items[j]).update(j, items[i]).to_multiset() == items.to_multiset(),
{
    let once = items.update(i, items[j]);
    assert(once.to_multiset() == items.to_multiset().insert(items[j]).remove(items[i]));
    assert(once.update(j, items[i]).to_multiset() == once.to_multiset().insert(items[i]).remove(
        once[j],
    ));
    assert(items.to_multiset().count(items[i]) > 0) by {
        assert(items.contains(items[i]));
    }
    assert(items.to_multiset().count(items[j]) > 0) by {
        assert(items.contains(items[j]));
    }
    assert(once.update(j, items[i]).to_multiset() =~= items.to_multiset());
}

impl View for MinQueue {
    type V = Multiset<(u32, usize)>;

    closed spec fn view(&self) -> Multiset<(u32, usize)> {
        self.items@.to_multiset()
    }
}

impl MinQueue {
    /// Whether the queue is in order inside. Every queue that `new` made
    /// is, and stays so.
    pub closed spec fn wf(&self) -> bool {
        ordered(self.items@)
    }

    /// An empty queue.
    pub fn new() -> (queue: MinQueue)
        ensures
            queue.wf(),
            queue@ == Multiset::<(u32, usize)>::empty(),
    {
        let queue = MinQueue { items: Vec::new() };
        assert(queue.items@.to_multiset() =~= Multiset::<(u32, usize)>::empty());
        queue
    }

    /// The number of entries held.
    pub fn len(&self) -> (n: usize)
        ensures
            n == self@.len(),
    {
        self.items.len()
    }

    /// Lets the entries at `i` and `j` change places.
    fn swap(&mut self, i: usize, j: usize)
        requires
            i < old(self).items@.len(),
            j < old(self).items@.len(),
        ensures
            final(self).items@ == old(self).items@.update(i as int, old(self).items@[j as int]).update(
                j as int,
                old(self).items@[i as int],
            ),
            final(self)@ == old(self)@,
    {
        let a = self.items[i];
        let b = self.items[j];
        proof {
            lemma_swap_keeps_bag(self.items@, i as int, j as int);
        }
        self.items.set(i, b);
        self.items.set(j, a);
    }

    /// Adds an entry.
    pub fn push(&mut self, cost: u32, node: usize)
        requires
            old(self).wf(),
        ensures
            final(self).wf(),
            final(self)@ == old(self)@.insert((cost, node)),
    {
        self.items.push((cost, node));
        let mut i: usize = self.items.len() - 1;
        while i > 0 && self.items[(i - 1) / 2].0 > self.items[i].0
            invariant
                0 <= i < self.items@.len(),
                ordered_but_above(self.items@, i as int),
                self@ == old(self)@.insert((cost, node)),
            decreases i,
        {
            let up = (i - 1) / 2;
            let ghost before = self.items@;
            self.swap(up, i);
            proof {
                let after = self.items@;
                assert forall|k: int| 1 <= k < after.len() && k != up implies after[parent(k)].0
                    <= (#[trigger] after[k]).0 by {
                    if k == i {
                    } else if parent(k) == i {
                        assert(before[parent(i as int)].0 <= before[k].0);
                    } else if parent(k) == up {
                        assert(before[parent(k)].0 <= before[k].0);
                    } else {
                        assert(before[parent(k)].0 <= before[k].0);
                    }
                }
                assert forall|k: int|
                    1 <= k < after.len() && parent(k) == up && up > 0 implies after[parent(
                    up as int,
                )].0 <= (#[trigger] after[k]).0 by {
                    assert(before[parent(up as int)].0 <= before[up as int].0);
                    if k != i {
                        assert(before[parent(k)].0 <= before[k].0);
                    }
                }
            }
            i = up;
        }
    }

    /// Lets the first entry sink to its place.
    fn sink(&mut self)
        requires
            old(self).items@.len() > 0,
            ordered_but_below(old(self).items@, 0),
        ensures
            final(self).wf(),
            final(self)@ == old(self)@,
    {
        let n = self.items.len();
        let mut i: usize = 0;
        while i < n / 2
            invariant
                n == self.items@.len(),
                0 <= i < n,
                ordered_but_below(self.items@, i as int),
                self@ == old(self)@,
            ensures
                ordered(self.items@),
                self@ == old(self)@,
            decreases n - i,
        {
            let left = 2 * i + 1;
            let right = left + 1;
            let mut least = left;
            if right < n && self.items[right].0 < self.items[left].0 {
                least = right;
            }
            if self.items[i].0 <= self.items[least].0 {
                proof {
                    let items = self.items@;
                    assert forall|k: int| 1 <= k < items.len() implies items[parent(k)].0 <= (
                    #[trigger] items[k]).0 by {
                        if parent(k) == i {
                            assert(k == left || k == right);
                        }
                    }
                }
                break;
            }
            let ghost before = self.items@;
            self.swap(i, least);
            proof {
                let after = self.items@;
                assert forall|k: int|
                    1 <= k < after.len() && parent(k) != least implies after[parent(k)].0 <= (
                    #[trigger] after[k]).0 by {
                    if parent(k) == i {
                        assert(k == left || k == right);
                    } else if k == i {
                        assert(before[parent(i as int)].0 <= before[least as int].0);
                    } else {
                        assert(before[parent(k)].0 <= before[k].0);
                    }
                }
                assert forall|k: int|
                    1 <= k < after.len() && parent(k) == least && least > 0 implies after[parent(
                    least as int,
                )].0 <= (#[trigger] after[k]).0 by {
                    assert(before[parent(k)].0 <= before[k].0);
                }
            }
            i = least;
        }
        proof {
            if i >= n / 2 {
                let items = self.items@;
                assert forall|k: int| 1 <= k < items.len() implies items[parent(k)].0 <= (
                #[trigger] items[k]).0 by {
                    if parent(k) == i {
                        assert(k >= 2 * i + 1);
                    }
                }
            }
        }
    }

    /// Takes out an entry that no other entry undercuts in cost; `None`
    /// where the queue is empty.
    pub fn pop(&mut self) -> (least: Option<(u32, usize)>)
        requires
            old(self).wf(),
        ensures
            final(self).wf(),
            least is None ==> old(self)@.len() == 0 && final(self)@ == old(self)@,
            least matches Some(e) ==> {
                &&& old(self)@.count(e) > 0
                &&& final(self)@ == old(self)@.remove(e)
                &&& forall|x: (u32, usize)| old(self)@.count(x) > 0 ==> e.0 <= x.0
            },
    {
        if self.items.len() == 0 {
            return None;
        }
        let ghost before = self.items@;
        let top = self.items[0];
        proof {
            assert(before.contains(top));
            assert forall|x: (u32, usize)| before.to_multiset().count(x) > 0 implies top.0
                <= x.0 by {
                assert(before.contains(x));
                let k = choose|k: int| 0 <= k < before.len() && before[k] == x;
                lemma_first_is_least(before, k);
            }
        }
        let last = match self.items.pop() {
            Some(e) => e,
            None => {
                return None;
            },
        };
        proof {
            assert(before =~= self.items@.push(last));
        }
        if self.items.len() > 0 {
            let ghost shorter = self.items@;
            self.items.set(0, last);
            proof {
                let items = self.items@;
                assert(shorter.to_multiset().count(top) > 0) by {
                    assert(shorter[0] == top);
                    assert(shorter.contains(top));
                }
                assert(items.to_multiset() =~= before.to_multiset().remove(top));
                assert forall|k: int|
                    1 <= k < items.len() && parent(k) != 0 implies items[parent(k)].0 <= (
                    #[trigger] items[k]).0 by {
                    assert(before[parent(k)].0 <= before[k].0);
                }
            }
            self.sink();
        } else {
            proof {
                assert(self.items@.to_multiset() =~= before.to_multiset().remove(top));
            }
        }
        Some(top)
    }
}

} // verus!
