//! A max-heap of payloads ordered by an integer key.

use vstd::multiset::Multiset;
use vstd::prelude::*;

use crate::sort;

verus! {

/// A binary max-heap. Each item is a key and what the key stands for; of items
/// with equal keys any may come out first.
pub struct MaxHeap<T: Copy> {
    items: Vec<(u64, T)>,
}

spec fn parent(i: int) -> int {
    (i - 1) / 2
}

proof fn lemma_swap_multiset<A>(s: Seq<A>, i: int, j: int)
    requires
        0 <= i < s.len(),
        0 <= j < s.len(),
    ensures
        s.update(i, s[j]).update(j, s[i]).to_multiset() == s.to_multiset(),
{
    let t = s.update(i, s[j]).update(j, s[i]);
    let at = Seq::new(
        s.len(),
        |k: int|
            if k == j {
                i
            } else if k == i {
                j
            } else {
                k
            },
    );
    sort::lemma_permuted_multiset(s, t, at);
}

proof fn lemma_root_is_max<T>(items: Seq<(u64, T)>, j: int)
    requires
        forall|k: int| 0 < k < items.len() ==> items[parent(k)].0 >= (#[trigger] items[k]).0,
        0 <= j < items.len(),
    ensures
        items[0].0 >= items[j].0,
    decreases j,
{
    if j > 0 {
        lemma_root_is_max(items, parent(j));
    }
}

impl<T: Copy> View for MaxHeap<T> {
    type V = Multiset<(u64, T)>;

    closed spec fn view(&self) -> Multiset<(u64, T)> {
        self.items@.to_multiset()
    }
}

impl<T: Copy> MaxHeap<T> {
    /// Each item's key is at most that of the item above it.
    pub closed spec fn wf(self) -> bool {
        forall|k: int|
            0 < k < self.items@.len() ==> self.items@[parent(k)].0 >= (#[trigger] self.items@[k]).0
    }

    /// An empty heap.
    pub fn new() -> (heap: Self)
        ensures
            heap.wf(),
            heap@ == Multiset::<(u64, T)>::empty(),
    {
        let heap = MaxHeap { items: Vec::new() };
        proof {
            broadcast use vstd::seq_lib::group_to_multiset_ensures;

            assert(heap.items@ =~= Seq::empty());
            assert(heap@.len() == 0);
            assert(heap@ =~= Multiset::empty());
        }
        heap
    }

    /// The number of items.
    pub fn len(&self) -> (n: usize)
        ensures
            n == self@.len(),
    {
        proof {
            broadcast use vstd::seq_lib::group_to_multiset_ensures;

        }
        self.items.len()
    }

    fn swap(&mut self, i: usize, j: usize)
        requires
            i < old(self).items@.len(),
            j < old(self).items@.len(),
        ensures
            final(self).items@ == old(self).items@.update(i as int, old(self).items@[j as int]).update(
                j as int,
                old(self).items@[i as int],
            ),
            final(self)@ == old(self)@,
    {
        proof {
            lemma_swap_multiset(self.items@, i as int, j as int);
        }
        let a: (u64, T) = self.items[i];
        let b: (u64, T) = self.items[j];
        self.items[i] = b;
        self.items[j] = a;
    }

    /// Adds an item.
    pub fn push(&mut self, key: u64, value: T)
        requires
            old(self).wf(),
        ensures
            final(self).wf(),
            final(self)@ == old(self)@.insert((key, value)),
    {
        proof {
            broadcast use vstd::seq_lib::group_to_multiset_ensures;

        }
        let mut i: usize = self.items.len();
        self.items.push((key, value));
        while i > 0
            invariant
                i < self.items@.len(),
                self@ == old(self)@.insert((key, value)),
                forall|k: int|
                    0 < k < self.items@.len() && k != i ==> self.items@[parent(k)].0 >= (
                    #[trigger] self.items@[k]).0,
                forall|k: int|
                    0 < k < self.items@.len() && 0 < i && parent(k) == i ==> self.items@[parent(
                        i as int,
                    )].0 >= (#[trigger] self.items@[k]).0,
            decreases i,
        {
            let p: usize = (i - 1) / 2;
            if self.items[p].0 >= self.items[i].0 {
                return ;
            }
            self.swap(p, i);
            i = p;
        }
    }

    /// Takes out an item whose key is largest.
    pub fn pop(&mut self) -> (top: Option<(u64, T)>)
        requires
            old(self).wf(),
        ensures
            final(self).wf(),
            top is None <==> old(self)@.len() == 0,
            top is None ==> final(self)@ == old(self)@,
            top matches Some(item) ==> {
                &&& old(self)@.contains(item)
                &&& final(self)@ == old(self)@.remove(item)
                &&& forall|other: (u64, T)| #[trigger]
                    old(self)@.contains(other) ==> other.0 <= item.0
            },
    {
        proof {
            broadcast use vstd::seq_lib::group_to_multiset_ensures;

        }
        let ghost whole = self.items@;
        let last: (u64, T) = match self.items.pop() {
            None => {
                return None;
            },
            Some(last) => last,
        };
        proof {
            assert forall|other: (u64, T)| #[trigger] whole.to_multiset().contains(other) implies other.0
                <= whole[0].0 by {
                vstd::seq_lib::to_multiset_contains(whole, other);
                let k = choose|k: int| 0 <= k < whole.len() && whole[k] == other;
                lemma_root_is_max(whole, k);
            }
            vstd::seq_lib::to_multiset_contains(whole, whole[0]);
            assert(whole.contains(whole[0]));
        }
        if self.items.len() == 0 {
            proof {
                assert(self.items@ =~= whole.remove(0));
                vstd::seq_lib::to_multiset_remove(whole, 0);
            }
            return Some(last);
        }
        let top: (u64, T) = self.items[0];
        self.items[0] = last;
        let ghost shrunk = self.items@;
        proof {
            let n = whole.len() - 1;
            let swapped = whole.update(0, whole[n]).update(n, whole[0]);
            lemma_swap_multiset(whole, 0, n);
            assert(shrunk =~= swapped.remove(n));
            vstd::seq_lib::to_multiset_remove(swapped, n);
            assert(shrunk.to_multiset() == whole.to_multiset().remove(top));
        }
        let n: usize = self.items.len();
        let mut i: usize = 0;
        while i < n / 2
            invariant
                n == self.items@.len(),
                i < n,
                self@ == shrunk.to_multiset(),
                forall|k: int|
                    0 < k < n && parent(k) != i ==> self.items@[parent(k)].0 >= (
                    #[trigger] self.items@[k]).0,
                forall|k: int|
                    0 < k < n && 0 < i && parent(k) == i ==> self.items@[parent(i as int)].0 >= (
                    #[trigger] self.items@[k]).0,
            ensures
                self.wf(),
                self@ == shrunk.to_multiset(),
            decreases n - i,
        {
            let left: usize = 2 * i + 1;
            let mut child: usize = left;
            if left + 1 < n && self.items[left + 1].0 > self.items[left].0 {
                child = left + 1;
            }
            if self.items[i].0 >= self.items[child].0 {
                assert forall|k: int| 0 < k < n implies self.items@[parent(k)].0 >= (
                #[trigger] self.items@[k]).0 by {
                    if parent(k) == i {
                        assert(k == left || k == left + 1);
                    }
                }
                break ;
            }
            let ghost before = self.items@;
            self.swap(i, child);
            assert forall|k: int| 0 < k < n && parent(k) != child implies self.items@[parent(k)].0
                >= (#[trigger] self.items@[k]).0 by {
                if parent(k) == i {
                    assert(k == left || k == left + 1);
                    assert(before[k].0 <= before[child as int].0);
                } else if k == i {
                    assert(before[parent(child as int)].0 == before[i as int].0);
                    assert(before[child as int].0 <= before[parent(i as int)].0);
                }
            }
            i = child;
        }
        Some(top)
    }
}

} // verus!
