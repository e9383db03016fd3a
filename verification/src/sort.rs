//! Stable sorting by an integer key.

use vstd::prelude::*;

verus! {

/// Position `p` comes before position `q` in a stable ascending sort by `keys`.
pub open spec fn sorts_before(keys: Seq<u64>, p: int, q: int) -> bool {
    keys[p] < keys[q] || (keys[p] == keys[q] && p < q)
}

/// `order` lists the positions `lo .. hi` as a stable ascending sort by `keys`
/// leaves them. There is exactly one such list.
pub open spec fn is_sorted_range(keys: Seq<u64>, lo: int, hi: int, order: Seq<usize>) -> bool {
    &&& order.len() == hi - lo
    &&& forall|i: int| 0 <= i < order.len() ==> lo <= #[trigger] order[i] < hi
    &&& forall|i: int, j: int|
        0 <= i < j < order.len() ==> sorts_before(
            keys,
            #[trigger] order[i] as int,
            #[trigger] order[j] as int,
        )
    &&& forall|p: int| lo <= p < hi ==> order.contains(#[trigger] (p as usize))
}

/// `order` lists all positions of `keys` as a stable ascending sort leaves them.
pub open spec fn is_stable_order(keys: Seq<u64>, order: Seq<usize>) -> bool {
    is_sorted_range(keys, 0, keys.len() as int, order)
}

fn merge_runs(keys: &Vec<u64>, a: &Vec<usize>, b: &Vec<usize>, lo: usize, mid: usize, hi: usize) -> (out: Vec<
    usize,
>)
    requires
        lo <= mid <= hi <= keys@.len(),
        is_sorted_range(keys@, lo as int, mid as int, a@),
        is_sorted_range(keys@, mid as int, hi as int, b@),
    ensures
        is_sorted_range(keys@, lo as int, hi as int, out@),
{
    let mut out: Vec<usize> = Vec::new();
    let mut i: usize = 0;
    let mut j: usize = 0;
    while i < a.len() || j < b.len()
        invariant
            lo <= mid <= hi <= keys@.len(),
            is_sorted_range(keys@, lo as int, mid as int, a@),
            is_sorted_range(keys@, mid as int, hi as int, b@),
            i <= a@.len(),
            j <= b@.len(),
            out@.len() == i + j,
            forall|k: int| 0 <= k < out@.len() ==> lo <= #[trigger] out@[k] < hi,
            forall|k: int, l: int|
                0 <= k < l < out@.len() ==> sorts_before(
                    keys@,
                    #[trigger] out@[k] as int,
                    #[trigger] out@[l] as int,
                ),
            forall|k: int, l: int|
                0 <= k < out@.len() && i <= l < a@.len() ==> sorts_before(
                    keys@,
                    #[trigger] out@[k] as int,
                    #[trigger] a@[l] as int,
                ),
            forall|k: int, l: int|
                0 <= k < out@.len() && j <= l < b@.len() ==> sorts_before(
                    keys@,
                    #[trigger] out@[k] as int,
                    #[trigger] b@[l] as int,
                ),
            forall|k: int| 0 <= k < i ==> out@.contains(#[trigger] a@[k]),
            forall|k: int| 0 <= k < j ==> out@.contains(#[trigger] b@[k]),
        decreases a@.len() + b@.len() - i - j,
    {
        let ghost before = out@;
        let from_a: bool = if i >= a.len() {
            false
        } else if j >= b.len() {
            true
        } else {
            keys[a[i]] <= keys[b[j]]
        };
        if from_a {
            out.push(a[i]);
            i = i + 1;
        } else {
            out.push(b[j]);
            j = j + 1;
        }
        proof {
            assert(out@[before.len() as int] == out@.last());
            assert forall|x: usize| before.contains(x) implies out@.contains(x) by {
                let k = choose|k: int| 0 <= k < before.len() && before[k] == x;
                assert(out@[k] == x);
            }
            assert(out@.contains(out@.last()));
        }
    }
    proof {
        assert forall|p: int| lo <= p < hi implies out@.contains(#[trigger] (p as usize)) by {
            if p < mid {
                assert(a@.contains(p as usize));
                let k = choose|k: int| 0 <= k < a@.len() && a@[k] == p as usize;
                assert(out@.contains(a@[k]));
            } else {
                assert(b@.contains(p as usize));
                let k = choose|k: int| 0 <= k < b@.len() && b@[k] == p as usize;
                assert(out@.contains(b@[k]));
            }
        }
    }
    out
}

fn sort_range(keys: &Vec<u64>, lo: usize, hi: usize) -> (order: Vec<usize>)
    requires
        lo <= hi <= keys@.len(),
    ensures
        is_sorted_range(keys@, lo as int, hi as int, order@),
    decreases hi - lo,
{
    let mut order: Vec<usize> = Vec::new();
    if hi - lo == 0 {
        return order;
    }
    if hi - lo == 1 {
        order.push(lo);
        assert(order@[0] == lo);
        return order;
    }
    let mid: usize = lo + (hi - lo) / 2;
    let a: Vec<usize> = sort_range(keys, lo, mid);
    let b: Vec<usize> = sort_range(keys, mid, hi);
    merge_runs(keys, &a, &b, lo, mid, hi)
}

/// The positions of `keys` in the order of a stable ascending sort.
pub fn stable_order(keys: &Vec<u64>) -> (order: Vec<usize>)
    ensures
        is_stable_order(keys@, order@),
{
    sort_range(keys, 0, keys.len())
}

/// A sequence that takes each position of another exactly once has the same
/// values, each as often.
pub proof fn lemma_permuted_multiset<T>(items: Seq<T>, taken: Seq<T>, at: Seq<int>)
    requires
        taken.len() == items.len() == at.len(),
        forall|i: int| 0 <= i < at.len() ==> 0 <= #[trigger] at[i] < items.len(),
        forall|i: int, j: int| 0 <= i < j < at.len() ==> at[i] != at[j],
        forall|i: int| 0 <= i < at.len() ==> taken[i] == items[#[trigger] at[i]],
    ensures
        taken.to_multiset() == items.to_multiset(),
    decreases items.len(),
{
    broadcast use vstd::seq_lib::group_to_multiset_ensures;

    if items.len() == 0 {
        assert(items =~= taken);
    } else {
        let p = at.last();
        let rest_items = items.remove(p);
        let rest_taken = taken.drop_last();
        let rest_at = Seq::new(
            (at.len() - 1) as nat,
            |i: int| if at[i] > p { at[i] - 1 } else { at[i] },
        );
        lemma_permuted_multiset(rest_items, rest_taken, rest_at);
        assert(taken =~= rest_taken.push(taken.last()));
        assert(items.remove(p).insert(p, items[p]) =~= items);
        assert(taken.to_multiset() == rest_taken.to_multiset().insert(items[p]));
        assert(items.to_multiset() == rest_items.to_multiset().insert(items[p]));
    }
}

} // verus!
