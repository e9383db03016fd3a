//! Merging groups until the slots that they take fit a budget.
//!
//! Candidate merges are looked for among groups that are close in an order by
//! colour, kept in a heap by score, and taken from the best on. A candidate
//! that an earlier merge has overtaken is dropped when it comes up. When the
//! heap runs dry the order is made anew.

use vstd::multiset::Multiset;
use vstd::prelude::*;

use crate::heap::MaxHeap;
use crate::quantize::group;
use crate::quantize::group::{
    centroid_sort_key, merge_into, merge_savings, Centroid, Group10s, Pixel,
};
use crate::sort;

verus! {

/// How far apart two groups may be in the order to be candidates for a merge.
pub const K_WINDOW: usize = 32;

/// Up to so many groups all pairs are candidates when the order is made anew.
pub const ALL_PAIRS_LIMIT: usize = 4096;

/// A candidate merge of the groups `a` and `b`, as they were at their
/// generations `gen_a` and `gen_b`.
#[derive(Clone, Copy)]
pub struct MergeEdge {
    pub a: usize,
    pub b: usize,
    pub gen_a: usize,
    pub gen_b: usize,
}

/// Merging groups `i` and `j` saves a slot.
pub open spec fn worthwhile<C>(groups: Seq<Option<Group10s<C>>>, i: usize, j: usize) -> bool {
    if i < j {
        group::saved_slots(groups[i as int]->0, groups[j as int]->0) >= 1
    } else {
        group::saved_slots(groups[j as int]->0, groups[i as int]->0) >= 1
    }
}

/// `x` is the candidate merge of groups `a` and `b` under its score.
pub open spec fn is_ordered_edge<C: Centroid>(
    groups: Seq<Option<Group10s<C>>>,
    gens: Seq<usize>,
    a: usize,
    b: usize,
    x: (u64, MergeEdge),
) -> bool {
    let (left, right) = (groups[a as int]->0, groups[b as int]->0);
    &&& x.1.a == a
    &&& x.1.b == b
    &&& x.1.gen_a == gens[a as int]
    &&& x.1.gen_b == gens[b as int]
    &&& call_ensures(
        C::score,
        (&left.centroid, &right.centroid, group::saved_slots(left, right) as u32),
        x.0,
    )
}

/// `x` is the candidate merge of groups `i` and `j`, the lower one first.
pub open spec fn is_edge<C: Centroid>(
    groups: Seq<Option<Group10s<C>>>,
    gens: Seq<usize>,
    i: usize,
    j: usize,
    x: (u64, MergeEdge),
) -> bool {
    if i < j {
        is_ordered_edge(groups, gens, i, j, x)
    } else {
        is_ordered_edge(groups, gens, j, i, x)
    }
}

/// `out` are the candidates for those of the pairs whose merge saves a slot.
pub open spec fn are_edges<C: Centroid>(
    groups: Seq<Option<Group10s<C>>>,
    gens: Seq<usize>,
    pairs: Seq<(usize, usize)>,
    out: Seq<(u64, MergeEdge)>,
) -> bool
    decreases pairs.len(),
{
    if pairs.len() == 0 {
        out.len() == 0
    } else {
        let (i, j) = pairs.last();
        if worthwhile(groups, i, j) {
            &&& out.len() > 0
            &&& is_edge(groups, gens, i, j, out.last())
            &&& are_edges(groups, gens, pairs.drop_last(), out.drop_last())
        } else {
            are_edges(groups, gens, pairs.drop_last(), out)
        }
    }
}

/// The entry at position `p` with each of the up to `w` entries after it.
pub open spec fn row_pairs(sorted: Seq<usize>, p: int, w: int) -> Seq<(usize, usize)> {
    let left = sorted.len() - 1 - p;
    let width = if w < left {
        w
    } else {
        left
    };
    Seq::new(width as nat, |o: int| (sorted[p], sorted[p + 1 + o]))
}

/// The pairs of the first `rows` entries with those up to `w` after them.
pub open spec fn window_pairs(sorted: Seq<usize>, w: int, rows: nat) -> Seq<(usize, usize)>
    decreases rows,
{
    if rows == 0 {
        Seq::empty()
    } else {
        window_pairs(sorted, w, (rows - 1) as nat) + row_pairs(sorted, rows - 1, w)
    }
}

/// Group `a` with every other group there is between the positions `lo` and `hi`.
pub open spec fn near_pairs<C>(
    groups: Seq<Option<Group10s<C>>>,
    sorted: Seq<usize>,
    a: usize,
    lo: int,
    hi: int,
) -> Seq<(usize, usize)>
    decreases hi - lo,
{
    if hi <= lo {
        Seq::empty()
    } else {
        let before = near_pairs(groups, sorted, a, lo, hi - 1);
        let g = sorted[hi - 1];
        if g == a || groups[g as int] is None {
            before
        } else {
            before.push((a, g))
        }
    }
}

/// The numbers below `n` of the groups there are.
pub open spec fn alive_ids<C>(groups: Seq<Option<Group10s<C>>>, n: nat) -> Seq<usize>
    decreases n,
{
    if n == 0 {
        Seq::empty()
    } else {
        let before = alive_ids(groups, (n - 1) as nat);
        if groups[n - 1] is Some {
            before.push((n - 1) as usize)
        } else {
            before
        }
    }
}

/// The number of groups there are.
pub open spec fn alive<C>(groups: Seq<Option<Group10s<C>>>) -> nat {
    alive_ids(groups, groups.len()).len()
}

/// The slots that the first `n` groups take.
pub open spec fn total_slots<C>(groups: Seq<Option<Group10s<C>>>, n: nat) -> nat
    decreases n,
{
    if n == 0 {
        0
    } else {
        total_slots(groups, (n - 1) as nat) + cost(groups[n - 1])
    }
}

/// The slots that a group takes, if it is there.
pub open spec fn cost<C>(group: Option<Group10s<C>>) -> nat {
    match group {
        Some(g) => group::slots(g.bitmap@),
        None => 0,
    }
}

/// `sorted` lists the groups there are in a stable order by sort key.
pub open spec fn is_order<C: Centroid>(
    groups: Seq<Option<Group10s<C>>>,
    sorted: Seq<usize>,
) -> bool {
    exists|keys: Seq<u64>, order: Seq<usize>|
        {
            let ids = alive_ids(groups, groups.len());
            &&& keys.len() == ids.len()
            &&& forall|i: int|
                0 <= i < ids.len() ==> has_key(
                    (groups[ids[i] as int]->0).centroid,
                    #[trigger] keys[i],
                )
            &&& #[trigger] sort::is_stable_order(keys, order)
            &&& sorted == Seq::new(order.len(), |i: int| ids[order[i] as int])
        }
}

/// `key` is a sort key of the centre.
pub open spec fn has_key<C: Centroid>(centroid: C, key: u64) -> bool {
    exists|levels: [u32; 8]| #[trigger]
        call_ensures(C::levels, (&centroid,), levels) && key == group::sort_word(levels@)
}

/// Where a merge has got to.
pub struct MergeState<C> {
    /// The groups; `None` where one was merged into another.
    pub groups: Seq<Option<Group10s<C>>>,
    /// How often each group has taken in another.
    pub gens: Seq<usize>,
    /// The candidates.
    pub edges: Multiset<(u64, MergeEdge)>,
    /// The order in which close groups are looked for.
    pub sorted: Seq<usize>,
}

impl<C> MergeState<C> {
    /// `x` is a candidate, and none scores higher.
    pub open spec fn top(self, x: (u64, MergeEdge)) -> bool {
        &&& self.edges.contains(x)
        &&& forall|y: (u64, MergeEdge)| #[trigger] self.edges.contains(y) ==> y.0 <= x.0
    }

    /// One of the groups is gone or has changed since.
    pub open spec fn overtaken(self, e: MergeEdge) -> bool {
        ||| self.groups[e.a as int] is None
        ||| self.groups[e.b as int] is None
        ||| self.gens[e.a as int] != e.gen_a
        ||| self.gens[e.b as int] != e.gen_b
    }

    /// The slots that all groups take.
    pub open spec fn total(self) -> nat {
        total_slots(self.groups, self.groups.len())
    }
}

/// The best candidate is overtaken and dropped.
pub open spec fn is_drop<C>(s: MergeState<C>, t: MergeState<C>) -> bool {
    exists|x: (u64, MergeEdge)|
        s.top(x) && s.overtaken(x.1) && t == (MergeState { edges: #[trigger] s.edges.remove(x), ..s })
}

/// The first position of the window around position `pos`.
pub open spec fn window_low(pos: int) -> int {
    if pos < K_WINDOW {
        0
    } else {
        pos - K_WINDOW
    }
}

/// The position after the window around position `pos`.
pub open spec fn window_high(pos: int, len: int) -> int {
    if pos + K_WINDOW + 1 < len {
        pos + K_WINDOW + 1
    } else {
        len
    }
}

/// The group with the higher number of the best candidate `x` is merged into
/// the other, which gets new candidates from the window around it.
pub open spec fn is_merge_of<C: Centroid>(
    s: MergeState<C>,
    t: MergeState<C>,
    x: (u64, MergeEdge),
    pushed: Seq<(u64, MergeEdge)>,
) -> bool {
    let (a, b) = (x.1.a as int, x.1.b as int);
    let pos = s.sorted.index_of(x.1.a);
    &&& s.top(x)
    &&& !s.overtaken(x.1)
    &&& t.groups.len() == s.groups.len()
    &&& t.groups[a] is Some
    &&& group::is_merged(s.groups[a]->0, s.groups[b]->0, t.groups[a]->0)
    &&& t.groups == s.groups.update(a, t.groups[a]).update(b, None)
    &&& t.gens == s.gens.update(a, (s.gens[a] + 1) as usize)
    &&& t.sorted == s.sorted
    &&& are_edges(
        t.groups,
        t.gens,
        near_pairs(
            t.groups,
            s.sorted,
            x.1.a,
            window_low(pos),
            window_high(pos, s.sorted.len() as int),
        ),
        pushed,
    )
    &&& t.edges == s.edges.remove(x).add(pushed.to_multiset())
}

/// The best candidate is carried out.
pub open spec fn is_merge<C: Centroid>(s: MergeState<C>, t: MergeState<C>) -> bool {
    exists|x: (u64, MergeEdge), pushed: Seq<(u64, MergeEdge)>| #[trigger]
        is_merge_of(s, t, x, pushed)
}

/// How far apart candidates may be when `n` groups are put in order anew.
pub open spec fn rebuild_window(n: int) -> int {
    if n == 0 {
        0
    } else if n <= ALL_PAIRS_LIMIT {
        n - 1
    } else {
        K_WINDOW as int
    }
}

/// The candidates are those within `w` positions of each other in the order.
pub open spec fn has_window_edges<C: Centroid>(s: MergeState<C>, w: int) -> bool {
    exists|pushed: Seq<(u64, MergeEdge)>|
        {
            &&& #[trigger] are_edges(
                s.groups,
                s.gens,
                window_pairs(s.sorted, w, s.sorted.len()),
                pushed,
            )
            &&& s.edges == pushed.to_multiset()
        }
}

/// There are no candidates left; the groups are put in order anew.
pub open spec fn is_rebuild<C: Centroid>(s: MergeState<C>, t: MergeState<C>) -> bool {
    &&& s.edges.len() == 0
    &&& t.groups == s.groups
    &&& t.gens == s.gens
    &&& is_order(t.groups, t.sorted)
    &&& has_window_edges(t, rebuild_window(alive(t.groups) as int))
}

/// The groups before any merge, in order, with the candidates of the window.
pub open spec fn is_start<C: Centroid>(before: Seq<Group10s<C>>, s: MergeState<C>) -> bool {
    &&& s.groups == Seq::new(before.len(), |i: int| Some(before[i]))
    &&& s.gens == Seq::new(before.len(), |i: int| 0usize)
    &&& is_order(s.groups, s.sorted)
    &&& has_window_edges(s, K_WINDOW as int)
}

/// One step on the way from `s`.
#[verifier::opaque]
pub open spec fn is_merge_step<C: Centroid>(s: MergeState<C>, t: MergeState<C>) -> bool {
    ||| is_drop(s, t)
    ||| is_merge(s, t)
    ||| is_rebuild(s, t) && t.edges.len() > 0
}

/// `path` runs from the groups `before` step by step, as long as they take more
/// than `target` slots.
pub open spec fn is_merge_run<C: Centroid>(
    before: Seq<Group10s<C>>,
    target: int,
    path: Seq<MergeState<C>>,
) -> bool {
    &&& path.len() > 0
    &&& is_start(before, path[0])
    &&& forall|i: int| 0 < i < path.len() ==> #[trigger] steps_at(target, path, i)
}

/// State `i` follows from the one before it, which takes more than `target` slots.
pub open spec fn steps_at<C: Centroid>(target: int, path: Seq<MergeState<C>>, i: int) -> bool {
    path[i - 1].total() > target && is_merge_step(path[i - 1], path[i])
}

/// Nothing is left to merge: putting the groups in order anew gives no candidate.
pub open spec fn exhausted<C: Centroid>(s: MergeState<C>) -> bool {
    exists|t: MergeState<C>| #[trigger] is_rebuild(s, t) && t.edges.len() == 0
}

/// The groups there are among the first `n`.
pub open spec fn remaining<C>(groups: Seq<Option<Group10s<C>>>, n: nat) -> Seq<Group10s<C>>
    decreases n,
{
    if n == 0 {
        Seq::empty()
    } else {
        let before = remaining(groups, (n - 1) as nat);
        match groups[n - 1] {
            Some(g) => before.push(g),
            None => before,
        }
    }
}

/// `after` is what merging down to `target` slots makes of `before`.
pub open spec fn is_agglomerated<C: Centroid>(
    before: Seq<Group10s<C>>,
    target: int,
    after: Seq<Group10s<C>>,
) -> bool {
    let whole = Seq::new(before.len(), |i: int| Some(before[i]));
    if total_slots(whole, whole.len()) <= target || before.len() < 2 {
        after == before
    } else {
        exists|path: Seq<MergeState<C>>|
            {
                &&& #[trigger] is_merge_run(before, target, path)
                &&& path.last().total() <= target || exhausted(path.last())
                &&& after == remaining(path.last().groups, path.last().groups.len())
            }
    }
}

/// Every group there is belongs to an image with `tiles` tiles.
pub open spec fn groups_wf<C>(groups: Seq<Option<Group10s<C>>>, tiles: nat) -> bool {
    forall|g: int| 0 <= g < groups.len() && (#[trigger] groups[g]) is Some ==> (groups[g]->0).wf(
        tiles,
    )
}

/// The slots of both groups are counted, for the same number of tiles.
pub open spec fn can_join<C>(a: Group10s<C>, b: Group10s<C>) -> bool {
    &&& a.bitmap@.len() == b.bitmap@.len()
    &&& a.cached_slots == group::slots(a.bitmap@)
    &&& b.cached_slots == group::slots(b.bitmap@)
}

/// The candidate merge of two groups, if it saves a slot.
pub fn build_edge<C: Centroid>(
    groups: &Vec<Option<Group10s<C>>>,
    gens: &Vec<usize>,
    i: usize,
    j: usize,
) -> (edge: Option<(u64, MergeEdge)>)
    requires
        i < groups@.len(),
        j < groups@.len(),
        i != j,
        gens@.len() == groups@.len(),
        groups@[i as int] is Some,
        groups@[j as int] is Some,
        can_join(groups@[i as int]->0, groups@[j as int]->0),
    ensures
        edge is Some <==> worthwhile(groups@, i, j),
        edge matches Some(x) ==> is_edge(groups@, gens@, i, j, x),
{
    let a: usize = if i < j {
        i
    } else {
        j
    };
    let b: usize = if i < j {
        j
    } else {
        i
    };
    match (&groups[a], &groups[b]) {
        (Some(left), Some(right)) => {
            let saved: u32 = merge_savings(left, right);
            if saved < 1 {
                return None;
            }
            let score: u64 = left.centroid.score(&right.centroid, saved);
            Some((score, MergeEdge { a, b, gen_a: gens[a], gen_b: gens[b] }))
        },
        _ => None,
    }
}

/// It does not matter which of two groups is named first: merging them is the same
/// candidate, and as worthwhile.
pub proof fn law_edge_is_mutual<C: Centroid>(
    groups: Seq<Option<Group10s<C>>>,
    gens: Seq<usize>,
    i: usize,
    j: usize,
    x: (u64, MergeEdge),
)
    ensures
        worthwhile(groups, i, j) == worthwhile(groups, j, i),
        is_edge(groups, gens, i, j, x) == is_edge(groups, gens, j, i, x),
{
}

/// Every number in the list is that of a group there is.
spec fn all_alive<C>(groups: Seq<Option<Group10s<C>>>, list: Seq<usize>) -> bool {
    forall|p: int|
        0 <= p < list.len() ==> (#[trigger] list[p]) < groups.len() && groups[list[p] as int] is Some
}

proof fn lemma_edges_push<C: Centroid>(
    groups: Seq<Option<Group10s<C>>>,
    gens: Seq<usize>,
    pairs: Seq<(usize, usize)>,
    out: Seq<(u64, MergeEdge)>,
    i: usize,
    j: usize,
    edge: Option<(u64, MergeEdge)>,
)
    requires
        are_edges(groups, gens, pairs, out),
        edge is Some <==> worthwhile(groups, i, j),
        edge matches Some(x) ==> is_edge(groups, gens, i, j, x),
    ensures
        edge matches Some(x) ==> are_edges(groups, gens, pairs.push((i, j)), out.push(x)),
        edge is None ==> are_edges(groups, gens, pairs.push((i, j)), out),
{
    let longer = pairs.push((i, j));
    assert(longer.drop_last() =~= pairs);
    match edge {
        Some(x) => {
            assert(out.push(x).drop_last() =~= out);
        },
        None => {},
    }
}

/// Makes candidates of one more pair.
fn push_pair<C: Centroid>(
    groups: &Vec<Option<Group10s<C>>>,
    gens: &Vec<usize>,
    i: usize,
    j: usize,
    heap: &mut MaxHeap<MergeEdge>,
    Ghost(tiles): Ghost<nat>,
    Ghost(base): Ghost<Multiset<(u64, MergeEdge)>>,
    Ghost(pairs): Ghost<Seq<(usize, usize)>>,
    Ghost(out): Ghost<Seq<(u64, MergeEdge)>>,
) -> (more: Ghost<Seq<(u64, MergeEdge)>>)
    requires
        i < groups@.len(),
        j < groups@.len(),
        i != j,
        gens@.len() == groups@.len(),
        groups_wf(groups@, tiles),
        groups@[i as int] is Some,
        groups@[j as int] is Some,
        old(heap).wf(),
        old(heap)@ == base.add(out.to_multiset()),
        are_edges(groups@, gens@, pairs, out),
    ensures
        final(heap).wf(),
        final(heap)@ == base.add(more@.to_multiset()),
        are_edges(groups@, gens@, pairs.push((i, j)), more@),
{
    let edge: Option<(u64, MergeEdge)> = build_edge(groups, gens, i, j);
    proof {
        lemma_edges_push(groups@, gens@, pairs, out, i, j, edge);
    }
    match edge {
        Some(x) => {
            heap.push(x.0, x.1);
            proof {
                broadcast use vstd::seq_lib::group_to_multiset_ensures;

                assert(heap@ =~= base.add(out.push(x).to_multiset()));
            }
            Ghost(out.push(x))
        },
        None => Ghost(out),
    }
}

/// Makes candidates of all pairs within `w` positions of each other.
fn push_window<C: Centroid>(
    groups: &Vec<Option<Group10s<C>>>,
    gens: &Vec<usize>,
    sorted: &Vec<usize>,
    w: usize,
    heap: &mut MaxHeap<MergeEdge>,
    Ghost(tiles): Ghost<nat>,
) -> (pushed: Ghost<Seq<(u64, MergeEdge)>>)
    requires
        gens@.len() == groups@.len(),
        groups_wf(groups@, tiles),
        all_alive(groups@, sorted@),
        sorted@.no_duplicates(),
        old(heap).wf(),
        old(heap)@.len() == 0,
    ensures
        final(heap).wf(),
        final(heap)@ == pushed@.to_multiset(),
        are_edges(groups@, gens@, window_pairs(sorted@, w as int, sorted@.len()), pushed@),
{
    let ghost base = heap@;
    let ghost mut out = Seq::<(u64, MergeEdge)>::empty();
    let n: usize = sorted.len();
    proof {
        broadcast use vstd::seq_lib::group_to_multiset_ensures;

        assert(out.to_multiset() =~= Multiset::empty());
        assert(heap@ =~= base.add(out.to_multiset()));
    }
    let mut p: usize = 0;
    while p < n
        invariant
            p <= n,
            n == sorted@.len(),
            gens@.len() == groups@.len(),
            groups_wf(groups@, tiles),
            all_alive(groups@, sorted@),
            sorted@.no_duplicates(),
            heap.wf(),
            heap@ == base.add(out.to_multiset()),
            are_edges(groups@, gens@, window_pairs(sorted@, w as int, p as nat), out),
        decreases n - p,
    {
        let left: usize = n - 1 - p;
        let width: usize = if w < left {
            w
        } else {
            left
        };
        let ghost before = window_pairs(sorted@, w as int, p as nat);
        let ghost row = row_pairs(sorted@, p as int, w as int);
        assert(before + row.take(0) =~= before);
        let mut o: usize = 0;
        while o < width
            invariant
                o <= width,
                width <= n - 1 - p,
                p < n,
                n == sorted@.len(),
                gens@.len() == groups@.len(),
                groups_wf(groups@, tiles),
                all_alive(groups@, sorted@),
                sorted@.no_duplicates(),
                row == row_pairs(sorted@, p as int, w as int),
                row.len() == width,
                heap.wf(),
                heap@ == base.add(out.to_multiset()),
                are_edges(groups@, gens@, before + row.take(o as int), out),
            decreases width - o,
        {
            let i: usize = sorted[p];
            let j: usize = sorted[p + 1 + o];
            let more: Ghost<Seq<(u64, MergeEdge)>> = push_pair(
                groups,
                gens,
                i,
                j,
                heap,
                Ghost(tiles),
                Ghost(base),
                Ghost(before + row.take(o as int)),
                Ghost(out),
            );
            proof {
                out = more@;
                assert((before + row.take(o as int)).push((i, j)) =~= before + row.take(o + 1));
            }
            o = o + 1;
        }
        assert(row.take(width as int) =~= row);
        p = p + 1;
    }
    proof {
        assert(heap@ =~= out.to_multiset());
    }
    Ghost(out)
}

/// Makes candidates of group `a` and the groups around it.
fn push_near<C: Centroid>(
    groups: &Vec<Option<Group10s<C>>>,
    gens: &Vec<usize>,
    sorted: &Vec<usize>,
    a: usize,
    lo: usize,
    hi: usize,
    heap: &mut MaxHeap<MergeEdge>,
    Ghost(tiles): Ghost<nat>,
) -> (pushed: Ghost<Seq<(u64, MergeEdge)>>)
    requires
        gens@.len() == groups@.len(),
        groups_wf(groups@, tiles),
        a < groups@.len(),
        groups@[a as int] is Some,
        lo <= hi <= sorted@.len(),
        forall|p: int| 0 <= p < sorted@.len() ==> #[trigger] sorted@[p] < groups@.len(),
        old(heap).wf(),
    ensures
        final(heap).wf(),
        final(heap)@ == old(heap)@.add(pushed@.to_multiset()),
        are_edges(
            groups@,
            gens@,
            near_pairs(groups@, sorted@, a, lo as int, hi as int),
            pushed@,
        ),
{
    let ghost base = heap@;
    let ghost mut out = Seq::<(u64, MergeEdge)>::empty();
    proof {
        broadcast use vstd::seq_lib::group_to_multiset_ensures;

        assert(out.to_multiset() =~= Multiset::empty());
        assert(heap@ =~= base.add(out.to_multiset()));
    }
    let mut p: usize = lo;
    while p < hi
        invariant
            lo <= p <= hi,
            hi <= sorted@.len(),
            gens@.len() == groups@.len(),
            groups_wf(groups@, tiles),
            a < groups@.len(),
            groups@[a as int] is Some,
            forall|q: int| 0 <= q < sorted@.len() ==> #[trigger] sorted@[q] < groups@.len(),
            heap.wf(),
            heap@ == base.add(out.to_multiset()),
            are_edges(groups@, gens@, near_pairs(groups@, sorted@, a, lo as int, p as int), out),
        decreases hi - p,
    {
        let g: usize = sorted[p];
        let there: bool = match &groups[g] {
            Some(_) => true,
            None => false,
        };
        if g != a && there {
            let more: Ghost<Seq<(u64, MergeEdge)>> = push_pair(
                groups,
                gens,
                a,
                g,
                heap,
                Ghost(tiles),
                Ghost(base),
                Ghost(near_pairs(groups@, sorted@, a, lo as int, p as int)),
                Ghost(out),
            );
            proof {
                out = more@;
            }
        }
        p = p + 1;
    }
    Ghost(out)
}

proof fn lemma_alive_ids<C>(groups: Seq<Option<Group10s<C>>>, n: nat)
    requires
        n <= groups.len(),
        n <= usize::MAX,
    ensures
        alive_ids(groups, n).len() <= n,
        alive_ids(groups, n).no_duplicates(),
        forall|p: int|
            0 <= p < alive_ids(groups, n).len() ==> (#[trigger] alive_ids(groups, n)[p]) < n
                && groups[alive_ids(groups, n)[p] as int] is Some,
        forall|g: int|
            0 <= g < n && (#[trigger] groups[g]) is Some ==> alive_ids(groups, n).contains(
                g as usize,
            ),
    decreases n,
{
    if n > 0 {
        lemma_alive_ids(groups, (n - 1) as nat);
        let before = alive_ids(groups, (n - 1) as nat);
        let now = alive_ids(groups, n);
        assert forall|g: int| 0 <= g < n && (#[trigger] groups[g]) is Some implies now.contains(
            g as usize,
        ) by {
            if g < n - 1 {
                let p = choose|p: int| 0 <= p < before.len() && before[p] == g as usize;
                assert(now[p] == g as usize);
            } else {
                assert(now[now.len() - 1] == g as usize);
            }
        }
    }
}

/// The groups there are, in a stable order by sort key.
fn order_groups<C: Centroid>(groups: &Vec<Option<Group10s<C>>>) -> (sorted: Vec<usize>)
    ensures
        is_order(groups@, sorted@),
        all_alive(groups@, sorted@),
        sorted@.no_duplicates(),
        sorted@.len() == alive(groups@),
        forall|g: int|
            0 <= g < groups@.len() && (#[trigger] groups@[g]) is Some ==> sorted@.contains(
                g as usize,
            ),
{
    let mut ids: Vec<usize> = Vec::new();
    let mut keys: Vec<u64> = Vec::new();
    let mut g: usize = 0;
    while g < groups.len()
        invariant
            g <= groups@.len(),
            ids@ == alive_ids(groups@, g as nat),
            keys@.len() == ids@.len(),
            forall|i: int| 0 <= i < ids@.len() ==> (#[trigger] ids@[i]) < g,
            forall|i: int|
                0 <= i < ids@.len() ==> has_key(
                    (groups@[ids@[i] as int]->0).centroid,
                    #[trigger] keys@[i],
                ),
        decreases groups@.len() - g,
    {
        match &groups[g] {
            Some(group) => {
                let levels: [u32; 8] = group.centroid.levels();
                let key: u32 = centroid_sort_key(&levels);
                ids.push(g);
                keys.push(key as u64);
                assert(has_key((groups@[g as int]->0).centroid, key as u64));
            },
            None => {},
        }
        g = g + 1;
    }
    let order: Vec<usize> = sort::stable_order(&keys);
    let mut sorted: Vec<usize> = Vec::new();
    let mut i: usize = 0;
    while i < order.len()
        invariant
            i <= order@.len(),
            keys@.len() == ids@.len(),
            sort::is_stable_order(keys@, order@),
            sorted@.len() == i,
            forall|p: int| 0 <= p < i ==> #[trigger] sorted@[p] == ids@[order@[p] as int],
        decreases order@.len() - i,
    {
        sorted.push(ids[order[i]]);
        i = i + 1;
    }
    proof {
        assert(groups.len() == groups@.len());
        lemma_alive_ids(groups@, groups@.len());
        assert(sorted@ =~= Seq::new(order@.len(), |i: int| ids@[order@[i] as int]));
        assert forall|p: int, q: int|
            0 <= p < sorted@.len() && 0 <= q < sorted@.len() && p != q implies sorted@[p]
            != sorted@[q] by {
            assert(order@[p] != order@[q]) by {
                if p < q {
                    assert(sort::sorts_before(keys@, order@[p] as int, order@[q] as int));
                } else {
                    assert(sort::sorts_before(keys@, order@[q] as int, order@[p] as int));
                }
            }
        }
        assert forall|g: int| 0 <= g < groups@.len() && (#[trigger] groups@[g]) is Some implies sorted@.contains(
        g as usize) by {
            let p = choose|p: int| 0 <= p < ids@.len() && ids@[p] == g as usize;
            assert(keys.len() == keys@.len());
            assert(order@.contains(p as usize));
            let q = choose|q: int| 0 <= q < order@.len() && order@[q] == p as usize;
            assert(sorted@[q] == g as usize);
        }
    }
    sorted
}

proof fn lemma_total_update<C>(
    groups: Seq<Option<Group10s<C>>>,
    i: int,
    x: Option<Group10s<C>>,
    n: nat,
)
    requires
        0 <= i < groups.len(),
        n <= groups.len(),
    ensures
        total_slots(groups.update(i, x), n) + if i < n {
            cost(groups[i])
        } else {
            0
        } == total_slots(groups, n) + if i < n {
            cost(x)
        } else {
            0
        },
    decreases n,
{
    if n > 0 {
        lemma_total_update(groups, i, x, (n - 1) as nat);
    }
}

proof fn lemma_total_parts<C>(groups: Seq<Option<Group10s<C>>>, a: int, b: int, n: nat)
    requires
        0 <= a < b < n <= groups.len(),
    ensures
        cost(groups[a]) + cost(groups[b]) <= total_slots(groups, n),
    decreases n,
{
    if b < n - 1 {
        lemma_total_parts(groups, a, b, (n - 1) as nat);
    } else {
        lemma_total_part(groups, a, (n - 1) as nat);
    }
}

proof fn lemma_total_part<C>(groups: Seq<Option<Group10s<C>>>, a: int, n: nat)
    requires
        0 <= a < n <= groups.len(),
    ensures
        cost(groups[a]) <= total_slots(groups, n),
    decreases n,
{
    if a < n - 1 {
        lemma_total_part(groups, a, (n - 1) as nat);
    }
}

proof fn lemma_alive_update<C>(
    groups: Seq<Option<Group10s<C>>>,
    i: int,
    x: Option<Group10s<C>>,
    n: nat,
)
    requires
        0 <= i < groups.len(),
        n <= groups.len(),
    ensures
        (groups[i] is Some) == (x is Some) ==> alive_ids(groups.update(i, x), n) == alive_ids(
            groups,
            n,
        ),
        groups[i] is Some && x is None ==> alive_ids(groups.update(i, x), n).len() + if i < n {
            1nat
        } else {
            0nat
        } == alive_ids(groups, n).len(),
    decreases n,
{
    if n > 0 {
        lemma_alive_update(groups, i, x, (n - 1) as nat);
    }
}

/// The slots that all groups take.
fn sum_slots<C>(groups: &Vec<Option<Group10s<C>>>, Ghost(tiles): Ghost<nat>) -> (total: u128)
    requires
        groups_wf(groups@, tiles),
    ensures
        total == total_slots(groups@, groups@.len()),
{
    let mut total: u128 = 0;
    let mut g: usize = 0;
    while g < groups.len()
        invariant
            g <= groups@.len(),
            groups_wf(groups@, tiles),
            total == total_slots(groups@, g as nat),
            total <= 64 * g,
        decreases groups@.len() - g,
    {
        match &groups[g] {
            Some(group) => {
                proof {
                    assert(group.wf(tiles));
                    group::lemma_slots(group.bitmap@);
                }
                total = total + group.slot_count() as u128;
            },
            None => {},
        }
        g = g + 1;
    }
    total
}

/// Where the pixels of group `g` have gone includes pixel `m` of group `o`.
pub open spec fn came_from<C>(
    before: Seq<Group10s<C>>,
    into: Seq<int>,
    offset: Seq<int>,
    g: int,
    o: int,
    m: int,
) -> bool {
    &&& 0 <= g < before.len()
    &&& into[g] == o
    &&& offset[g] <= m < offset[g] + before[g].pixels@.len()
}

/// The pixels of each group `g` stand together in group `into[g]`, from
/// position `offset[g]` on, and no others stand anywhere.
pub open spec fn is_regrouping<C>(
    before: Seq<Group10s<C>>,
    after: Seq<Option<Group10s<C>>>,
    into: Seq<int>,
    offset: Seq<int>,
) -> bool {
    &&& into.len() == before.len()
    &&& offset.len() == before.len()
    &&& forall|g: int|
        0 <= g < before.len() ==> {
            &&& 0 <= #[trigger] into[g] < after.len()
            &&& after[into[g]] is Some
            &&& 0 <= offset[g]
            &&& offset[g] + before[g].pixels@.len() <= (after[into[g]]->0).pixels@.len()
        }
    &&& forall|g: int, j: int|
        0 <= g < before.len() && 0 <= j < before[g].pixels@.len()
            ==> (after[into[g]]->0).pixels@[offset[g] + j] == #[trigger] before[g].pixels@[j]
    &&& forall|o: int, m: int|
        0 <= o < after.len() && after[o] is Some && 0 <= m < (after[o]->0).pixels@.len()
            ==> #[trigger] is_filled(before, into, offset, o, m)
    &&& forall|g: int, h: int, o: int, m: int| #[trigger]
        came_from(before, into, offset, g, o, m) && #[trigger] came_from(
            before,
            into,
            offset,
            h,
            o,
            m,
        ) ==> g == h
}

/// Pixel `m` of group `o` comes from one of the groups before.
pub open spec fn is_filled<C>(
    before: Seq<Group10s<C>>,
    into: Seq<int>,
    offset: Seq<int>,
    o: int,
    m: int,
) -> bool {
    exists|g: int| #[trigger] came_from(before, into, offset, g, o, m)
}

/// Where the groups have gone after `b` was merged into `a`.
spec fn merged_into(into: Seq<int>, a: int, b: int) -> Seq<int> {
    Seq::new(
        into.len(),
        |g: int|
            if into[g] == b {
                a
            } else {
                into[g]
            },
    )
}

/// Where their pixels stand after that, when `a` had `n` pixels.
spec fn merged_offset(into: Seq<int>, offset: Seq<int>, b: int, n: int) -> Seq<int> {
    Seq::new(
        into.len(),
        |g: int|
            if into[g] == b {
                offset[g] + n
            } else {
                offset[g]
            },
    )
}

proof fn lemma_regroup_merge<C: Centroid>(
    before: Seq<Group10s<C>>,
    s: Seq<Option<Group10s<C>>>,
    t: Seq<Option<Group10s<C>>>,
    a: int,
    b: int,
    into: Seq<int>,
    offset: Seq<int>,
)
    requires
        is_regrouping(before, s, into, offset),
        0 <= a < s.len(),
        0 <= b < s.len(),
        a != b,
        s[a] is Some,
        s[b] is Some,
        t[a] is Some,
        group::is_merged(s[a]->0, s[b]->0, t[a]->0),
        t.len() == s.len(),
        t == s.update(a, t[a]).update(b, None),
    ensures
        is_regrouping(
            before,
            t,
            merged_into(into, a, b),
            merged_offset(into, offset, b, (s[a]->0).pixels@.len() as int),
        ),
{
    let n = (s[a]->0).pixels@.len() as int;
    let into2 = merged_into(into, a, b);
    let offset2 = merged_offset(into, offset, b, n);
    assert forall|g: int, j: int|
        0 <= g < before.len() && 0 <= j < before[g].pixels@.len() implies (
    t[into2[g]]->0).pixels@[offset2[g] + j] == #[trigger] before[g].pixels@[j] by {
        assert((s[into[g]]->0).pixels@[offset[g] + j] == before[g].pixels@[j]);
        assert(0 <= into[g] < s.len());
    }
    assert forall|g: int| 0 <= g < before.len() implies {
        &&& 0 <= #[trigger] into2[g] < t.len()
        &&& t[into2[g]] is Some
        &&& 0 <= offset2[g]
        &&& offset2[g] + before[g].pixels@.len() <= (t[into2[g]]->0).pixels@.len()
    } by {
        assert(0 <= into[g] < s.len());
    }
    assert forall|o: int, m: int|
        0 <= o < t.len() && t[o] is Some && 0 <= m < (
        t[o]->0).pixels@.len() implies #[trigger] is_filled(before, into2, offset2, o, m) by {
        let (o1, m1) = if o == a && m >= n {
            (b, m - n)
        } else {
            (o, m)
        };
        assert(is_filled(before, into, offset, o1, m1));
        let g = choose|g: int| #[trigger] came_from(before, into, offset, g, o1, m1);
        assert(came_from(before, into2, offset2, g, o, m));
    }
    assert forall|g: int, h: int, o: int, m: int| #[trigger]
        came_from(before, into2, offset2, g, o, m) && #[trigger] came_from(
            before,
            into2,
            offset2,
            h,
            o,
            m,
        ) implies g == h by {
        let gm = if into[g] == b {
            m - n
        } else {
            m
        };
        let hm = if into[h] == b {
            m - n
        } else {
            m
        };
        assert(came_from(before, into, offset, g, into[g], gm));
        assert(came_from(before, into, offset, h, into[h], hm));
        assert(0 <= into[g] < s.len() && 0 <= into[h] < s.len());
        if into[g] == into[h] {
            assert(gm == hm);
        } else {
            if into[g] == b {
                assert(into[h] == a);
            } else if into[h] == b {
                assert(into[g] == a);
            }
            assert(false);
        }
    }
}

/// `x` joins one of the pairs.
spec fn joins<C: Centroid>(
    groups: Seq<Option<Group10s<C>>>,
    gens: Seq<usize>,
    pairs: Seq<(usize, usize)>,
    x: (u64, MergeEdge),
) -> bool {
    exists|q: int|
        0 <= q < pairs.len() && is_edge(groups, gens, (#[trigger] pairs[q]).0, pairs[q].1, x)
}

proof fn lemma_edges_join<C: Centroid>(
    groups: Seq<Option<Group10s<C>>>,
    gens: Seq<usize>,
    pairs: Seq<(usize, usize)>,
    out: Seq<(u64, MergeEdge)>,
)
    requires
        are_edges(groups, gens, pairs, out),
    ensures
        forall|m: int| 0 <= m < out.len() ==> joins(groups, gens, pairs, #[trigger] out[m]),
    decreases pairs.len(),
{
    if pairs.len() > 0 {
        let (i, j) = pairs.last();
        let shorter = pairs.drop_last();
        let rest = if worthwhile(groups, i, j) {
            out.drop_last()
        } else {
            out
        };
        lemma_edges_join(groups, gens, shorter, rest);
        assert forall|m: int| 0 <= m < out.len() implies joins(
            groups,
            gens,
            pairs,
            #[trigger] out[m],
        ) by {
            if m < rest.len() {
                assert(rest[m] == out[m]);
                let q = choose|q: int|
                    0 <= q < shorter.len() && is_edge(
                        groups,
                        gens,
                        (#[trigger] shorter[q]).0,
                        shorter[q].1,
                        rest[m],
                    );
                assert(pairs[q] == shorter[q]);
            } else {
                assert(pairs[pairs.len() - 1] == (i, j));
            }
        }
    }
}

/// Both members of each pair are groups there are, and they differ.
spec fn pairs_alive<C>(
    groups: Seq<Option<Group10s<C>>>,
    pairs: Seq<(usize, usize)>,
) -> bool {
    forall|q: int|
        0 <= q < pairs.len() ==> {
            &&& (#[trigger] pairs[q]).0 < groups.len()
            &&& pairs[q].1 < groups.len()
            &&& pairs[q].0 != pairs[q].1
            &&& groups[pairs[q].0 as int] is Some
            &&& groups[pairs[q].1 as int] is Some
        }
}

proof fn lemma_window_alive<C>(
    groups: Seq<Option<Group10s<C>>>,
    sorted: Seq<usize>,
    w: int,
    rows: nat,
)
    requires
        all_alive(groups, sorted),
        sorted.no_duplicates(),
        rows <= sorted.len(),
        0 <= w,
    ensures
        pairs_alive(groups, window_pairs(sorted, w, rows)),
    decreases rows,
{
    if rows > 0 {
        lemma_window_alive(groups, sorted, w, (rows - 1) as nat);
        let before = window_pairs(sorted, w, (rows - 1) as nat);
        let row = row_pairs(sorted, rows - 1, w);
        let pairs = window_pairs(sorted, w, rows);
        assert forall|q: int| 0 <= q < pairs.len() implies {
            &&& (#[trigger] pairs[q]).0 < groups.len()
            &&& pairs[q].1 < groups.len()
            &&& pairs[q].0 != pairs[q].1
            &&& groups[pairs[q].0 as int] is Some
            &&& groups[pairs[q].1 as int] is Some
        } by {
            if q < before.len() {
                assert(pairs[q] == before[q]);
            } else {
                let o = q - before.len();
                assert(pairs[q] == row[o]);
                assert(row[o] == (sorted[rows - 1], sorted[rows - 1 + 1 + o]));
            }
        }
    }
}

proof fn lemma_near_alive<C>(
    groups: Seq<Option<Group10s<C>>>,
    sorted: Seq<usize>,
    a: usize,
    lo: int,
    hi: int,
)
    requires
        a < groups.len(),
        groups[a as int] is Some,
        0 <= lo,
        hi <= sorted.len(),
        forall|p: int| 0 <= p < sorted.len() ==> #[trigger] sorted[p] < groups.len(),
    ensures
        pairs_alive(groups, near_pairs(groups, sorted, a, lo, hi)),
    decreases hi - lo,
{
    if lo < hi {
        lemma_near_alive(groups, sorted, a, lo, hi - 1);
    }
}

impl<C> MergeState<C> {
    /// The groups belong to an image with `tiles` tiles, every group is in the
    /// order, and every candidate joins two groups.
    spec fn sound(self, tiles: nat) -> bool {
        &&& self.gens.len() == self.groups.len()
        &&& groups_wf(self.groups, tiles)
        &&& self.sorted.no_duplicates()
        &&& forall|p: int|
            0 <= p < self.sorted.len() ==> #[trigger] self.sorted[p] < self.groups.len()
        &&& forall|g: int|
            0 <= g < self.groups.len() && (#[trigger] self.groups[g]) is Some
                ==> self.sorted.contains(g as usize)
        &&& forall|x: (u64, MergeEdge)| #[trigger]
            self.edges.contains(x) ==> x.1.a < x.1.b < self.groups.len()
    }
}

/// The numbers of the positions where the groups there are stand in the order.
spec fn places<C>(groups: Seq<Option<Group10s<C>>>, sorted: Seq<usize>, position: Seq<usize>) -> bool {
    &&& position.len() == groups.len()
    &&& forall|g: int|
        0 <= g < groups.len() && (#[trigger] groups[g]) is Some ==> position[g] < sorted.len()
            && sorted[position[g] as int] == g
}

fn place_groups<C>(
    groups: &Vec<Option<Group10s<C>>>,
    sorted: &Vec<usize>,
    position: &mut Vec<usize>,
)
    requires
        old(position)@.len() == groups@.len(),
        sorted@.no_duplicates(),
        forall|p: int| 0 <= p < sorted@.len() ==> #[trigger] sorted@[p] < groups@.len(),
        forall|g: int|
            0 <= g < groups@.len() && (#[trigger] groups@[g]) is Some ==> sorted@.contains(
                g as usize,
            ),
    ensures
        places(groups@, sorted@, final(position)@),
{
    let mut p: usize = 0;
    while p < sorted.len()
        invariant
            p <= sorted@.len(),
            position@.len() == groups@.len(),
            sorted@.no_duplicates(),
            forall|q: int| 0 <= q < sorted@.len() ==> #[trigger] sorted@[q] < groups@.len(),
            forall|q: int| 0 <= q < p ==> position@[(#[trigger] sorted@[q]) as int] == q,
        decreases sorted@.len() - p,
    {
        position[sorted[p]] = p;
        p = p + 1;
    }
    proof {
        assert forall|g: int| 0 <= g < groups@.len() && (#[trigger] groups@[g]) is Some implies position@[g]
            < sorted@.len() && sorted@[position@[g] as int] == g by {
            assert(groups.len() == groups@.len());
            let q = choose|q: int| 0 <= q < sorted@.len() && sorted@[q] == g as usize;
            assert(position@[sorted@[q] as int] == q);
        }
    }
}

/// Takes the group out of its place.
fn take_group<C>(groups: &mut Vec<Option<Group10s<C>>>, i: usize) -> (g: Option<Group10s<C>>)
    requires
        i < old(groups)@.len(),
    ensures
        g == old(groups)@[i as int],
        final(groups)@ == old(groups)@.update(i as int, None),
{
    let mut g: Option<Group10s<C>> = None;
    std::mem::swap(&mut g, &mut groups[i]);
    g
}

/// Carries out the candidate `x`.
fn carry_out<C: Centroid>(
    groups: &mut Vec<Option<Group10s<C>>>,
    gens: &mut Vec<usize>,
    sorted: &Vec<usize>,
    position: &Vec<usize>,
    heap: &mut MaxHeap<MergeEdge>,
    total: &mut u128,
    x: (u64, MergeEdge),
    Ghost(tiles): Ghost<nat>,
    Ghost(s): Ghost<MergeState<C>>,
) -> (t: Ghost<MergeState<C>>)
    requires
        s.sound(tiles),
        s.top(x),
        !s.overtaken(x.1),
        old(groups)@ == s.groups,
        old(gens)@ == s.gens,
        sorted@ == s.sorted,
        places(s.groups, s.sorted, position@),
        old(heap).wf(),
        old(heap)@ == s.edges.remove(x),
        *old(total) == s.total(),
        s.gens[x.1.a as int] < usize::MAX,
    ensures
        t@.sound(tiles),
        is_merge(s, t@),
        final(groups)@ == t@.groups,
        final(gens)@ == t@.gens,
        sorted@ == t@.sorted,
        places(t@.groups, t@.sorted, position@),
        final(heap).wf(),
        final(heap)@ == t@.edges,
        *final(total) == t@.total(),
        alive(t@.groups) + 1 == alive(s.groups),
        t@.gens == s.gens.update(x.1.a as int, (s.gens[x.1.a as int] + 1) as usize),
        t@.groups.len() == s.groups.len(),
        t@.total() <= s.total(),
        t@.groups[x.1.a as int] is Some,
        is_merged_at(s.groups, t@.groups, x.1.a as int, x.1.b as int),
{
    let a: usize = x.1.a;
    let b: usize = x.1.b;
    let ghost n = s.groups.len();
    let mut merged: Option<Group10s<C>> = None;
    match (take_group(groups, a), take_group(groups, b)) {
        (Some(left), Some(right)) => {
            let mut dst: Group10s<C> = left;
            assert(s.groups[a as int]->0 == left && s.groups[b as int]->0 == right);
            assert(left.wf(tiles) && right.wf(tiles));
            let before: u128 = dst.slot_count() as u128 + right.slot_count() as u128;
            let ghost src = right;
            merge_into(&mut dst, right);
            let after: u128 = dst.slot_count() as u128;
            proof {
                group::lemma_merged_wf(left, src, dst, tiles);
                lemma_total_parts(s.groups, a as int, b as int, n);
                lemma_total_update(s.groups, a as int, Some(dst), n);
                lemma_total_update(s.groups.update(a as int, Some(dst)), b as int, None, n);
                lemma_alive_update(s.groups, a as int, Some(dst), n);
                lemma_alive_update(s.groups.update(a as int, Some(dst)), b as int, None, n);
                group::lemma_union_slots(left.bitmap@, src.bitmap@);
                group::lemma_slots(dst.bitmap@);
            }
            *total = *total - before + after;
            merged = Some(dst);
        },
        _ => {},
    }
    groups[a] = merged;
    let ghost gs = groups@;
    assert(gs =~= s.groups.update(a as int, merged).update(b as int, None));
    let gen: usize = gens[a];
    gens[a] = gen + 1;
    let pos: usize = position[a];
    let lo: usize = if pos < K_WINDOW {
        0
    } else {
        pos - K_WINDOW
    };
    let hi: usize = if sorted.len() - pos <= K_WINDOW + 1 {
        sorted.len()
    } else {
        pos + K_WINDOW + 1
    };
    let pushed: Ghost<Seq<(u64, MergeEdge)>> = push_near(
        groups,
        gens,
        sorted,
        a,
        lo,
        hi,
        heap,
        Ghost(tiles),
    );
    let ghost t = MergeState {
        groups: groups@,
        gens: gens@,
        edges: heap@,
        sorted: sorted@,
    };
    proof {
        assert(s.sorted.index_of(a) == pos);
        assert(is_merge_of(s, t, x, pushed@));
        let pairs = near_pairs(t.groups, sorted@, a, lo as int, hi as int);
        lemma_near_alive(t.groups, sorted@, a, lo as int, hi as int);
        lemma_edges_join(t.groups, t.gens, pairs, pushed@);
        lemma_joined_ordered(t.groups, t.gens, pairs, pushed@);
        assert forall|y: (u64, MergeEdge)| #[trigger] t.edges.contains(y) implies y.1.a < y.1.b
            < n by {
            if s.edges.contains(y) {
            } else {
                assert(pushed@.to_multiset().contains(y));
            }
        }
    }
    Ghost(t)
}

/// Group `b` was merged into group `a` and nothing else has changed.
spec fn is_merged_at<C: Centroid>(
    s: Seq<Option<Group10s<C>>>,
    t: Seq<Option<Group10s<C>>>,
    a: int,
    b: int,
) -> bool {
    &&& group::is_merged(s[a]->0, s[b]->0, t[a]->0)
    &&& t == s.update(a, t[a]).update(b, None)
}

proof fn lemma_joined_ordered<C: Centroid>(
    groups: Seq<Option<Group10s<C>>>,
    gens: Seq<usize>,
    pairs: Seq<(usize, usize)>,
    out: Seq<(u64, MergeEdge)>,
)
    requires
        pairs_alive(groups, pairs),
        forall|m: int| 0 <= m < out.len() ==> joins(groups, gens, pairs, #[trigger] out[m]),
    ensures
        forall|y: (u64, MergeEdge)| #[trigger]
            out.to_multiset().contains(y) ==> {
                &&& y.1.a < y.1.b < groups.len()
                &&& groups[y.1.a as int] is Some
                &&& groups[y.1.b as int] is Some
                &&& gens[y.1.a as int] == y.1.gen_a
                &&& gens[y.1.b as int] == y.1.gen_b
            },
{
    assert forall|y: (u64, MergeEdge)| #[trigger] out.to_multiset().contains(y) implies {
        &&& y.1.a < y.1.b < groups.len()
        &&& groups[y.1.a as int] is Some
        &&& groups[y.1.b as int] is Some
        &&& gens[y.1.a as int] == y.1.gen_a
        &&& gens[y.1.b as int] == y.1.gen_b
    } by {
        vstd::seq_lib::to_multiset_contains(out, y);
        let m = choose|m: int| 0 <= m < out.len() && out[m] == y;
        assert(joins(groups, gens, pairs, out[m]));
    }
}

proof fn lemma_remaining<C>(groups: Seq<Option<Group10s<C>>>, n: nat)
    requires
        n <= groups.len(),
        n <= usize::MAX,
    ensures
        remaining(groups, n).len() == alive_ids(groups, n).len(),
        forall|p: int|
            0 <= p < remaining(groups, n).len() ==> #[trigger] remaining(groups, n)[p] == groups[alive_ids(
                groups,
                n,
            )[p] as int]->0,
    decreases n,
{
    if n > 0 {
        lemma_remaining(groups, (n - 1) as nat);
    }
}

/// The groups, all of them there.
pub open spec fn whole<C>(groups: Seq<Group10s<C>>) -> Seq<Option<Group10s<C>>> {
    Seq::new(groups.len(), |i: int| Some(groups[i]))
}

/// Every pixel of `before` stands once in `after`, together with the pixels of
/// its group, and nothing else stands there.
pub open spec fn is_coarsening<C>(before: Seq<Group10s<C>>, after: Seq<Group10s<C>>) -> bool {
    exists|into: Seq<int>, offset: Seq<int>| #[trigger]
        is_regrouping(before, whole(after), into, offset)
}

proof fn lemma_compact<C>(
    before: Seq<Group10s<C>>,
    groups: Seq<Option<Group10s<C>>>,
    into: Seq<int>,
    offset: Seq<int>,
)
    requires
        groups.len() <= usize::MAX,
        is_regrouping(before, groups, into, offset),
    ensures
        is_coarsening(before, remaining(groups, groups.len())),
{
    let ids = alive_ids(groups, groups.len());
    let after = remaining(groups, groups.len());
    lemma_alive_ids(groups, groups.len());
    lemma_remaining(groups, groups.len());
    let into2 = Seq::new(into.len(), |g: int| ids.index_of(into[g] as usize));
    assert forall|g: int| 0 <= g < before.len() implies 0 <= #[trigger] into2[g] < after.len()
        && ids[into2[g]] == into[g] && after[into2[g]] == groups[into[g]]->0 by {
        assert(0 <= into[g] < groups.len());
        assert(groups[into[g]] is Some);
        assert(ids.contains(into[g] as usize));
    }
    assert forall|g: int, j: int|
        0 <= g < before.len() && 0 <= j < before[g].pixels@.len() implies (
    whole(after)[into2[g]]->0).pixels@[offset[g] + j] == #[trigger] before[g].pixels@[j] by {
        assert(0 <= into2[g] < after.len());
    }
    assert forall|o: int, m: int|
        0 <= o < after.len() && 0 <= m < (
        whole(after)[o]->0).pixels@.len() implies #[trigger] is_filled(
        before,
        into2,
        offset,
        o,
        m,
    ) by {
        let id = ids[o] as int;
        assert(after[o] == groups[id]->0);
        assert(is_filled(before, into, offset, id, m));
        let g = choose|g: int| #[trigger] came_from(before, into, offset, g, id, m);
        assert(0 <= into2[g] < after.len());
        assert(ids[into2[g]] == ids[o]);
        assert(came_from(before, into2, offset, g, o, m));
    }
    assert forall|g: int, h: int, o: int, m: int| #[trigger]
        came_from(before, into2, offset, g, o, m) && #[trigger] came_from(
            before,
            into2,
            offset,
            h,
            o,
            m,
        ) implies g == h by {
        assert(0 <= into2[g] < after.len() && 0 <= into2[h] < after.len());
        assert(came_from(before, into, offset, g, into[g], m));
        assert(came_from(before, into, offset, h, into[g], m));
    }
    assert(is_regrouping(before, whole(after), into2, offset));
}

/// The pixels of a group, if there is one.
pub open spec fn pixels_in<C>(group: Option<Group10s<C>>) -> Multiset<Pixel> {
    match group {
        Some(g) => g.pixels@.to_multiset(),
        None => Multiset::empty(),
    }
}

/// The pixels of the first `n` groups, each as often as it stands in them.
pub open spec fn pixels_of<C>(groups: Seq<Option<Group10s<C>>>, n: nat) -> Multiset<Pixel>
    decreases n,
{
    if n == 0 {
        Multiset::empty()
    } else {
        pixels_of(groups, (n - 1) as nat).add(pixels_in(groups[n - 1]))
    }
}

proof fn lemma_pixels_update<C>(
    groups: Seq<Option<Group10s<C>>>,
    i: int,
    group: Option<Group10s<C>>,
    n: nat,
)
    requires
        0 <= i < groups.len(),
        n <= groups.len(),
    ensures
        pixels_of(groups.update(i, group), n).add(
            if i < n {
                pixels_in(groups[i])
            } else {
                Multiset::empty()
            },
        ) =~= pixels_of(groups, n).add(
            if i < n {
                pixels_in(group)
            } else {
                Multiset::empty()
            },
        ),
    decreases n,
{
    if n > 0 {
        lemma_pixels_update(groups, i, group, (n - 1) as nat);
        let none = Multiset::<Pixel>::empty();
        let (x, y) = (pixels_of(groups, (n - 1) as nat), pixels_in(groups[n - 1]));
        let (z, w) = (
            pixels_of(groups.update(i, group), (n - 1) as nat),
            pixels_in(groups.update(i, group)[n - 1]),
        );
        if i < n - 1 {
            let (p, q) = (pixels_in(groups[i]), pixels_in(group));
            assert(y == w);
            assert(z.add(w).add(p) =~= z.add(p).add(w));
            assert(x.add(y).add(q) =~= x.add(q).add(y));
        } else {
            assert(z.add(none) =~= z);
            assert(x.add(none) =~= x);
            assert(x == z);
            if i == n - 1 {
                assert(z.add(w).add(y) =~= x.add(y).add(w));
            }
        }
    }
}

/// Merging one group into another keeps the pixels.
proof fn lemma_merge_keeps_pixels<C: Centroid>(
    s: Seq<Option<Group10s<C>>>,
    t: Seq<Option<Group10s<C>>>,
    a: int,
    b: int,
)
    requires
        0 <= a < s.len(),
        0 <= b < s.len(),
        a != b,
        s[a] is Some,
        s[b] is Some,
        t[a] is Some,
        is_merged_at(s, t, a, b),
    ensures
        pixels_of(t, s.len()) == pixels_of(s, s.len()),
{
    let n = s.len();
    let mid = s.update(a, t[a]);
    lemma_pixels_update(s, a, t[a], n);
    lemma_pixels_update(mid, b, None, n);
    vstd::seq_lib::lemma_multiset_commutative((s[a]->0).pixels@, (s[b]->0).pixels@);
    assert(pixels_in(t[a]) =~= pixels_in(s[a]).add(pixels_in(s[b])));
    let (x, y, z) = (pixels_of(s, n), pixels_of(mid, n), pixels_of(t, n));
    assert forall|p: Pixel| #[trigger] z.count(p) == x.count(p) by {
        let (u, v) = (pixels_in(s[a]), pixels_in(s[b]));
        assert(y.add(u).count(p) == x.add(pixels_in(t[a])).count(p));
        assert(z.add(v).count(p) == y.add(Multiset::empty()).count(p));
        assert(u.add(v).count(p) == u.count(p) + v.count(p));
    }
    assert(z =~= x);
}

proof fn lemma_remaining_pixels<C>(groups: Seq<Option<Group10s<C>>>, n: nat)
    requires
        n <= groups.len(),
    ensures
        pixels_of(whole(remaining(groups, n)), remaining(groups, n).len()) == pixels_of(groups, n),
        remaining(groups, n).len() <= n,
    decreases n,
{
    if n > 0 {
        let before = remaining(groups, (n - 1) as nat);
        let now = remaining(groups, n);
        lemma_remaining_pixels(groups, (n - 1) as nat);
        if groups[n - 1] is Some {
            lemma_pixels_prefix(whole(now), whole(before), before.len());
        } else {
            assert(pixels_of(groups, n) =~= pixels_of(groups, (n - 1) as nat));
        }
    }
}

proof fn lemma_pixels_prefix<C>(
    longer: Seq<Option<Group10s<C>>>,
    shorter: Seq<Option<Group10s<C>>>,
    n: nat,
)
    requires
        n <= shorter.len() <= longer.len(),
        forall|i: int| 0 <= i < shorter.len() ==> #[trigger] longer[i] == shorter[i],
    ensures
        pixels_of(longer, n) == pixels_of(shorter, n),
    decreases n,
{
    if n > 0 {
        lemma_pixels_prefix(longer, shorter, (n - 1) as nat);
    }
}

proof fn lemma_extend_merge_run<C: Centroid>(
    before: Seq<Group10s<C>>,
    target: int,
    path: Seq<MergeState<C>>,
    t: MergeState<C>,
)
    requires
        is_merge_run(before, target, path),
        path.last().total() > target,
        is_merge_step(path.last(), t),
    ensures
        is_merge_run(before, target, path.push(t)),
{
    let longer = path.push(t);
    assert(longer[0] == path[0]);
    assert forall|i: int| 0 < i < longer.len() implies #[trigger] steps_at(target, longer, i) by {
        if i < path.len() {
            assert(steps_at(target, path, i));
            assert(longer[i] == path[i]);
            assert(longer[i - 1] == path[i - 1]);
        } else {
            assert(longer[i - 1] == path.last());
        }
    }
}

/// The groups in places from which they can be taken.
fn shelve<C>(groups: Vec<Group10s<C>>) -> (shelf: Vec<Option<Group10s<C>>>)
    ensures
        shelf@ == whole(groups@),
{
    let ghost all = groups@;
    let mut rest: Vec<Group10s<C>> = groups;
    let mut back: Vec<Group10s<C>> = Vec::new();
    while rest.len() > 0
        invariant
            rest@.len() + back@.len() == all.len(),
            rest@ == all.take(rest@.len() as int),
            forall|i: int|
                0 <= i < back@.len() ==> #[trigger] back@[i] == all[all.len() - 1 - i],
        decreases rest@.len(),
    {
        match rest.pop() {
            Some(g) => back.push(g),
            None => {},
        }
        assert(rest@ =~= all.take(rest@.len() as int));
    }
    let mut shelf: Vec<Option<Group10s<C>>> = Vec::new();
    while back.len() > 0
        invariant
            back@.len() + shelf@.len() == all.len(),
            forall|i: int|
                0 <= i < back@.len() ==> #[trigger] back@[i] == all[all.len() - 1 - i],
            shelf@ == whole(all.take(shelf@.len() as int)),
        decreases back@.len(),
    {
        match back.pop() {
            Some(g) => shelf.push(Some(g)),
            None => {},
        }
        assert(shelf@ =~= whole(all.take(shelf@.len() as int)));
    }
    assert(all.take(shelf@.len() as int) =~= all);
    shelf
}

/// The groups that are left, in their old order.
fn unshelve<C>(shelf: Vec<Option<Group10s<C>>>) -> (groups: Vec<Group10s<C>>)
    ensures
        groups@ == remaining(shelf@, shelf@.len()),
{
    let ghost all = shelf@;
    let mut shelf: Vec<Option<Group10s<C>>> = shelf;
    let mut groups: Vec<Group10s<C>> = Vec::new();
    let mut i: usize = 0;
    while i < shelf.len()
        invariant
            i <= shelf@.len(),
            shelf@.len() == all.len(),
            forall|j: int| i <= j < all.len() ==> #[trigger] shelf@[j] == all[j],
            groups@ == remaining(all, i as nat),
        decreases shelf@.len() - i,
    {
        match take_group(&mut shelf, i) {
            Some(g) => groups.push(g),
            None => {},
        }
        i = i + 1;
    }
    groups
}

/// All groups belong to the image that the first belongs to.
pub open spec fn same_image<C>(groups: Seq<Group10s<C>>) -> bool {
    forall|g: int| 0 <= g < groups.len() ==> (#[trigger] groups[g]).wf(groups[0].bitmap@.len())
}

/// The candidates are current.
spec fn current<C>(s: MergeState<C>) -> bool {
    forall|x: (u64, MergeEdge)| #[trigger] s.edges.contains(x) ==> !s.overtaken(x.1)
}

/// No group has taken in more groups than are gone.
spec fn gens_bounded<C>(s: MergeState<C>) -> bool {
    forall|g: int|
        0 <= g < s.gens.len() ==> #[trigger] s.gens[g] + alive(s.groups) <= s.groups.len()
}

/// Puts the groups in order and makes candidates of those within the window
/// that fits their number.
fn rebuild<C: Centroid>(
    groups: &Vec<Option<Group10s<C>>>,
    gens: &Vec<usize>,
    position: &mut Vec<usize>,
    heap: &mut MaxHeap<MergeEdge>,
    first: bool,
    Ghost(tiles): Ghost<nat>,
) -> (r: (Vec<usize>, Ghost<MergeState<C>>))
    requires
        gens@.len() == groups@.len(),
        groups_wf(groups@, tiles),
        old(position)@.len() == groups@.len(),
        old(heap).wf(),
        old(heap)@.len() == 0,
    ensures
        final(heap).wf(),
        final(heap)@ == r.1@.edges,
        r.0@ == r.1@.sorted,
        groups@ == r.1@.groups,
        gens@ == r.1@.gens,
        places(groups@, r.0@, final(position)@),
        r.1@.sound(tiles),
        current(r.1@),
        is_order(groups@, r.0@),
        has_window_edges(
            r.1@,
            if first {
                K_WINDOW as int
            } else {
                rebuild_window(alive(groups@) as int)
            },
        ),
{
    let sorted: Vec<usize> = order_groups(groups);
    place_groups(groups, &sorted, position);
    let w: usize = if first || sorted.len() > ALL_PAIRS_LIMIT {
        K_WINDOW
    } else if sorted.len() == 0 {
        0
    } else {
        sorted.len() - 1
    };
    let pushed: Ghost<Seq<(u64, MergeEdge)>> = push_window(
        groups,
        gens,
        &sorted,
        w,
        heap,
        Ghost(tiles),
    );
    let ghost t = MergeState { groups: groups@, gens: gens@, edges: heap@, sorted: sorted@ };
    proof {
        let pairs = window_pairs(sorted@, w as int, sorted@.len());
        lemma_window_alive(groups@, sorted@, w as int, sorted@.len());
        lemma_edges_join(groups@, gens@, pairs, pushed@);
        lemma_joined_ordered(groups@, gens@, pairs, pushed@);
        assert(are_edges(t.groups, t.gens, window_pairs(t.sorted, w as int, t.sorted.len()), pushed@));
        assert(has_window_edges(t, w as int));
    }
    (sorted, Ghost(t))
}

/// Merges groups, the best candidate first, until they take no more than
/// `target` slots or no merge saves any. No pixel is lost or doubled, and neither
/// groups nor slots become more.
#[verifier::rlimit(40)]
pub fn agglomerative_merge_10s<C: Centroid>(groups: Vec<Group10s<C>>, target: u32) -> (after: Vec<
    Group10s<C>,
>)
    requires
        same_image(groups@),
    ensures
        is_agglomerated(groups@, target as int, after@),
        is_coarsening(groups@, after@),
        pixels_of(whole(after@), after@.len()) == pixels_of(whole(groups@), groups@.len()),
        after@.len() <= groups@.len(),
        total_slots(whole(after@), after@.len()) <= total_slots(whole(groups@), groups@.len()),
        groups@.len() > 0 ==> forall|g: int|
            0 <= g < after@.len() ==> (#[trigger] after@[g]).wf(groups@[0].bitmap@.len()),
{
    let ghost before = groups@;
    let ghost tiles = before[0].bitmap@.len();
    let n: usize = groups.len();
    let ghost mut into = Seq::new(before.len(), |g: int| g);
    let ghost mut offset = Seq::new(before.len(), |g: int| 0int);
    let mut shelf: Vec<Option<Group10s<C>>> = shelve(groups);
    let mut total: u128 = sum_slots(&shelf, Ghost(tiles));
    proof {
        lemma_whole_regroups(before);
        lemma_whole_remains(before, before.len());
        assert(whole(before) =~= Seq::new(before.len(), |i: int| Some(before[i])));
        assert forall|g: int| 0 <= g < before.len() implies (#[trigger] before[g]).wf(tiles) by {}
    }
    if total <= target as u128 || n < 2 {
        return unshelve(shelf);
    }
    let mut gens: Vec<usize> = Vec::new();
    let mut position: Vec<usize> = Vec::new();
    while gens.len() < n
        invariant
            gens@.len() <= n,
            gens@.len() == position@.len(),
            forall|g: int| 0 <= g < gens@.len() ==> #[trigger] gens@[g] == 0,
        decreases n - gens@.len(),
    {
        gens.push(0);
        position.push(0);
    }
    let mut heap: MaxHeap<MergeEdge> = MaxHeap::new();
    let mut fresh: bool = false;
    let (start, first): (Vec<usize>, Ghost<MergeState<C>>) = rebuild(
        &shelf,
        &gens,
        &mut position,
        &mut heap,
        true,
        Ghost(tiles),
    );
    let mut sorted: Vec<usize> = start;
    let ghost mut s = first@;
    let ghost mut path = seq![s];
    proof {
        assert(gens@ =~= Seq::new(before.len(), |i: int| 0usize));
        assert(is_start(before, s));
        assert(is_merge_run(before, target as int, path));
        lemma_alive_ids(s.groups, s.groups.len());
    }
    while total > target as u128
        invariant_except_break
            sorted@ == s.sorted,
            places(s.groups, s.sorted, position@),
        invariant
            n == before.len(),
            s.groups.len() == n,
            s.sound(tiles),
            shelf@ == s.groups,
            gens@ == s.gens,
            heap.wf(),
            heap@ == s.edges,
            total == s.total(),
            gens_bounded(s),
            fresh ==> current(s) && s.edges.len() > 0,
            is_merge_run(before, target as int, path),
            path.last() == s,
            is_regrouping(before, s.groups, into, offset),
            pixels_of(s.groups, n as nat) == pixels_of(whole(before), n as nat),
            s.total() <= total_slots(whole(before), before.len()),
        ensures
            shelf@ == s.groups,
            s.groups.len() == n,
            groups_wf(s.groups, tiles),
            is_merge_run(before, target as int, path),
            path.last() == s,
            is_regrouping(before, s.groups, into, offset),
            pixels_of(s.groups, n as nat) == pixels_of(whole(before), n as nat),
            s.total() <= target || exhausted(s),
            s.total() <= total_slots(whole(before), before.len()),
        decreases
                alive(s.groups),
                if fresh {
                    0int
                } else {
                    1int
                },
                heap@.len(),
    {
        match heap.pop() {
            None => {
                let (order, next): (Vec<usize>, Ghost<MergeState<C>>) = rebuild(
                    &shelf,
                    &gens,
                    &mut position,
                    &mut heap,
                    false,
                    Ghost(tiles),
                );
                assert(is_rebuild(s, next@));
                if heap.len() == 0 {
                    assert(exhausted(s));
                    break ;
                }
                sorted = order;
                fresh = true;
                proof {
                    assert(is_merge_step(s, next@)) by {
                        reveal(is_merge_step);
                    }
                    lemma_extend_merge_run(before, target as int, path, next@);
                    s = next@;
                    path = path.push(s);
                }
            },
            Some(x) => {
                let e: MergeEdge = x.1;
                let there: bool = match (&shelf[e.a], &shelf[e.b]) {
                    (Some(_), Some(_)) => true,
                    _ => false,
                };
                assert(s.top(x));
                if !there || gens[e.a] != e.gen_a || gens[e.b] != e.gen_b {
                    proof {
                        let t = MergeState { edges: s.edges.remove(x), ..s };
                        assert(is_drop(s, t));
                        assert forall|y: (u64, MergeEdge)| #[trigger]
                            t.edges.contains(y) implies s.edges.contains(y) by {}
                        assert(is_merge_step(s, t)) by {
                            reveal(is_merge_step);
                        }
                        lemma_extend_merge_run(before, target as int, path, t);
                        s = t;
                        path = path.push(s);
                    }
                } else {
                    proof {
                        lemma_alive_ids(s.groups, s.groups.len());
                        assert(s.groups[e.a as int] is Some);
                        assert(s.gens[e.a as int] + alive(s.groups) <= s.groups.len());
                    }
                    let next: Ghost<MergeState<C>> = carry_out(
                        &mut shelf,
                        &mut gens,
                        &sorted,
                        &position,
                        &mut heap,
                        &mut total,
                        x,
                        Ghost(tiles),
                        Ghost(s),
                    );
                    fresh = false;
                    proof {
                        assert(is_merge_step(s, next@)) by {
                            reveal(is_merge_step);
                        }
                        lemma_extend_merge_run(before, target as int, path, next@);
                        lemma_regroup_merge(
                            before,
                            s.groups,
                            next@.groups,
                            e.a as int,
                            e.b as int,
                            into,
                            offset,
                        );
                        lemma_merge_keeps_pixels(s.groups, next@.groups, e.a as int, e.b as int);
                        let taken = (s.groups[e.a as int]->0).pixels@.len() as int;
                        offset = merged_offset(into, offset, e.b as int, taken);
                        into = merged_into(into, e.a as int, e.b as int);
                        assert(gens_bounded(next@)) by {
                            assert forall|g: int|
                                0 <= g < next@.gens.len() implies #[trigger] next@.gens[g] + alive(
                                next@.groups,
                            ) <= next@.groups.len() by {
                                assert(s.gens[g] + alive(s.groups) <= s.groups.len());
                            }
                        }
                        s = next@;
                        path = path.push(s);
                    }
                }
            },
        }
    }
    proof {
        assert(shelf.len() == shelf@.len());
        lemma_compact(before, s.groups, into, offset);
        lemma_remaining_total(s.groups, s.groups.len());
        lemma_remaining_pixels(s.groups, s.groups.len());
        lemma_remaining(s.groups, s.groups.len());
        lemma_alive_ids(s.groups, s.groups.len());
        let after = remaining(s.groups, s.groups.len());
        assert forall|g: int| 0 <= g < after.len() implies (#[trigger] after[g]).wf(tiles) by {
            let id = alive_ids(s.groups, s.groups.len())[g];
            assert(s.groups[id as int] is Some);
        }
    }
    unshelve(shelf)
}

proof fn lemma_whole_regroups<C>(groups: Seq<Group10s<C>>)
    ensures
        is_regrouping(
            groups,
            whole(groups),
            Seq::new(groups.len(), |g: int| g),
            Seq::new(groups.len(), |g: int| 0int),
        ),
        is_coarsening(groups, groups),
{
    let into = Seq::new(groups.len(), |g: int| g);
    let offset = Seq::new(groups.len(), |g: int| 0int);
    assert forall|o: int, m: int|
        0 <= o < groups.len() && 0 <= m < (
        whole(groups)[o]->0).pixels@.len() implies #[trigger] is_filled(
        groups,
        into,
        offset,
        o,
        m,
    ) by {
        assert(came_from(groups, into, offset, o, o, m));
    }
    assert(is_regrouping(groups, whole(groups), into, offset));
}

proof fn lemma_whole_remains<C>(groups: Seq<Group10s<C>>, n: nat)
    requires
        n <= groups.len(),
    ensures
        remaining(whole(groups), n) == groups.take(n as int),
        remaining(whole(groups), groups.len()) == groups || n < groups.len(),
    decreases n,
{
    if n > 0 {
        lemma_whole_remains(groups, (n - 1) as nat);
        assert(groups.take(n as int) =~= groups.take(n - 1).push(groups[n - 1]));
    } else {
        assert(groups.take(0) =~= Seq::empty());
    }
    assert(groups.take(groups.len() as int) =~= groups);
}

proof fn lemma_no_edges<C: Centroid>(
    groups: Seq<Option<Group10s<C>>>,
    gens: Seq<usize>,
    pairs: Seq<(usize, usize)>,
    out: Seq<(u64, MergeEdge)>,
    q: int,
)
    requires
        are_edges(groups, gens, pairs, out),
        out.len() == 0,
        0 <= q < pairs.len(),
    ensures
        !worthwhile(groups, pairs[q].0, pairs[q].1),
    decreases pairs.len(),
{
    if q < pairs.len() - 1 {
        lemma_no_edges(groups, gens, pairs.drop_last(), out, q);
    }
}

proof fn lemma_window_has(sorted: Seq<usize>, w: int, rows: nat, p: int, r: int) -> (q: int)
    requires
        0 <= p < r < sorted.len(),
        r - p <= w,
        p < rows <= sorted.len(),
    ensures
        0 <= q < window_pairs(sorted, w, rows).len(),
        window_pairs(sorted, w, rows)[q] == (sorted[p], sorted[r]),
    decreases rows,
{
    let before = window_pairs(sorted, w, (rows - 1) as nat);
    let row = row_pairs(sorted, rows - 1, w);
    if p < rows - 1 {
        let q = lemma_window_has(sorted, w, (rows - 1) as nat, p, r);
        assert((before + row)[q] == before[q]);
        q
    } else {
        let q = before.len() as int + (r - p - 1);
        assert((before + row)[q] == row[r - p - 1]);
        q
    }
}

proof fn lemma_alive_ids_ascend<C>(groups: Seq<Option<Group10s<C>>>, n: nat, i: int, j: int)
    requires
        n <= groups.len() <= usize::MAX,
        0 <= i < j < alive_ids(groups, n).len(),
    ensures
        alive_ids(groups, n)[i] < alive_ids(groups, n)[j],
    decreases n,
{
    lemma_alive_ids(groups, (n - 1) as nat);
    let before = alive_ids(groups, (n - 1) as nat);
    if j < before.len() {
        lemma_alive_ids_ascend(groups, (n - 1) as nat, i, j);
    } else {
        assert(before[i] < n - 1);
    }
}

proof fn lemma_remaining_total<C>(groups: Seq<Option<Group10s<C>>>, n: nat)
    requires
        n <= groups.len(),
    ensures
        total_slots(whole(remaining(groups, n)), remaining(groups, n).len()) == total_slots(
            groups,
            n,
        ),
    decreases n,
{
    if n > 0 {
        let before = remaining(groups, (n - 1) as nat);
        let now = remaining(groups, n);
        lemma_remaining_total(groups, (n - 1) as nat);
        if groups[n - 1] is Some {
            lemma_total_prefix(whole(now), whole(before), before.len());
        }
    }
}

proof fn lemma_total_prefix<C>(
    longer: Seq<Option<Group10s<C>>>,
    shorter: Seq<Option<Group10s<C>>>,
    n: nat,
)
    requires
        n <= shorter.len() <= longer.len(),
        forall|i: int| 0 <= i < shorter.len() ==> #[trigger] longer[i] == shorter[i],
    ensures
        total_slots(longer, n) == total_slots(shorter, n),
    decreases n,
{
    if n > 0 {
        lemma_total_prefix(longer, shorter, (n - 1) as nat);
    }
}

/// Merging stops only at the target, or where no two of the groups left would
/// save a slot together. (With more groups than the limit for looking at all
/// pairs, a saving pair far apart in the order may be left.)
pub proof fn law_merge_stops_at_target<C: Centroid>(
    before: Seq<Group10s<C>>,
    target: int,
    after: Seq<Group10s<C>>,
    i: int,
    j: int,
)
    requires
        before.len() <= usize::MAX,
        is_agglomerated(before, target, after),
        after.len() <= 4096,
        total_slots(whole(after), after.len()) > target,
        0 <= i < j < after.len(),
    ensures
        group::saved_slots(after[i], after[j]) < 1,
{
    assert(whole(before) =~= Seq::new(before.len(), |i: int| Some(before[i])));
    let path = choose|path: Seq<MergeState<C>>|
        {
            &&& #[trigger] is_merge_run(before, target, path)
            &&& path.last().total() <= target || exhausted(path.last())
            &&& after == remaining(path.last().groups, path.last().groups.len())
        };
    let s = path.last();
    lemma_run_length(before, target, path, path.len() - 1);
    let n = s.groups.len();
    lemma_remaining_total(s.groups, n);
    lemma_remaining(s.groups, n);
    lemma_alive_ids(s.groups, n);
    lemma_alive_ids_ascend(s.groups, n, i, j);
    let t = choose|t: MergeState<C>| #[trigger] is_rebuild(s, t) && t.edges.len() == 0;
    let ids = alive_ids(s.groups, n);
    let (keys, order) = choose|keys: Seq<u64>, order: Seq<usize>|
        {
            &&& keys.len() == ids.len()
            &&& forall|i: int|
                0 <= i < ids.len() ==> has_key(
                    (t.groups[ids[i] as int]->0).centroid,
                    #[trigger] keys[i],
                )
            &&& #[trigger] sort::is_stable_order(keys, order)
            &&& t.sorted == Seq::new(order.len(), |i: int| ids[order[i] as int])
        };
    assert(order.contains(i as usize));
    assert(order.contains(j as usize));
    let p = choose|p: int| 0 <= p < order.len() && order[p] == i as usize;
    let r = choose|r: int| 0 <= r < order.len() && order[r] == j as usize;
    assert(t.sorted[p] == ids[i]);
    assert(t.sorted[r] == ids[j]);
    let w = rebuild_window(alive(t.groups) as int);
    let pairs = window_pairs(t.sorted, w, t.sorted.len());
    let pushed = choose|pushed: Seq<(u64, MergeEdge)>|
        {
            &&& #[trigger] are_edges(t.groups, t.gens, pairs, pushed)
            &&& t.edges == pushed.to_multiset()
        };
    vstd::seq_lib::to_multiset_len(pushed);
    let q = if p < r {
        lemma_window_has(t.sorted, w, t.sorted.len(), p, r)
    } else {
        lemma_window_has(t.sorted, w, t.sorted.len(), r, p)
    };
    lemma_no_edges(t.groups, t.gens, pairs, pushed, q);
}

proof fn lemma_run_length<C: Centroid>(
    before: Seq<Group10s<C>>,
    target: int,
    path: Seq<MergeState<C>>,
    i: int,
)
    requires
        is_merge_run(before, target, path),
        0 <= i < path.len(),
    ensures
        path[i].groups.len() == before.len(),
    decreases i,
{
    if i > 0 {
        lemma_run_length(before, target, path, i - 1);
        assert(steps_at(target, path, i));
        reveal(is_merge_step);
    }
}

/// A pair that saves a slot is one of the candidates.
proof fn lemma_edge_of_pair<C: Centroid>(
    groups: Seq<Option<Group10s<C>>>,
    gens: Seq<usize>,
    pairs: Seq<(usize, usize)>,
    out: Seq<(u64, MergeEdge)>,
    q: int,
) -> (x: int)
    requires
        are_edges(groups, gens, pairs, out),
        0 <= q < pairs.len(),
        worthwhile(groups, pairs[q].0, pairs[q].1),
    ensures
        0 <= x < out.len(),
        is_edge(groups, gens, pairs[q].0, pairs[q].1, out[x]),
    decreases pairs.len(),
{
    let (i, j) = pairs.last();
    if q == pairs.len() - 1 {
        out.len() - 1
    } else if worthwhile(groups, i, j) {
        lemma_edge_of_pair(groups, gens, pairs.drop_last(), out.drop_last(), q)
    } else {
        lemma_edge_of_pair(groups, gens, pairs.drop_last(), out, q)
    }
}

/// A candidate is one of the pairs, and saves a slot.
proof fn lemma_pair_of_edge<C: Centroid>(
    groups: Seq<Option<Group10s<C>>>,
    gens: Seq<usize>,
    pairs: Seq<(usize, usize)>,
    out: Seq<(u64, MergeEdge)>,
    x: int,
) -> (q: int)
    requires
        are_edges(groups, gens, pairs, out),
        0 <= x < out.len(),
    ensures
        0 <= q < pairs.len(),
        worthwhile(groups, pairs[q].0, pairs[q].1),
        is_edge(groups, gens, pairs[q].0, pairs[q].1, out[x]),
    decreases pairs.len(),
{
    let (i, j) = pairs.last();
    if worthwhile(groups, i, j) {
        if x == out.len() - 1 {
            pairs.len() - 1
        } else {
            lemma_pair_of_edge(groups, gens, pairs.drop_last(), out.drop_last(), x)
        }
    } else {
        lemma_pair_of_edge(groups, gens, pairs.drop_last(), out, x)
    }
}

/// The pairs of a window are no further apart than it is wide.
proof fn lemma_window_close(sorted: Seq<usize>, w: int, rows: nat, q: int) -> (at: (int, int))
    requires
        0 <= w,
        rows <= sorted.len(),
        0 <= q < window_pairs(sorted, w, rows).len(),
    ensures
        0 <= at.0 < at.1 < sorted.len(),
        at.1 - at.0 <= w,
        window_pairs(sorted, w, rows)[q] == (sorted[at.0], sorted[at.1]),
    decreases rows,
{
    let before = window_pairs(sorted, w, (rows - 1) as nat);
    if q < before.len() {
        lemma_window_close(sorted, w, (rows - 1) as nat, q)
    } else {
        let o = q - before.len();
        (rows - 1, rows + o)
    }
}

/// The candidate names these groups, the one with the lower number first.
pub open spec fn names_groups(e: MergeEdge, i: usize, j: usize) -> bool {
    if i < j {
        e.a == i && e.b == j
    } else {
        e.a == j && e.b == i
    }
}

/// At first, two groups that save a slot together are a candidate where they are no more
/// than 32 positions apart in the order, and no others are.
pub proof fn law_close_groups_are_candidates<C: Centroid>(
    before: Seq<Group10s<C>>,
    s: MergeState<C>,
    p: int,
    q: int,
    x: (u64, MergeEdge),
)
    requires
        is_start(before, s),
    ensures
        0 <= p < q < s.sorted.len() && q - p <= 32 && saves_a_slot(s, p, q) ==> exists|
            y: (u64, MergeEdge),
        | #[trigger] s.edges.contains(y) && names_groups(y.1, s.sorted[p], s.sorted[q]),
        s.edges.contains(x) ==> exists|i: int, j: int|
            0 <= i < j < s.sorted.len() && j - i <= 32 && #[trigger] saves_a_slot(s, i, j)
                && names_groups(x.1, s.sorted[i], s.sorted[j]),
{
    lemma_candidates(s, 32, p, q, x);
}

/// The groups at the positions `p` and `q` save a slot together.
pub open spec fn saves_a_slot<C>(s: MergeState<C>, p: int, q: int) -> bool {
    let (i, j) = (s.sorted[p], s.sorted[q]);
    if i < j {
        group::saved_slots(s.groups[i as int]->0, s.groups[j as int]->0) >= 1
    } else {
        group::saved_slots(s.groups[j as int]->0, s.groups[i as int]->0) >= 1
    }
}

/// When the candidates have run out and the groups are put in order anew, two groups that
/// save a slot together are a candidate however far apart they are, as long as there are
/// no more than 4096 groups; with more groups, where they are no more than 32 positions
/// apart.
pub proof fn law_all_pairs_are_candidates_anew<C: Centroid>(
    s: MergeState<C>,
    t: MergeState<C>,
    p: int,
    q: int,
)
    requires
        is_rebuild(s, t),
        0 <= p < q < t.sorted.len(),
        saves_a_slot(t, p, q),
        alive(t.groups) <= 4096 || q - p <= 32,
    ensures
        exists|y: (u64, MergeEdge)| #[trigger]
            t.edges.contains(y) && names_groups(y.1, t.sorted[p], t.sorted[q]),
{
    let n = alive(t.groups) as int;
    let (keys, order) = choose|keys: Seq<u64>, order: Seq<usize>|
        {
            let ids = alive_ids(t.groups, t.groups.len());
            &&& keys.len() == ids.len()
            &&& forall|i: int|
                0 <= i < ids.len() ==> has_key(
                    (t.groups[ids[i] as int]->0).centroid,
                    #[trigger] keys[i],
                )
            &&& #[trigger] sort::is_stable_order(keys, order)
            &&& t.sorted == Seq::new(order.len(), |i: int| ids[order[i] as int])
        };
    assert(t.sorted.len() == n);
    let w = rebuild_window(n);
    let any: (u64, MergeEdge) = arbitrary();
    lemma_candidates(t, w, p, q, any);
}

proof fn lemma_candidates<C: Centroid>(
    s: MergeState<C>,
    w: int,
    p: int,
    q: int,
    x: (u64, MergeEdge),
)
    requires
        0 <= w,
        has_window_edges(s, w),
    ensures
        0 <= p < q < s.sorted.len() && q - p <= w && saves_a_slot(s, p, q) ==> exists|
            y: (u64, MergeEdge),
        | #[trigger] s.edges.contains(y) && names_groups(y.1, s.sorted[p], s.sorted[q]),
        s.edges.contains(x) ==> exists|i: int, j: int|
            0 <= i < j < s.sorted.len() && j - i <= w && #[trigger] saves_a_slot(s, i, j)
                && names_groups(x.1, s.sorted[i], s.sorted[j]),
{
    let n = s.sorted.len();
    let pairs = window_pairs(s.sorted, w, n);
    let pushed = choose|pushed: Seq<(u64, MergeEdge)>|
        {
            &&& #[trigger] are_edges(s.groups, s.gens, pairs, pushed)
            &&& s.edges == pushed.to_multiset()
        };
    broadcast use vstd::seq_lib::group_to_multiset_ensures;

    if 0 <= p < q < n && q - p <= w && saves_a_slot(s, p, q) {
        let at = lemma_window_has(s.sorted, w, n, p, q);
        let e = lemma_edge_of_pair(s.groups, s.gens, pairs, pushed, at);
        assert(pushed.contains(pushed[e]));
        assert(s.edges.contains(pushed[e]));
    }
    if s.edges.contains(x) {
        assert(pushed.contains(x));
        let e = choose|e: int| 0 <= e < pushed.len() && pushed[e] == x;
        let at = lemma_pair_of_edge(s.groups, s.gens, pairs, pushed, e);
        let (i, j) = lemma_window_close(s.sorted, w, n, at);
        assert(saves_a_slot(s, i, j));
    }
}

/// A group that has taken in another is a new candidate with every group no more than 32
/// positions from its own in the order that saves a slot with it.
pub proof fn law_merged_groups_are_candidates_again<C: Centroid>(
    s: MergeState<C>,
    t: MergeState<C>,
    x: (u64, MergeEdge),
    pushed: Seq<(u64, MergeEdge)>,
    q: int,
)
    requires
        is_merge_of(s, t, x, pushed),
        s.sorted.contains(x.1.a),
        0 <= q < s.sorted.len(),
        s.sorted[q] != x.1.a,
        t.groups[s.sorted[q] as int] is Some,
        -32 <= q - s.sorted.index_of(x.1.a) <= 32,
        saves_a_slot(t, s.sorted.index_of(x.1.a), q),
    ensures
        exists|y: (u64, MergeEdge)| #[trigger]
            t.edges.contains(y) && names_groups(y.1, x.1.a, s.sorted[q]),
{
    broadcast use vstd::seq_lib::group_to_multiset_ensures;

    let pos = s.sorted.index_of(x.1.a);
    let lo = window_low(pos);
    let hi = window_high(pos, s.sorted.len() as int);
    let pairs = near_pairs(t.groups, s.sorted, x.1.a, lo, hi);
    let at = lemma_near_has(t.groups, s.sorted, x.1.a, lo, hi, q);
    let e = lemma_edge_of_pair(t.groups, t.gens, pairs, pushed, at);
    assert(pushed.contains(pushed[e]));
    assert(pushed.to_multiset().contains(pushed[e]));
    assert(t.edges.contains(pushed[e]));
}

proof fn lemma_near_has<C>(
    groups: Seq<Option<Group10s<C>>>,
    sorted: Seq<usize>,
    a: usize,
    lo: int,
    hi: int,
    q: int,
) -> (at: int)
    requires
        lo <= q < hi,
        sorted[q] != a,
        groups[sorted[q] as int] is Some,
    ensures
        0 <= at < near_pairs(groups, sorted, a, lo, hi).len(),
        near_pairs(groups, sorted, a, lo, hi)[at] == (a, sorted[q]),
    decreases hi - lo,
{
    if q == hi - 1 {
        near_pairs(groups, sorted, a, lo, hi).len() - 1
    } else {
        lemma_near_has(groups, sorted, a, lo, hi - 1, q)
    }
}

} // verus!
