//! The median cut: the bucket with the widest spread is split, over and over,
//! until the budget of buckets is used up or nothing is left to split.

use vstd::multiset::Multiset;
use vstd::prelude::*;

use crate::heap::MaxHeap;
use crate::sort;
use crate::texel;

verus! {

/// The number of dimensions a point has.
pub const DIMS: usize = 9;

/// One distinct pack.
pub struct Point {
    /// The stored level per dimension: red, green, blue, alpha, roughness,
    /// metallic, normal x, normal y, depth.
    pub levels: [u32; 9],
    /// The number of pixels that carry the pack.
    pub count: u64,
    /// The flag bits, which are voted on and never averaged.
    pub flags: u32,
}

/// The levels of a pack with the lower word `lo` and the upper word `hi`.
pub open spec fn levels(lo: u32, hi: u32) -> Seq<u32> {
    seq![
        lo % 32,
        (lo / 0x20) % 32,
        (lo / 0x400) % 32,
        texel::alpha_level(lo),
        (lo / 0x10_0000) % 16,
        (lo / 0x100_0000) % 16,
        hi % 0x1000,
        (hi / 0x1000) % 0x1000,
        texel::depth_byte(hi),
    ]
}

/// What the cut takes from floating-point arithmetic.
pub trait Metric {
    /// The weighted spread of dimension `dim` between the stored levels `lo`
    /// and `hi`, as an integer ordered like the spread. Zero where the spread
    /// is not positive.
    fn score(&self, dim: usize, lo: u32, hi: u32) -> u32;

    /// The first position in `order` at which the running weight of the points
    /// reaches half of the whole weight; `order.len()` or more where none does.
    fn half(&self, points: &Vec<Point>, order: &Vec<usize>) -> usize;

    /// The levels, in the order of `Point`, at the weighted centre of the points
    /// that `members` lists.
    fn centroid(&self, points: &Vec<Point>, members: &Vec<usize>) -> [u32; 9];
}

/// The levels in the words of a pack.
pub fn unpack_levels(lo: u32, hi: u32) -> (levels: [u32; 9])
    ensures
        levels@ == self::levels(lo, hi),
{
    let levels: [u32; 9] = [
        lo % 32,
        (lo / 0x20) % 32,
        (lo / 0x400) % 32,
        (lo / 0x8000) % 32,
        (lo / 0x10_0000) % 16,
        (lo / 0x100_0000) % 16,
        hi % 0x1000,
        (hi / 0x1000) % 0x1000,
        hi / 0x100_0000,
    ];
    assert(levels@ =~= self::levels(lo, hi));
    levels
}

/// The levels are no larger than a pack has bits for.
pub open spec fn in_range(levels: Seq<u32>) -> bool {
    &&& levels.len() == 9
    &&& levels[0] < 32 && levels[1] < 32 && levels[2] < 32 && levels[3] < 32
    &&& levels[4] < 16 && levels[5] < 16
    &&& levels[6] < 0x1000 && levels[7] < 0x1000
    &&& levels[8] < 0x100
}

/// Where the fields of a lower word are.
proof fn lemma_lower_fields(a: u32, b: u32, c: u32, d: u32, e: u32, f: u32, g: u32, lo: u32)
    by (bit_vector)
    requires
        a < 32,
        b < 32,
        c < 32,
        d < 32,
        e < 16,
        f < 16,
        g < 16,
        lo == a + 0x20 * b + 0x400 * c + 0x8000 * d + 0x10_0000 * e + 0x100_0000 * f + 0x1000_0000
            * g,
    ensures
        lo % 32 == a,
        (lo / 0x20) % 32 == b,
        (lo / 0x400) % 32 == c,
        (lo / 0x8000) % 32 == d,
        (lo / 0x10_0000) % 16 == e,
        (lo / 0x100_0000) % 16 == f,
        lo / 0x1000_0000 == g,
{
}

/// Where the fields of an upper word are.
proof fn lemma_upper_fields(x: u32, y: u32, z: u32, hi: u32)
    by (bit_vector)
    requires
        x < 0x1000,
        y < 0x1000,
        z < 0x100,
        hi == x + 0x1000 * y + 0x100_0000 * z,
    ensures
        hi % 0x1000 == x,
        (hi / 0x1000) % 0x1000 == y,
        hi / 0x100_0000 == z,
{
}

/// The levels and flags that the words of a pack were made of are found in them.
pub proof fn law_levels_come_back(levels: Seq<u32>, flags: u32)
    requires
        in_range(levels),
        flags < 16,
    ensures
        self::levels(texel::packed_lower(levels, flags), texel::packed_upper(levels)) == levels,
        texel::flag_bits(texel::packed_lower(levels, flags)) == flags,
{
    let lo = texel::packed_lower(levels, flags);
    let hi = texel::packed_upper(levels);
    assert(lo == levels[0] + 0x20 * levels[1] + 0x400 * levels[2] + 0x8000 * levels[3] + 0x10_0000
        * levels[4] + 0x100_0000 * levels[5] + 0x1000_0000 * flags);
    assert(hi == levels[6] + 0x1000 * levels[7] + 0x100_0000 * levels[8]);
    lemma_lower_fields(levels[0], levels[1], levels[2], levels[3], levels[4], levels[5], flags, lo);
    lemma_upper_fields(levels[6], levels[7], levels[8], hi);
    assert(self::levels(lo, hi) =~= levels);
}

/// The word that the fields of a lower word make.
spec fn lower_sum(l: Seq<u32>, g: u32) -> int {
    l[0] + 0x20 * l[1] + 0x400 * l[2] + 0x8000 * l[3] + 0x10_0000 * l[4] + 0x100_0000 * l[5]
        + 0x1000_0000 * g
}

/// The word that the fields of an upper word make.
spec fn upper_sum(l: Seq<u32>) -> int {
    l[6] + 0x1000 * l[7] + 0x100_0000 * l[8]
}

/// Levels that are in range are not cut.
proof fn lemma_packed_in_range(levels: Seq<u32>, flags: u32, lo: u32, hi: u32)
    requires
        in_range(levels),
        flags < 16,
        lo == lower_sum(levels, flags),
        hi == upper_sum(levels),
    ensures
        texel::packed_lower(levels, flags) == lo,
        texel::packed_upper(levels) == hi,
{
}

/// The levels and flags in the words of a pack give the words back.
pub proof fn law_words_come_back(lo: u32, hi: u32)
    ensures
        texel::packed_lower(levels(lo, hi), texel::flag_bits(lo)) == lo,
        texel::packed_upper(levels(lo, hi)) == hi,
{
    let l = levels(lo, hi);
    let flags = texel::flag_bits(lo);
    assert(in_range(l) && flags < 16 && lo == lower_sum(l, flags) && hi == upper_sum(l)) by {
        lemma_fields_of_lower(l[0], l[1], l[2], l[3], l[4], l[5], flags, lo);
        lemma_fields_of_upper(l[6], l[7], l[8], hi);
    }
    lemma_packed_in_range(l, flags, lo, hi);
}

proof fn lemma_fields_of_lower(a: u32, b: u32, c: u32, d: u32, e: u32, f: u32, g: u32, lo: u32)
    by (bit_vector)
    requires
        a == lo % 32,
        b == (lo / 0x20) % 32,
        c == (lo / 0x400) % 32,
        d == (lo / 0x8000) % 32,
        e == (lo / 0x10_0000) % 16,
        f == (lo / 0x100_0000) % 16,
        g == lo / 0x1000_0000,
    ensures
        lo == a + 0x20 * b + 0x400 * c + 0x8000 * d + 0x10_0000 * e + 0x100_0000 * f + 0x1000_0000
            * g,
        a < 32,
        b < 32,
        c < 32,
        d < 32,
        e < 16,
        f < 16,
        g < 16,
{
}

proof fn lemma_fields_of_upper(x: u32, y: u32, z: u32, hi: u32)
    by (bit_vector)
    requires
        x == hi % 0x1000,
        y == (hi / 0x1000) % 0x1000,
        z == hi / 0x100_0000,
    ensures
        hi == x + 0x1000 * y + 0x100_0000 * z,
        x < 0x1000,
        y < 0x1000,
        z < 0x100,
{
}

/// The alpha level of a pack is the one that it was made with, cut to its bits.
pub proof fn lemma_packed_alpha(levels: Seq<u32>, flags: u32)
    ensures
        texel::alpha_level(texel::packed_lower(levels, flags)) == levels[3] % 32,
{
    lemma_lower_fields(
        levels[0] % 32,
        levels[1] % 32,
        levels[2] % 32,
        levels[3] % 32,
        levels[4] % 16,
        levels[5] % 16,
        flags % 16,
        texel::packed_lower(levels, flags),
    );
}

/// `levels` are the fields of a pack with these words: red, green, blue and alpha of
/// five bits each from the lowest up, roughness and metallic of four, and in the upper
/// word normal x and normal y of twelve and depth of eight.
pub open spec fn are_levels(lo: u32, hi: u32, levels: Seq<u32>) -> bool {
    &&& levels.len() == 9
    &&& levels[0] == texel::field(lo, 0, 31)
    &&& levels[1] == texel::field(lo, 5, 31)
    &&& levels[2] == texel::field(lo, 10, 31)
    &&& levels[3] == texel::field(lo, 15, 31)
    &&& levels[4] == texel::field(lo, 20, 15)
    &&& levels[5] == texel::field(lo, 24, 15)
    &&& levels[6] == texel::field(hi, 0, 0xfff)
    &&& levels[7] == texel::field(hi, 12, 0xfff)
    &&& levels[8] == texel::field(hi, 24, 0xff)
}

/// The levels found in the words of a pack are its fields, each from its own bits.
pub proof fn law_levels_are_the_fields(lo: u32, hi: u32, levels: [u32; 9])
    requires
        call_ensures(unpack_levels, (lo, hi), levels),
    ensures
        are_levels(lo, hi, levels@),
{
    texel::lemma_fields(lo);
    texel::lemma_fields(hi);
}

/// Each level, cut to the bits that its field has.
pub open spec fn cut_levels(levels: Seq<u32>) -> Seq<u32> {
    seq![
        levels[0] % 32,
        levels[1] % 32,
        levels[2] % 32,
        levels[3] % 32,
        levels[4] % 16,
        levels[5] % 16,
        levels[6] % 0x1000,
        levels[7] % 0x1000,
        levels[8] % 0x100,
    ]
}

/// A pack made of levels and flags has them for its fields, dimension by dimension.
pub proof fn law_packs_have_the_levels(levels: [u32; 9], flags: u32, pack: [u8; 8])
    requires
        call_ensures(texel::pack_levels, (&levels, flags), pack),
    ensures
        are_levels(texel::lower(pack), texel::upper(pack), cut_levels(levels@)),
        texel::field(texel::lower(pack), 28, 15) == flags % 16,
{
    lemma_words_have_the_levels(levels@, flags, texel::lower(pack), texel::upper(pack));
}

pub proof fn lemma_words_have_the_levels(levels: Seq<u32>, flags: u32, lo: u32, hi: u32)
    requires
        lo == texel::packed_lower(levels, flags),
        hi == texel::packed_upper(levels),
    ensures
        are_levels(lo, hi, cut_levels(levels)),
        texel::field(lo, 28, 15) == flags % 16,
{
    let l = cut_levels(levels);
    let g = flags % 16;
    texel::lemma_fields(lo);
    texel::lemma_fields(hi);
    lemma_lower_fields(l[0], l[1], l[2], l[3], l[4], l[5], g, lo);
    lemma_upper_fields(l[6], l[7], l[8], hi);
}

/// The point of the pack with key `k`, carried by `count` pixels.
pub fn unpack_point(k: u64, count: u64) -> (point: Point)
    ensures
        point.levels@ == levels(texel::key_lower(k), texel::key_upper(k)),
        point.count == count,
        point.flags == texel::flag_bits(texel::key_lower(k)),
{
    let lo: u32 = (k % 0x1_0000_0000) as u32;
    let hi: u32 = (k / 0x1_0000_0000) as u32;
    Point { levels: unpack_levels(lo, hi), count, flags: lo / 0x1000_0000 }
}

/// A bucket and how it would be split.
pub struct BucketCandidate {
    /// The points of the bucket, ordered along `split_dim`.
    pub indices: Vec<usize>,
    /// The dimension with the largest spread.
    pub split_dim: usize,
    /// That spread; zero where all points agree in every dimension.
    pub split_score: u32,
    /// The first position that goes to the right half.
    pub split_at: usize,
}

impl BucketCandidate {
    /// There are two points that differ.
    pub open spec fn splittable(self) -> bool {
        self.split_score > 0 && self.indices@.len() > 1
    }
}

/// The level of point `i` along dimension `d`.
pub open spec fn level(points: Seq<Point>, i: usize, d: int) -> u32 {
    points[i as int].levels@[d]
}

/// The lowest level along `d` among the listed points.
pub open spec fn lowest(points: Seq<Point>, list: Seq<usize>, d: int) -> u32
    decreases list.len(),
{
    if list.len() <= 1 {
        level(points, list[0], d)
    } else {
        let rest = lowest(points, list.drop_last(), d);
        if level(points, list.last(), d) < rest {
            level(points, list.last(), d)
        } else {
            rest
        }
    }
}

/// The highest level along `d` among the listed points.
pub open spec fn highest(points: Seq<Point>, list: Seq<usize>, d: int) -> u32
    decreases list.len(),
{
    if list.len() <= 1 {
        level(points, list[0], d)
    } else {
        let rest = highest(points, list.drop_last(), d);
        if level(points, list.last(), d) > rest {
            level(points, list.last(), d)
        } else {
            rest
        }
    }
}

/// `scores` are the spreads that the metric gives for the listed points.
pub open spec fn are_scores<M: Metric>(
    metric: &M,
    points: Seq<Point>,
    list: Seq<usize>,
    scores: Seq<u32>,
) -> bool {
    &&& scores.len() == DIMS
    &&& forall|d: usize|
        d < DIMS ==> call_ensures(
            M::score,
            (metric, d, lowest(points, list, d as int), highest(points, list, d as int)),
            #[trigger] scores[d as int],
        )
}

/// `score` is the largest score and `dim` the first dimension that has it;
/// where no score is positive both are zero.
pub open spec fn is_best(scores: Seq<u32>, dim: int, score: u32) -> bool {
    &&& forall|d: int| 0 <= d < scores.len() ==> #[trigger] scores[d] <= score
    &&& score == 0 ==> dim == 0
    &&& score > 0 ==> 0 <= dim < scores.len() && scores[dim] == score
    &&& score > 0 ==> forall|d: int| 0 <= d < dim ==> #[trigger] scores[d] < score
}

/// The sort keys of the listed points along `d`.
pub open spec fn sort_keys(points: Seq<Point>, list: Seq<usize>, d: int) -> Seq<u64> {
    Seq::new(list.len(), |i: int| level(points, list[i], d) as u64)
}

/// The list that `order` picks out of `list`.
pub open spec fn picked(list: Seq<usize>, order: Seq<usize>) -> Seq<usize> {
    Seq::new(order.len(), |i: int| list[order[i] as int])
}

/// `sorted` is `list` in a stable ascending order along `d`.
pub open spec fn is_sorted_along(
    points: Seq<Point>,
    list: Seq<usize>,
    d: int,
    sorted: Seq<usize>,
) -> bool {
    exists|order: Seq<usize>|
        sort::is_stable_order(sort_keys(points, list, d), order) && sorted == #[trigger] picked(
            list,
            order,
        )
}

/// Where a bucket of `n` points is split when the metric names `pos`.
pub open spec fn split_position(n: int, pos: usize) -> int {
    if pos < n {
        if pos + 1 > n - 1 {
            n - 1
        } else {
            pos + 1
        }
    } else {
        n / 2
    }
}

/// `c` is how the listed points would be split.
pub open spec fn is_candidate<M: Metric>(
    metric: &M,
    points: &Vec<Point>,
    list: Seq<usize>,
    c: BucketCandidate,
) -> bool {
    &&& exists|scores: Seq<u32>| #[trigger]
        are_scores(metric, points@, list, scores) && is_best(
            scores,
            c.split_dim as int,
            c.split_score,
        )
    &&& c.splittable() ==> is_sorted_along(points@, list, c.split_dim as int, c.indices@)
    &&& !c.splittable() ==> c.indices@ == list
    &&& c.indices@.len() == list.len()
    &&& list.len() <= 1 ==> c.split_at == list.len() as int / 2
    &&& list.len() > 1 ==> exists|pos: usize| #[trigger]
        call_ensures(M::half, (metric, points, &c.indices), pos) && c.split_at == split_position(
            list.len() as int,
            pos,
        )
}

/// Every listed index is that of a point.
pub open spec fn within(list: Seq<usize>, n: int) -> bool {
    forall|i: int| 0 <= i < list.len() ==> #[trigger] list[i] < n
}

/// Finds the dimension with the widest spread, orders the points along it and
/// finds the position that halves their weight.
pub fn evaluate_split<M: Metric>(metric: &M, points: &Vec<Point>, indices: Vec<usize>) -> (c:
    BucketCandidate)
    requires
        indices@.len() > 0,
        within(indices@, points@.len() as int),
    ensures
        is_candidate(metric, points, indices@, c),
{
    let mut best_dim: usize = 0;
    let mut best_score: u32 = 0;
    let mut d: usize = 0;
    let ghost mut scores = Seq::<u32>::empty();
    let n: usize = indices.len();
    while d < DIMS
        invariant
            d <= DIMS,
            n == indices@.len(),
            n > 0,
            within(indices@, points@.len() as int),
            scores.len() == d,
            forall|e: usize|
                e < d ==> call_ensures(
                    M::score,
                    (
                        metric,
                        e,
                        lowest(points@, indices@, e as int),
                        highest(points@, indices@, e as int),
                    ),
                    #[trigger] scores[e as int],
                ),
            is_best(scores, best_dim as int, best_score),
            best_dim < DIMS,
        decreases DIMS - d,
    {
        let mut lo: u32 = points[indices[0]].levels[d];
        let mut hi: u32 = lo;
        let mut i: usize = 1;
        assert(indices@.take(1)[0] == indices@[0]);
        while i < n
            invariant
                d < DIMS,
                n == indices@.len(),
                1 <= i <= n,
                within(indices@, points@.len() as int),
                lo == lowest(points@, indices@.take(i as int), d as int),
                hi == highest(points@, indices@.take(i as int), d as int),
            decreases n - i,
        {
            let v: u32 = points[indices[i]].levels[d];
            assert(indices@.take(i + 1).drop_last() =~= indices@.take(i as int));
            if v < lo {
                lo = v;
            }
            if v > hi {
                hi = v;
            }
            i = i + 1;
        }
        assert(indices@.take(n as int) =~= indices@);
        let score: u32 = metric.score(d, lo, hi);
        proof {
            scores = scores.push(score);
        }
        if score > best_score {
            best_score = score;
            best_dim = d;
        }
        d = d + 1;
    }
    assert(are_scores(metric, points@, indices@, scores));
    let sorted: Vec<usize> = if best_score > 0 && n > 1 {
        sort_along(points, &indices, best_dim)
    } else {
        indices
    };
    let mut split_at: usize = n / 2;
    if n > 1 {
        let pos: usize = metric.half(points, &sorted);
        if pos < n {
            split_at = if pos + 1 > n - 1 {
                n - 1
            } else {
                pos + 1
            };
        }
    }
    BucketCandidate { indices: sorted, split_dim: best_dim, split_score: best_score, split_at }
}

fn sort_along(points: &Vec<Point>, indices: &Vec<usize>, d: usize) -> (sorted: Vec<usize>)
    requires
        d < DIMS,
        within(indices@, points@.len() as int),
    ensures
        sorted@.len() == indices@.len(),
        is_sorted_along(points@, indices@, d as int, sorted@),
{
    let mut keys: Vec<u64> = Vec::new();
    let mut i: usize = 0;
    while i < indices.len()
        invariant
            d < DIMS,
            i <= indices@.len(),
            within(indices@, points@.len() as int),
            keys@.len() == i,
            forall|j: int| 0 <= j < i ==> keys@[j] == level(points@, indices@[j], d as int),
        decreases indices@.len() - i,
    {
        keys.push(points[indices[i]].levels[d] as u64);
        i = i + 1;
    }
    assert(keys@ =~= sort_keys(points@, indices@, d as int));
    let order: Vec<usize> = sort::stable_order(&keys);
    let mut sorted: Vec<usize> = Vec::new();
    let mut i: usize = 0;
    while i < order.len()
        invariant
            i <= order@.len(),
            order@.len() == indices@.len(),
            sort::is_stable_order(sort_keys(points@, indices@, d as int), order@),
            sorted@.len() == i,
            forall|j: int| 0 <= j < i ==> sorted@[j] == indices@[order@[j] as int],
        decreases order@.len() - i,
    {
        sorted.push(indices[order[i]]);
        i = i + 1;
    }
    assert(sorted@ =~= picked(indices@, order@));
    sorted
}

/// The buckets at some moment of the cut.
pub struct CutState {
    /// Every bucket there has been.
    pub nodes: Seq<BucketCandidate>,
    /// The buckets that may still be split.
    pub open: Set<int>,
    /// The buckets that cannot be split, in the order in which they came up.
    pub leaves: Seq<int>,
}

impl CutState {
    /// The number of buckets that the points are in.
    pub open spec fn size(self) -> nat {
        self.open.len() + self.leaves.len()
    }

    /// One more bucket, open where it can be split.
    pub open spec fn place(self, c: BucketCandidate) -> CutState {
        let id = self.nodes.len() as int;
        CutState {
            nodes: self.nodes.push(c),
            open: if c.splittable() {
                self.open.insert(id)
            } else {
                self.open
            },
            leaves: if c.splittable() {
                self.leaves
            } else {
                self.leaves.push(id)
            },
        }
    }

    /// Bucket `id` gives way to its two halves.
    pub open spec fn split(self, id: int, left: BucketCandidate, right: BucketCandidate) -> CutState {
        CutState { open: self.open.remove(id), ..self }.place(left).place(right)
    }

    /// `id` is an open bucket, and none has a larger spread.
    pub open spec fn widest(self, id: int) -> bool {
        &&& self.open.contains(id)
        &&& forall|other: int| #[trigger]
            self.open.contains(other) ==> self.nodes[other].split_score
                <= self.nodes[id].split_score
    }

    /// The points are in bucket `id`.
    pub open spec fn live(self, id: int) -> bool {
        self.open.contains(id) || self.leaves.contains(id)
    }
}

/// The state before the first bucket is placed.
pub open spec fn no_buckets() -> CutState {
    CutState { nodes: Seq::empty(), open: Set::empty(), leaves: Seq::empty() }
}

/// `left` and `right` are the halves of bucket `id`.
pub open spec fn are_halves<M: Metric>(
    metric: &M,
    points: &Vec<Point>,
    whole: BucketCandidate,
    left: BucketCandidate,
    right: BucketCandidate,
) -> bool {
    &&& is_candidate(metric, points, whole.indices@.take(whole.split_at as int), left)
    &&& is_candidate(metric, points, whole.indices@.skip(whole.split_at as int), right)
}

/// One split: a bucket with the widest spread gives way to its halves.
pub open spec fn is_step<M: Metric>(
    metric: &M,
    points: &Vec<Point>,
    before: CutState,
    after: CutState,
) -> bool {
    exists|id: int, left: BucketCandidate, right: BucketCandidate|
        before.widest(id) && are_halves(metric, points, before.nodes[id], left, right) && after
            == #[trigger] before.split(id, left, right)
}

/// `path` runs from one bucket with all the listed points, split by split, as
/// long as there are fewer than `k` buckets.
pub open spec fn is_run<M: Metric>(
    metric: &M,
    points: &Vec<Point>,
    list: Seq<usize>,
    k: nat,
    path: Seq<CutState>,
) -> bool {
    &&& path.len() > 0
    &&& exists|c: BucketCandidate|
        is_candidate(metric, points, list, c) && path[0] == #[trigger] no_buckets().place(c)
    &&& forall|i: int|
        0 < i < path.len() ==> is_step(metric, points, path[i - 1], #[trigger] path[i])
    &&& forall|i: int| 0 < i < path.len() ==> (#[trigger] path[i]).size() <= k
}

/// `ids` lists the leaves of `s` and then its open buckets, each once.
pub open spec fn lists_buckets(s: CutState, ids: Seq<int>) -> bool {
    &&& ids.len() == s.size()
    &&& ids.take(s.leaves.len() as int) == s.leaves
    &&& ids.no_duplicates()
    &&& forall|id: int| #[trigger] ids.contains(id) <==> s.live(id)
}

/// The points of each bucket in `ids`.
pub open spec fn bucket_points(s: CutState, ids: Seq<int>) -> Seq<Seq<usize>> {
    Seq::new(ids.len(), |b: int| s.nodes[ids[b]].indices@)
}

/// `buckets` is what the cut makes of the listed points with a budget of `k`:
/// it goes on until there are `k` buckets or none can be split.
pub open spec fn is_cut<M: Metric>(
    metric: &M,
    points: &Vec<Point>,
    list: Seq<usize>,
    k: nat,
    buckets: Seq<Seq<usize>>,
) -> bool {
    if k == 1 || list.len() == 1 {
        buckets == seq![list]
    } else {
        exists|path: Seq<CutState>, ids: Seq<int>|
            {
                &&& #[trigger] is_run(metric, points, list, k, path)
                &&& path.last().size() >= k || path.last().open.is_empty()
                &&& #[trigger] lists_buckets(path.last(), ids)
                &&& buckets == bucket_points(path.last(), ids)
            }
    }
}

/// Ordering a bucket moves its points and loses none.
pub proof fn lemma_candidate_permutes<M: Metric>(
    metric: &M,
    points: &Vec<Point>,
    list: Seq<usize>,
    c: BucketCandidate,
)
    requires
        is_candidate(metric, points, list, c),
    ensures
        c.indices@.len() == list.len(),
        forall|x: usize| #[trigger] c.indices@.contains(x) <==> list.contains(x),
        list.no_duplicates() ==> c.indices@.no_duplicates(),
        list.len() > 1 ==> 0 < c.split_at < list.len(),
{
    if c.splittable() {
        let keys = sort_keys(points@, list, c.split_dim as int);
        let order = choose|order: Seq<usize>|
            sort::is_stable_order(keys, order) && c.indices@ == #[trigger] picked(list, order);
        assert forall|x: usize| #[trigger] c.indices@.contains(x) <==> list.contains(x) by {
            if list.contains(x) {
                let p = choose|p: int| 0 <= p < list.len() && list[p] == x;
                assert(c.indices.len() == order.len());
                assert(order.contains(p as usize));
                let i = choose|i: int| 0 <= i < order.len() && order[i] == p as usize;
                assert(c.indices@[i] == x);
            }
            if c.indices@.contains(x) {
                let i = choose|i: int| 0 <= i < c.indices@.len() && c.indices@[i] == x;
                assert(list[order[i] as int] == x);
            }
        }
        if list.no_duplicates() {
            assert forall|i: int, j: int|
                0 <= i < c.indices@.len() && 0 <= j < c.indices@.len() && i
                    != j implies c.indices@[i] != c.indices@[j] by {
                assert(order[i] != order[j]) by {
                    if i < j {
                        assert(sort::sorts_before(keys, order[i] as int, order[j] as int));
                    } else {
                        assert(sort::sorts_before(keys, order[j] as int, order[i] as int));
                    }
                }
            }
        }
    }
}


/// The heap holds the open buckets, each once, under its spread.
spec fn mirrors(heap: Multiset<(u64, usize)>, s: CutState) -> bool {
    &&& s.open.finite()
    &&& heap.len() == s.open.len()
    &&& forall|id: int| #[trigger] s.open.contains(id) ==> 0 <= id < s.nodes.len()
    &&& forall|x: (u64, usize)| #[trigger]
        heap.count(x) == if s.open.contains(x.1 as int) && x.0 == s.nodes[x.1 as int].split_score {
            1nat
        } else {
            0nat
        }
}

/// Every bucket holds points, and every leaf is a bucket.
spec fn grounded(s: CutState, n: int) -> bool {
    &&& forall|b: int|
        0 <= b < s.nodes.len() ==> {
            &&& (#[trigger] s.nodes[b]).indices@.len() > 0
            &&& within(s.nodes[b].indices@, n)
            &&& s.nodes[b].indices@.len() > 1 ==> 0 < s.nodes[b].split_at
                < s.nodes[b].indices@.len()
        }
    &&& forall|i: int| 0 <= i < s.leaves.len() ==> 0 <= #[trigger] s.leaves[i] < s.nodes.len()
    &&& forall|b: int| #[trigger] s.open.contains(b) ==> s.nodes[b].splittable()
    &&& s.leaves.no_duplicates()
    &&& forall|b: int| #[trigger] s.open.contains(b) ==> !s.leaves.contains(b)
}

/// The ids as integers.
spec fn as_ints(ids: Seq<usize>) -> Seq<int> {
    Seq::new(ids.len(), |i: int| ids[i] as int)
}

fn place_bucket<M: Metric>(
    metric: &M,
    points: &Vec<Point>,
    list: Vec<usize>,
    arena: &mut Vec<BucketCandidate>,
    heap: &mut MaxHeap<usize>,
    leaves: &mut Vec<usize>,
    Ghost(s): Ghost<CutState>,
) -> (t: Ghost<CutState>)
    requires
        list@.len() > 0,
        within(list@, points@.len() as int),
        old(heap).wf(),
        mirrors(old(heap)@, s),
        grounded(s, points@.len() as int),
        old(arena)@ == s.nodes,
        s.leaves == as_ints(old(leaves)@),
    ensures
        final(heap).wf(),
        mirrors(final(heap)@, t@),
        grounded(t@, points@.len() as int),
        final(arena)@ == t@.nodes,
        t@.leaves == as_ints(final(leaves)@),
        is_candidate(metric, points, list@, t@.nodes.last()),
        t@ == s.place(t@.nodes.last()),
        t@.size() == s.size() + 1,
{
    let c: BucketCandidate = evaluate_split(metric, points, list);
    let id: usize = arena.len();
    let ghost t = s.place(c);
    proof {
        lemma_candidate_permutes(metric, points, list@, c);
        assert forall|i: int| 0 <= i < c.indices@.len() implies #[trigger] c.indices@[i]
            < points@.len() by {
            assert(c.indices@.contains(c.indices@[i]));
            assert(list@.contains(c.indices@[i]));
        }
    }
    if c.split_score > 0 && c.indices.len() > 1 {
        heap.push(c.split_score as u64, id);
    } else {
        leaves.push(id);
    }
    arena.push(c);
    proof {
        assert(t.leaves =~= as_ints(leaves@));
    }
    Ghost(t)
}

/// Splits an open bucket with the widest spread.
fn split_widest<M: Metric>(
    metric: &M,
    points: &Vec<Point>,
    arena: &mut Vec<BucketCandidate>,
    heap: &mut MaxHeap<usize>,
    leaves: &mut Vec<usize>,
    Ghost(s): Ghost<CutState>,
) -> (t: Option<Ghost<CutState>>)
    requires
        old(heap).wf(),
        mirrors(old(heap)@, s),
        grounded(s, points@.len() as int),
        old(arena)@ == s.nodes,
        s.leaves == as_ints(old(leaves)@),
    ensures
        t is None ==> {
            &&& s.open.is_empty()
            &&& *final(arena) == *old(arena)
            &&& *final(leaves) == *old(leaves)
            &&& final(heap)@ == old(heap)@
        },
        t matches Some(next) ==> {
            &&& mirrors(final(heap)@, next@)
            &&& grounded(next@, points@.len() as int)
            &&& final(arena)@ == next@.nodes
            &&& next@.leaves == as_ints(final(leaves)@)
            &&& is_step(metric, points, s, next@)
            &&& next@.size() == s.size() + 1
        },
        final(heap).wf(),
{
    let id: usize = match heap.pop() {
        None => {
            assert(s.open =~= Set::empty());
            return None;
        },
        Some(item) => item.1,
    };
    let ghost shrunk = CutState { open: s.open.remove(id as int), ..s };
    proof {
        assert(s.open.contains(id as int));
        assert forall|other: int| #[trigger] s.open.contains(other) implies s.nodes[other].split_score
            <= s.nodes[id as int].split_score by {
            let item = (s.nodes[other].split_score as u64, other as usize);
            assert(arena.len() == s.nodes.len());
            assert(old(heap)@.contains(item));
        }
        assert(s.widest(id as int));
        assert(grounded(shrunk, points@.len() as int));
    }
    let at: usize = arena[id].split_at;
    let right: Vec<usize> = vstd::slice::slice_to_vec(
        vstd::slice::slice_subrange(arena[id].indices.as_slice(), at, arena[id].indices.len()),
    );
    let left: Vec<usize> = vstd::slice::slice_to_vec(
        vstd::slice::slice_subrange(arena[id].indices.as_slice(), 0, at),
    );
    proof {
        let all = s.nodes[id as int].indices@;
        assert(left@ =~= all.take(at as int));
        assert(right@ =~= all.skip(at as int));
        assert forall|i: int| 0 <= i < left@.len() implies #[trigger] left@[i] < points@.len() by {
            assert(left@[i] == all[i]);
        }
        assert forall|i: int| 0 <= i < right@.len() implies #[trigger] right@[i]
            < points@.len() by {
            assert(right@[i] == all[i + at]);
        }
    }
    let mid: Ghost<CutState> = place_bucket(
        metric,
        points,
        left,
        arena,
        heap,
        leaves,
        Ghost(shrunk),
    );
    let after: Ghost<CutState> = place_bucket(metric, points, right, arena, heap, leaves, mid);
    proof {
        let l = mid@.nodes.last();
        let r = after@.nodes.last();
        assert(are_halves(metric, points, s.nodes[id as int], l, r));
        assert(after@ == s.split(id as int, l, r));
    }
    Some(after)
}

proof fn lemma_extend_run<M: Metric>(
    metric: &M,
    points: &Vec<Point>,
    list: Seq<usize>,
    k: nat,
    path: Seq<CutState>,
    s: CutState,
)
    requires
        is_run(metric, points, list, k, path),
        is_step(metric, points, path.last(), s),
        s.size() <= k,
    ensures
        is_run(metric, points, list, k, path.push(s)),
{
    let longer = path.push(s);
    assert(longer[0] == path[0]);
    assert forall|i: int| 0 < i < longer.len() implies is_step(
        metric,
        points,
        longer[i - 1],
        #[trigger] longer[i],
    ) && longer[i].size() <= k by {
        if i < path.len() {
            assert(longer[i] == path[i]);
            assert(longer[i - 1] == path[i - 1]);
        } else {
            assert(longer[i - 1] == path.last());
        }
    }
}

/// The leaves, and after them the buckets that are still open.
fn list_buckets(heap: MaxHeap<usize>, leaves: Vec<usize>, Ghost(s): Ghost<CutState>) -> (ids: Vec<
    usize,
>)
    requires
        heap.wf(),
        mirrors(heap@, s),
        s.leaves == as_ints(leaves@),
        s.leaves.no_duplicates(),
        s.nodes.len() <= usize::MAX,
        forall|i: int| 0 <= i < s.leaves.len() ==> 0 <= #[trigger] s.leaves[i] < s.nodes.len(),
        forall|b: int| #[trigger] s.open.contains(b) ==> !s.leaves.contains(b),
    ensures
        lists_buckets(s, as_ints(ids@)),
        forall|i: int| 0 <= i < ids@.len() ==> #[trigger] ids@[i] < s.nodes.len(),
{
    let mut heap: MaxHeap<usize> = heap;
    let mut ids: Vec<usize> = leaves;
    let ghost count = s.leaves.len();
    let ghost mut rest = s.open;
    proof {
        assert forall|i: int, j: int| 0 <= i < j < ids@.len() implies #[trigger] ids@[i]
            != #[trigger] ids@[j] by {
            assert(s.leaves[i] != s.leaves[j]);
        }
        assert forall|i: int| 0 <= i < ids@.len() implies #[trigger] ids@[i] < s.nodes.len() by {
            assert(s.leaves[i] == ids@[i]);
        }
    }
    while heap.len() > 0
        invariant
            heap.wf(),
            s.nodes.len() <= usize::MAX,
            count == s.leaves.len(),
            count <= ids@.len(),
            forall|i: int| 0 <= i < count ==> #[trigger] ids@[i] as int == s.leaves[i],
            mirrors(heap@, CutState { open: rest, ..s }),
            forall|b: int| #[trigger] s.open.contains(b) ==> 0 <= b < s.nodes.len(),
            forall|b: int| #[trigger] s.open.contains(b) ==> !s.leaves.contains(b),
            rest.subset_of(s.open),
            ids@.len() + rest.len() == s.size(),
            forall|i: int| 0 <= i < ids@.len() ==> #[trigger] ids@[i] < s.nodes.len(),
            forall|i: int|
                count <= i < ids@.len() ==> s.open.contains(#[trigger] ids@[i] as int)
                    && !rest.contains(ids@[i] as int),
            forall|i: int, j: int|
                0 <= i < j < ids@.len() ==> #[trigger] ids@[i] != #[trigger] ids@[j],
            forall|b: int| #[trigger]
                s.open.contains(b) && !rest.contains(b) ==> ids@.contains(b as usize),
        decreases heap@.len(),
    {
        let ghost was = ids@;
        match heap.pop() {
            None => {},
            Some(item) => {
                ids.push(item.1);
                proof {
                    let gone = rest;
                    let id = item.1 as int;
                    assert(rest.contains(id));
                    rest = rest.remove(id);
                    assert forall|b: int| #[trigger]
                        s.open.contains(b) && !rest.contains(b) implies ids@.contains(b as usize) by {
                        if gone.contains(b) {
                            assert(ids@[ids@.len() - 1] == b as usize);
                        } else {
                            let i = choose|i: int| 0 <= i < was.len() && was[i] == b as usize;
                            assert(ids@[i] == b as usize);
                        }
                    }
                    assert forall|i: int| 0 <= i < was.len() implies was[i] != item.1 by {
                        if i < count {
                            assert(s.leaves[i] == was[i]);
                        }
                    }
                }
            },
        }
    }
    proof {
        assert(rest =~= Set::empty());
        let names = as_ints(ids@);
        assert forall|id: int| #[trigger] names.contains(id) <==> s.live(id) by {
            if s.leaves.contains(id) {
                let i = choose|i: int| 0 <= i < s.leaves.len() && s.leaves[i] == id;
                assert(names[i] == id);
            }
            if s.open.contains(id) {
                assert(!rest.contains(id));
                let i = choose|i: int| 0 <= i < ids@.len() && ids@[i] == id as usize;
                assert(names[i] == id);
            }
            if names.contains(id) {
                let i = choose|i: int| 0 <= i < names.len() && names[i] == id;
                if i < count {
                    assert(s.leaves[i] == id);
                }
            }
        }
        assert(names.take(count as int) =~= s.leaves);
    }
    ids
}

/// The lists as sequences.
pub open spec fn views(lists: Seq<Vec<usize>>) -> Seq<Seq<usize>> {
    Seq::new(lists.len(), |b: int| lists[b]@)
}

/// The median cut itself, as lists of points.
fn cut_buckets<M: Metric>(metric: &M, points: &Vec<Point>, list: Vec<usize>, k: usize) -> (buckets:
    Vec<Vec<usize>>)
    requires
        k > 0,
        list@.len() > 0,
        within(list@, points@.len() as int),
    ensures
        is_cut(metric, points, list@, k as nat, views(buckets@)),
{
    let ghost whole = list@;
    if k == 1 || list.len() == 1 {
        let mut buckets: Vec<Vec<usize>> = Vec::new();
        buckets.push(list);
        assert(views(buckets@) =~= seq![whole]);
        return buckets;
    }
    let mut arena: Vec<BucketCandidate> = Vec::new();
    let mut heap: MaxHeap<usize> = MaxHeap::new();
    let mut leaves: Vec<usize> = Vec::new();
    assert(as_ints(leaves@) =~= no_buckets().leaves);
    let first: Ghost<CutState> = place_bucket(
        metric,
        points,
        list,
        &mut arena,
        &mut heap,
        &mut leaves,
        Ghost(no_buckets()),
    );
    let ghost mut s = first@;
    let ghost mut path = seq![s];
    assert(is_run(metric, points, whole, k as nat, path)) by {
        assert(path[0] == no_buckets().place(s.nodes.last()));
    }
    while leaves.len() + heap.len() < k
        invariant
            k > 1,
            heap.wf(),
            mirrors(heap@, s),
            grounded(s, points@.len() as int),
            arena@ == s.nodes,
            s.leaves == as_ints(leaves@),
            s.size() <= k,
            is_run(metric, points, whole, k as nat, path),
            path.last() == s,
        ensures
            heap.wf(),
            mirrors(heap@, s),
            grounded(s, points@.len() as int),
            arena@ == s.nodes,
            s.leaves == as_ints(leaves@),
            is_run(metric, points, whole, k as nat, path),
            path.last() == s,
            s.size() >= k || s.open.is_empty(),
        decreases k - s.size(),
    {
        match split_widest(metric, points, &mut arena, &mut heap, &mut leaves, Ghost(s)) {
            None => {
                break ;
            },
            Some(next) => {
                proof {
                    lemma_extend_run(metric, points, whole, k as nat, path, next@);
                    s = next@;
                    path = path.push(s);
                }
            },
        }
    }
    assert(arena.len() == s.nodes.len());
    let ids: Vec<usize> = list_buckets(heap, leaves, Ghost(s));
    let mut buckets: Vec<Vec<usize>> = Vec::new();
    let mut b: usize = 0;
    while b < ids.len()
        invariant
            b <= ids@.len(),
            arena@ == s.nodes,
            forall|i: int| 0 <= i < ids@.len() ==> #[trigger] ids@[i] < arena@.len(),
            buckets@.len() == b,
            forall|i: int|
                0 <= i < b ==> (#[trigger] buckets@[i])@ == s.nodes[ids@[i] as int].indices@,
        decreases ids@.len() - b,
    {
        buckets.push(vstd::slice::slice_to_vec(arena[ids[b]].indices.as_slice()));
        b = b + 1;
    }
    assert(views(buckets@) =~= bucket_points(s, as_ints(ids@)));
    buckets
}

/// `buckets` share the listed points out: none is empty, and every point is in
/// exactly one of them, once.
pub open spec fn is_partition(list: Seq<usize>, buckets: Seq<Seq<usize>>) -> bool {
    &&& forall|b: int|
        0 <= b < buckets.len() ==> (#[trigger] buckets[b]).len() > 0 && buckets[b].no_duplicates()
    &&& forall|b: int, x: usize|
        0 <= b < buckets.len() && #[trigger] buckets[b].contains(x) ==> list.contains(x)
    &&& forall|x: usize| #[trigger]
        list.contains(x) ==> exists|b: int|
            0 <= b < buckets.len() && #[trigger] buckets[b].contains(x)
    &&& forall|a: int, b: int, x: usize|
        0 <= a < buckets.len() && 0 <= b < buckets.len() && #[trigger] buckets[a].contains(x)
            && #[trigger] buckets[b].contains(x) ==> a == b
}

/// The points in bucket `b`.
spec fn holds(s: CutState, b: int, x: usize) -> bool {
    s.nodes[b].indices@.contains(x)
}

spec fn covers(s: CutState, list: Seq<usize>) -> bool {
    &&& s.open.finite()
    &&& s.leaves.no_duplicates()
    &&& forall|b: int| #[trigger] s.live(b) ==> 0 <= b < s.nodes.len()
    &&& forall|b: int| #[trigger] s.open.contains(b) ==> !s.leaves.contains(b)
    &&& forall|b: int| #[trigger]
        s.open.contains(b) ==> 0 < s.nodes[b].split_at < s.nodes[b].indices@.len()
    &&& forall|b: int| #[trigger]
        s.live(b) ==> s.nodes[b].indices@.len() > 0 && s.nodes[b].indices@.no_duplicates()
    &&& forall|b: int, x: usize| s.live(b) && #[trigger] holds(s, b, x) ==> list.contains(x)
    &&& forall|x: usize| #[trigger]
        list.contains(x) ==> exists|b: int| s.live(b) && #[trigger] holds(s, b, x)
    &&& forall|a: int, b: int, x: usize|
        s.live(a) && s.live(b) && #[trigger] holds(s, a, x) && #[trigger] holds(s, b, x) ==> a == b
}

/// No bucket is listed twice.
spec fn apart(s: CutState) -> bool {
    &&& s.leaves.no_duplicates()
    &&& forall|b: int| #[trigger] s.open.contains(b) ==> !s.leaves.contains(b)
    &&& !s.live(s.nodes.len() as int)
}

proof fn lemma_place_live(s: CutState, c: BucketCandidate)
    ensures
        forall|b: int| #[trigger] s.place(c).live(b) <==> s.live(b) || b == s.nodes.len(),
        apart(s) && !s.live(s.nodes.len() as int + 1) ==> apart(s.place(c)),
{
    let t = s.place(c);
    let id = s.nodes.len() as int;
    if apart(s) && !s.live(id + 1) {
        assert(!s.live(id));
        assert forall|b: int| #[trigger] t.open.contains(b) implies !t.leaves.contains(b) by {
            if t.leaves.contains(b) {
                let i = choose|i: int| 0 <= i < t.leaves.len() && t.leaves[i] == b;
                if i < s.leaves.len() {
                    assert(s.leaves[i] == b);
                    assert(s.leaves.contains(b));
                }
                assert(s.open.contains(b) ==> s.live(b));
            }
        }
        assert forall|i: int| 0 <= i < s.leaves.len() implies #[trigger] s.leaves[i] != id by {
            assert(s.leaves.contains(s.leaves[i]));
        }
    }
    assert forall|b: int| #[trigger] t.live(b) <==> s.live(b) || b == id by {
        if !c.splittable() {
            assert(t.leaves[s.leaves.len() as int] == id);
            if s.leaves.contains(b) {
                let i = choose|i: int| 0 <= i < s.leaves.len() && s.leaves[i] == b;
                assert(t.leaves[i] == b);
            }
            if t.leaves.contains(b) {
                let i = choose|i: int| 0 <= i < t.leaves.len() && t.leaves[i] == b;
                assert(i < s.leaves.len() ==> s.leaves[i] == b);
            }
        }
    }
}

proof fn lemma_halves_share<M: Metric>(
    metric: &M,
    points: &Vec<Point>,
    whole: BucketCandidate,
    left: BucketCandidate,
    right: BucketCandidate,
)
    requires
        are_halves(metric, points, whole, left, right),
        0 < whole.split_at < whole.indices@.len(),
        whole.indices@.no_duplicates(),
    ensures
        left.indices@.len() > 0,
        right.indices@.len() > 0,
        left.indices@.no_duplicates(),
        right.indices@.no_duplicates(),
        left.splittable() ==> 0 < left.split_at < left.indices@.len(),
        right.splittable() ==> 0 < right.split_at < right.indices@.len(),
        forall|x: usize| #[trigger]
            whole.indices@.contains(x) <==> left.indices@.contains(x) || right.indices@.contains(x),
        forall|x: usize| !(#[trigger] left.indices@.contains(x) && right.indices@.contains(x)),
{
    let all = whole.indices@;
    let at = whole.split_at as int;
    let l = all.take(at);
    let r = all.skip(at);
    lemma_candidate_permutes(metric, points, l, left);
    lemma_candidate_permutes(metric, points, r, right);
    assert forall|x: usize| #[trigger] all.contains(x) <==> l.contains(x) || r.contains(x) by {
        if all.contains(x) {
            let i = choose|i: int| 0 <= i < all.len() && all[i] == x;
            if i < at {
                assert(l[i] == x);
            } else {
                assert(r[i - at] == x);
            }
        }
    }
    assert forall|x: usize| !(#[trigger] left.indices@.contains(x) && right.indices@.contains(x)) by {
        if l.contains(x) && r.contains(x) {
            let i = choose|i: int| 0 <= i < l.len() && l[i] == x;
            let j = choose|j: int| 0 <= j < r.len() && r[j] == x;
            assert(all[i] == all[j + at]);
        }
    }
}

proof fn lemma_split_covers<M: Metric>(
    metric: &M,
    points: &Vec<Point>,
    list: Seq<usize>,
    s: CutState,
    t: CutState,
)
    requires
        covers(s, list),
        is_step(metric, points, s, t),
    ensures
        covers(t, list),
{
    let (id, left, right) = choose|id: int, left: BucketCandidate, right: BucketCandidate|
        s.widest(id) && are_halves(metric, points, s.nodes[id], left, right) && t
            == #[trigger] s.split(id, left, right);
    assert(s.live(id));
    lemma_halves_share(metric, points, s.nodes[id], left, right);
    let shrunk = CutState { open: s.open.remove(id), ..s };
    let mid = shrunk.place(left);
    lemma_place_live(shrunk, left);
    lemma_place_live(mid, right);
    let n = s.nodes.len() as int;
    assert forall|b: int| #[trigger] t.live(b) <==> (s.live(b) && b != id) || b == n || b == n
        + 1 by {
        assert(shrunk.live(b) <==> s.live(b) && b != id);
        assert(mid.live(b) <==> shrunk.live(b) || b == n);
    }
    assert(t.nodes[n] == left);
    assert(t.nodes[n + 1] == right);
    assert forall|b: int| 0 <= b < n implies #[trigger] t.nodes[b] == s.nodes[b] by {}
    assert forall|b: int, x: usize| 0 <= b < n implies #[trigger] holds(t, b, x) == holds(
        s,
        b,
        x,
    ) by {}
    assert forall|x: usize| #[trigger] holds(s, id, x) <==> holds(t, n, x) || holds(
        t,
        n + 1,
        x,
    ) by {}
    assert forall|x: usize| #[trigger] list.contains(x) implies exists|b: int|
        t.live(b) && #[trigger] holds(t, b, x) by {
        let b = choose|b: int| s.live(b) && #[trigger] holds(s, b, x);
        if b == id {
            assert(holds(t, n, x) || holds(t, n + 1, x));
            assert(t.live(n) && t.live(n + 1));
        } else {
            assert(t.live(b) && holds(t, b, x));
        }
    }
    assert forall|a: int, b: int, x: usize|
        t.live(a) && t.live(b) && #[trigger] holds(t, a, x) && #[trigger] holds(t, b, x) implies a
        == b by {
        assert(a < n ==> holds(s, a, x));
        assert(b < n ==> holds(s, b, x));
        assert(a >= n || b >= n ==> holds(s, id, x));
    }
    assert(apart(t)) by {
        assert(!s.live(n));
        assert(!shrunk.live(n));
        assert(apart(shrunk));
        assert(!s.live(n + 1));
        assert(!mid.live(n + 1));
        assert(!t.live(n + 2));
    }
    assert forall|b: int| #[trigger] t.open.contains(b) implies 0 < t.nodes[b].split_at
        < t.nodes[b].indices@.len() by {
        assert(t.live(b));
    }
    assert forall|b: int, x: usize| t.live(b) && #[trigger] holds(t, b, x) implies list.contains(
        x,
    ) by {
        assert(b < n ==> holds(s, b, x));
        assert(b >= n ==> holds(s, id, x));
    }
    assert forall|b: int| #[trigger] t.live(b) implies t.nodes[b].indices@.len() > 0
        && t.nodes[b].indices@.no_duplicates() by {
        assert(b < n ==> s.live(b));
    }
}

/// A cut shares the listed points out over at most `k` buckets.
pub proof fn lemma_cut_partitions<M: Metric>(
    metric: &M,
    points: &Vec<Point>,
    list: Seq<usize>,
    k: nat,
    buckets: Seq<Seq<usize>>,
)
    requires
        k > 0,
        list.len() > 0,
        list.no_duplicates(),
        is_cut(metric, points, list, k, buckets),
    ensures
        is_partition(list, buckets),
        1 <= buckets.len() <= k,
{
    if k == 1 || list.len() == 1 {
        assert(buckets[0] == list);
        assert forall|x: usize| #[trigger] list.contains(x) implies exists|b: int|
            0 <= b < buckets.len() && #[trigger] buckets[b].contains(x) by {
            assert(buckets[0].contains(x));
        }
        return ;
    }
    let (path, ids) = choose|path: Seq<CutState>, ids: Seq<int>|
        {
            &&& #[trigger] is_run(metric, points, list, k, path)
            &&& path.last().size() >= k || path.last().open.is_empty()
            &&& #[trigger] lists_buckets(path.last(), ids)
            &&& buckets == bucket_points(path.last(), ids)
        };
    lemma_run_covers(metric, points, list, k, path, path.len() - 1);
    let s = path.last();
    assert forall|b: int| 0 <= b < ids.len() implies s.live(#[trigger] ids[b]) by {
        assert(ids.contains(ids[b]));
    }
    assert forall|b: int, x: usize| 0 <= b < buckets.len() implies #[trigger] buckets[b].contains(x)
        == holds(s, ids[b], x) by {}
    assert forall|x: usize| #[trigger] list.contains(x) implies exists|b: int|
        0 <= b < buckets.len() && #[trigger] buckets[b].contains(x) by {
        let id = choose|id: int| s.live(id) && #[trigger] holds(s, id, x);
        assert(ids.contains(id));
        let b = choose|b: int| 0 <= b < ids.len() && ids[b] == id;
        assert(buckets[b].contains(x));
    }
    assert(buckets.len() > 0) by {
        assert(list.contains(list[0]));
    }
    assert forall|b: int| 0 <= b < buckets.len() implies (#[trigger] buckets[b]).len() > 0
        && buckets[b].no_duplicates() by {
        assert(s.live(ids[b]));
    }
    assert forall|a: int, b: int, x: usize|
        0 <= a < buckets.len() && 0 <= b < buckets.len() && #[trigger] buckets[a].contains(x)
            && #[trigger] buckets[b].contains(x) implies a == b by {
        assert(holds(s, ids[a], x) && holds(s, ids[b], x));
    }
}

proof fn lemma_run_covers<M: Metric>(
    metric: &M,
    points: &Vec<Point>,
    list: Seq<usize>,
    k: nat,
    path: Seq<CutState>,
    i: int,
)
    requires
        k > 0,
        is_run(metric, points, list, k, path),
        list.len() > 0,
        list.no_duplicates(),
        0 <= i < path.len(),
    ensures
        covers(path[i], list),
        path[i].size() <= k,
    decreases i,
{
    if i > 0 {
        lemma_run_covers(metric, points, list, k, path, i - 1);
        assert(is_step(metric, points, path[i - 1], path[i]));
        lemma_split_covers(metric, points, list, path[i - 1], path[i]);
    } else {
        let c = choose|c: BucketCandidate|
            is_candidate(metric, points, list, c) && path[0] == #[trigger] no_buckets().place(c);
        lemma_candidate_permutes(metric, points, list, c);
        lemma_place_live(no_buckets(), c);
        let s = path[0];
        assert(s.live(0));
        assert forall|x: usize| #[trigger] list.contains(x) implies exists|b: int|
            s.live(b) && #[trigger] holds(s, b, x) by {
            assert(holds(s, 0, x));
        }
        assert forall|b: int, x: usize| s.live(b) && #[trigger] holds(s, b, x) implies list.contains(
            x,
        ) by {
            assert(b == 0);
        }
        assert(no_buckets().open.insert(0).len() == 1);
        assert(s.open.contains(0) ==> !s.leaves.contains(0));
    }
}

/// There are no more buckets than listed points.
proof fn lemma_bucket_count(list: Seq<usize>, buckets: Seq<Seq<usize>>)
    requires
        is_partition(list, buckets),
    ensures
        buckets.len() <= list.len(),
{
    let firsts = Seq::new(buckets.len(), |b: int| buckets[b][0]);
    assert forall|a: int, b: int|
        0 <= a < firsts.len() && 0 <= b < firsts.len() && a != b implies firsts[a] != firsts[b] by {
        assert(buckets[a].contains(buckets[a][0]));
        assert(buckets[b].contains(buckets[b][0]));
    }
    assert forall|x: usize| firsts.to_set().contains(x) implies list.to_set().contains(x) by {
        let b = choose|b: int| 0 <= b < firsts.len() && firsts[b] == x;
        assert(buckets[b].contains(buckets[b][0]));
    }
    firsts.unique_seq_to_set();
    list.lemma_cardinality_of_set();
    vstd::seq_lib::seq_to_set_is_finite(list);
    vstd::set_lib::lemma_len_subset(firsts.to_set(), list.to_set());
}

/// A bucket with two points leaves fewer buckets than listed points.
proof fn lemma_shared_bucket(
    list: Seq<usize>,
    buckets: Seq<Seq<usize>>,
    b: int,
    x: usize,
    y: usize,
)
    requires
        is_partition(list, buckets),
        0 <= b < buckets.len(),
        buckets[b].contains(x),
        buckets[b].contains(y),
        x != y,
    ensures
        buckets.len() < list.len(),
{
    let z = if buckets[b][0] == x {
        y
    } else {
        x
    };
    let firsts = Seq::new(buckets.len(), |a: int| buckets[a][0]);
    assert forall|a: int, c: int|
        0 <= a < firsts.len() && 0 <= c < firsts.len() && a != c implies firsts[a] != firsts[c] by {
        assert(buckets[a].contains(buckets[a][0]));
        assert(buckets[c].contains(buckets[c][0]));
    }
    let rest = list.to_set().remove(z);
    assert forall|v: usize| firsts.to_set().contains(v) implies rest.contains(v) by {
        let a = choose|a: int| 0 <= a < firsts.len() && firsts[a] == v;
        assert(buckets[a].contains(buckets[a][0]));
        assert(buckets[b].contains(z));
    }
    assert(list.contains(z)) by {
        assert(buckets[b].contains(z));
    }
    firsts.unique_seq_to_set();
    list.lemma_cardinality_of_set();
    vstd::seq_lib::seq_to_set_is_finite(list);
    vstd::set_lib::lemma_len_subset(firsts.to_set(), rest);
}

/// The metric finds a spread wherever two levels differ.
pub open spec fn sees_spread<M: Metric>(metric: &M) -> bool {
    forall|d: usize, lo: u32, hi: u32, score: u32|
        d < 9 && lo < hi && #[trigger] call_ensures(M::score, (metric, d, lo, hi), score) ==> score
            > 0
}

/// The leaves are buckets that cannot be split.
spec fn settled<M: Metric>(metric: &M, points: &Vec<Point>, s: CutState) -> bool {
    &&& forall|b: int| #[trigger] s.live(b) ==> 0 <= b < s.nodes.len()
    &&& forall|i: int|
        0 <= i < s.leaves.len() ==> {
            let c = s.nodes[#[trigger] s.leaves[i]];
            !c.splittable() && is_candidate(metric, points, c.indices@, c)
        }
}

proof fn lemma_place_settled<M: Metric>(
    metric: &M,
    points: &Vec<Point>,
    s: CutState,
    list: Seq<usize>,
    c: BucketCandidate,
)
    requires
        settled(metric, points, s),
        is_candidate(metric, points, list, c),
    ensures
        settled(metric, points, s.place(c)),
{
    let t = s.place(c);
    lemma_place_live(s, c);
    assert forall|i: int| 0 <= i < t.leaves.len() implies {
        let c = t.nodes[#[trigger] t.leaves[i]];
        !c.splittable() && is_candidate(metric, points, c.indices@, c)
    } by {
        if i < s.leaves.len() {
            assert(s.leaves.contains(s.leaves[i]));
            assert(s.live(s.leaves[i]));
            assert(t.nodes[s.leaves[i]] == s.nodes[s.leaves[i]]);
        }
    }
}

proof fn lemma_run_settled<M: Metric>(
    metric: &M,
    points: &Vec<Point>,
    list: Seq<usize>,
    k: nat,
    path: Seq<CutState>,
    i: int,
)
    requires
        is_run(metric, points, list, k, path),
        0 <= i < path.len(),
    ensures
        settled(metric, points, path[i]),
    decreases i,
{
    if i > 0 {
        lemma_run_settled(metric, points, list, k, path, i - 1);
        let s = path[i - 1];
        assert(is_step(metric, points, s, path[i]));
        let (id, left, right) = choose|id: int, left: BucketCandidate, right: BucketCandidate|
            s.widest(id) && are_halves(metric, points, s.nodes[id], left, right) && path[i]
                == #[trigger] s.split(id, left, right);
        let shrunk = CutState { open: s.open.remove(id), ..s };
        assert forall|b: int| #[trigger] shrunk.live(b) implies 0 <= b < shrunk.nodes.len() by {
            assert(s.live(b));
        }
        let at = s.nodes[id].split_at as int;
        lemma_place_settled(metric, points, shrunk, s.nodes[id].indices@.take(at), left);
        lemma_place_settled(
            metric,
            points,
            shrunk.place(left),
            s.nodes[id].indices@.skip(at),
            right,
        );
    } else {
        let c = choose|c: BucketCandidate|
            is_candidate(metric, points, list, c) && path[0] == #[trigger] no_buckets().place(c);
        lemma_place_settled(metric, points, no_buckets(), list, c);
    }
}

/// The levels of the listed points lie between the lowest and the highest.
pub proof fn law_levels_lie_between(points: Seq<Point>, list: Seq<usize>, d: int, i: int)
    requires
        0 <= i < list.len(),
    ensures
        lowest(points, list, d) <= level(points, list[i], d) <= highest(points, list, d),
        exists|j: int|
            0 <= j < list.len() && level(points, #[trigger] list[j], d) == lowest(points, list, d),
        exists|j: int|
            0 <= j < list.len() && level(points, #[trigger] list[j], d) == highest(points, list, d),
    decreases list.len(),
{
    let rest = list.drop_last();
    let n = list.len() - 1;
    if list.len() == 1 {
        assert(level(points, list[0], d) == lowest(points, list, d));
    } else {
        let k = if i < n {
            i
        } else {
            0
        };
        law_levels_lie_between(points, rest, d, k);
        assert(rest[k] == list[k]);
        let a = choose|j: int|
            0 <= j < rest.len() && level(points, #[trigger] rest[j], d) == lowest(points, rest, d);
        let b = choose|j: int|
            0 <= j < rest.len() && level(points, #[trigger] rest[j], d) == highest(points, rest, d);
        assert(rest[a] == list[a] && rest[b] == list[b]);
        assert(level(points, list[n], d) == level(points, list.last(), d));
    }
}

/// A bucket in which the metric finds no spread has points of the same levels.
proof fn lemma_no_spread<M: Metric>(
    metric: &M,
    points: &Vec<Point>,
    c: BucketCandidate,
    i: int,
    j: int,
)
    requires
        sees_spread(metric),
        is_candidate(metric, points, c.indices@, c),
        !c.splittable(),
        0 <= i < c.indices@.len(),
        0 <= j < c.indices@.len(),
    ensures
        points@[c.indices@[i] as int].levels@ == points@[c.indices@[j] as int].levels@,
{
    let list = c.indices@;
    let a = points@[list[i] as int].levels@;
    let b = points@[list[j] as int].levels@;
    if list.len() > 1 {
        let scores = choose|scores: Seq<u32>| #[trigger]
            are_scores(metric, points@, list, scores) && is_best(
                scores,
                c.split_dim as int,
                c.split_score,
            );
        assert forall|d: int| 0 <= d < 9 implies a[d] == b[d] by {
            let e = d as usize;
            assert(scores[e as int] == 0);
            law_levels_lie_between(points@, list, d, i);
            law_levels_lie_between(points@, list, d, j);
        }
        assert(a =~= b);
    } else {
        assert(i == j);
    }
}

/// With a bucket to spare for every listed point, points in the same bucket have the
/// same levels.
pub proof fn law_enough_buckets_tell_levels_apart<M: Metric>(
    metric: &M,
    points: &Vec<Point>,
    list: Seq<usize>,
    k: nat,
    buckets: Seq<Seq<usize>>,
    b: int,
    x: usize,
    y: usize,
)
    requires
        sees_spread(metric),
        0 < list.len() <= k,
        list.no_duplicates(),
        is_cut(metric, points, list, k, buckets),
        0 <= b < buckets.len(),
        buckets[b].contains(x),
        buckets[b].contains(y),
    ensures
        points@[x as int].levels@ == points@[y as int].levels@,
{
    lemma_cut_partitions(metric, points, list, k, buckets);
    if x != y {
        lemma_shared_bucket(list, buckets, b, x, y);
        let (path, ids) = choose|path: Seq<CutState>, ids: Seq<int>|
            {
                &&& #[trigger] is_run(metric, points, list, k, path)
                &&& path.last().size() >= k || path.last().open.is_empty()
                &&& #[trigger] lists_buckets(path.last(), ids)
                &&& buckets == bucket_points(path.last(), ids)
            };
        let s = path.last();
        lemma_run_settled(metric, points, list, k, path, path.len() - 1);
        assert(ids.contains(ids[b]));
        assert(s.live(ids[b]));
        assert(s.leaves.contains(ids[b]));
        let l = choose|l: int| 0 <= l < s.leaves.len() && s.leaves[l] == ids[b];
        let c = s.nodes[s.leaves[l]];
        assert(buckets[b] == c.indices@);
        let i = choose|i: int| 0 <= i < c.indices@.len() && c.indices@[i] == x;
        let j = choose|j: int| 0 <= j < c.indices@.len() && c.indices@[j] == y;
        lemma_no_spread(metric, points, c, i, j);
    }
}

/// Numbers the buckets of the cut from `next_id` on and notes for each listed
/// point the number of its bucket.
pub fn median_cut<M: Metric>(
    metric: &M,
    points: &Vec<Point>,
    indices: Vec<usize>,
    bucket_of: &mut Vec<usize>,
    next_id: &mut usize,
    k: usize,
)
    requires
        within(indices@, points@.len() as int),
        indices@.no_duplicates(),
        old(bucket_of)@.len() == points@.len(),
        *old(next_id) + k <= usize::MAX || *old(next_id) + indices@.len() <= usize::MAX,
    ensures
        k == 0 || indices@.len() == 0 ==> *final(bucket_of) == *old(bucket_of) && *final(next_id)
            == *old(next_id),
        final(bucket_of)@.len() == old(bucket_of)@.len(),
        forall|i: usize|
            i < points@.len() && !indices@.contains(i) ==> #[trigger] final(bucket_of)@[i as int]
                == old(bucket_of)@[i as int],
        k > 0 && indices@.len() > 0 ==> exists|buckets: Seq<Seq<usize>>|
            {
                &&& #[trigger] is_cut(metric, points, indices@, k as nat, buckets)
                &&& is_partition(indices@, buckets)
                &&& 1 <= buckets.len() <= k
                &&& *final(next_id) == *old(next_id) + buckets.len()
                &&& numbers_buckets(final(bucket_of)@, *old(next_id) as int, buckets)
            },
{
    if k == 0 || indices.len() == 0 {
        return ;
    }
    let ghost list = indices@;
    let buckets: Vec<Vec<usize>> = cut_buckets(metric, points, indices, k);
    let ghost lists = views(buckets@);
    proof {
        lemma_cut_partitions(metric, points, list, k as nat, lists);
        lemma_bucket_count(list, lists);
    }
    let ghost first = *next_id;
    let mut b: usize = 0;
    while b < buckets.len()
        invariant
            b <= buckets@.len(),
            first + buckets@.len() <= usize::MAX,
            *next_id == first + b,
            lists == views(buckets@),
            within(list, points@.len() as int),
            is_partition(list, lists),
            bucket_of@.len() == points@.len(),
            points@.len() == old(bucket_of)@.len(),
            numbers_buckets(bucket_of@, first as int, lists.take(b as int)),
            forall|i: usize|
                i < points@.len() && !list.contains(i) ==> #[trigger] bucket_of@[i as int] == old(
                    bucket_of,
                )@[i as int],
        decreases buckets@.len() - b,
    {
        let id: usize = *next_id;
        *next_id = id + 1;
        let ghost was = bucket_of@;
        proof {
            assert(lists[b as int] == buckets@[b as int]@);
            assert forall|j: int| 0 <= j < lists[b as int].len() implies #[trigger] lists[b as int][j]
                < points@.len() by {
                assert(lists[b as int].contains(lists[b as int][j]));
                assert(list.contains(lists[b as int][j]));
            }
        }
        let mut i: usize = 0;
        while i < buckets[b].len()
            invariant
                b < buckets@.len(),
                i <= buckets@[b as int]@.len(),
                id == first + b,
                lists == views(buckets@),
                lists[b as int] == buckets@[b as int]@,
                within(list, points@.len() as int),
                is_partition(list, lists),
                bucket_of@.len() == points@.len(),
                was.len() == points@.len(),
                forall|j: int| 0 <= j < i ==> bucket_of@[#[trigger] lists[b as int][j] as int] == id,
                forall|j: int|
                    0 <= j < lists[b as int].len() ==> #[trigger] lists[b as int][j] < points@.len(),
                forall|x: usize|
                    x < points@.len() && !lists[b as int].contains(x) ==> #[trigger] bucket_of@[x as int]
                        == was[x as int],
            decreases buckets@[b as int]@.len() - i,
        {
            let x: usize = buckets[b][i];
            assert(lists[b as int].contains(x));
            assert(list.contains(x));
            bucket_of[x] = id;
            i = i + 1;
        }
        proof {
            assert forall|a: int, j: int|
                0 <= a < b + 1 && 0 <= j < lists[a].len() implies bucket_of@[(
            #[trigger] lists[a][j]) as int] == first + a by {
                let x = lists[a][j];
                assert(lists[a].contains(x));
                assert(list.contains(x));
                if a < b {
                    assert(!lists[b as int].contains(x));
                    assert(lists.take(b as int)[a][j] == x);
                    assert(bucket_of@[x as int] == was[x as int]);
                }
            }
            assert forall|a: int, j: int|
                0 <= a < b + 1 && 0 <= j < lists.take(b + 1)[a].len() implies bucket_of@[(
            #[trigger] lists.take(b + 1)[a][j]) as int] == first + a by {
                assert(lists.take(b + 1)[a] == lists[a]);
                assert(bucket_of@[lists[a][j] as int] == first + a);
            }
        }
        b = b + 1;
    }
    assert(lists.take(b as int) =~= lists);
}

/// Every point of the bucket at position `b` has the number `first + b`.
pub open spec fn numbers_buckets(
    bucket_of: Seq<usize>,
    first: int,
    buckets: Seq<Seq<usize>>,
) -> bool {
    forall|b: int, j: int|
        0 <= b < buckets.len() && 0 <= j < buckets[b].len() ==> bucket_of[(
        #[trigger] buckets[b][j]) as int] == first + b
}

/// A bucket that can be split has two points or more. It is ordered along the first of the
/// dimensions in which its points are spread the most, and none of its points is lost.
pub proof fn law_buckets_are_split_along_the_widest<M: Metric>(
    metric: &M,
    points: &Vec<Point>,
    list: Seq<usize>,
    c: BucketCandidate,
    i: int,
    j: int,
)
    requires
        is_candidate(metric, points, list, c),
        c.splittable(),
        list.len() > 0,
    ensures
        list.len() >= 2,
        c.split_dim < 9,
        exists|scores: Seq<u32>|
            {
                &&& #[trigger] are_scores(metric, points@, list, scores)
                &&& scores[c.split_dim as int] == c.split_score
                &&& c.split_score > 0
                &&& forall|d: int|
                    0 <= d < c.split_dim ==> #[trigger] scores[d] < c.split_score
                &&& forall|d: int| c.split_dim < d < 9 ==> #[trigger] scores[d] <= c.split_score
            },
        0 <= i < j < c.indices@.len() ==> level(points@, c.indices@[i], c.split_dim as int)
            <= level(points@, c.indices@[j], c.split_dim as int),
        forall|x: usize| #[trigger] c.indices@.contains(x) <==> list.contains(x),
{
    lemma_candidate_permutes(metric, points, list, c);
    let scores = choose|scores: Seq<u32>| #[trigger]
        are_scores(metric, points@, list, scores) && is_best(
            scores,
            c.split_dim as int,
            c.split_score,
        );
    assert(scores.len() == 9);
    let keys = sort_keys(points@, list, c.split_dim as int);
    let order = choose|order: Seq<usize>|
        sort::is_stable_order(keys, order) && c.indices@ == #[trigger] picked(list, order);
    if 0 <= i < j < c.indices@.len() {
        assert(sort::sorts_before(keys, order[i] as int, order[j] as int));
    }
}

/// A bucket of two points or more is split after the position at which the metric finds
/// half of the weight, so that both sides have a point: where that is the last position, its
/// point alone goes to the right; and in the middle where the metric names no position.
pub proof fn law_buckets_are_split_at_half_the_weight<M: Metric>(
    metric: &M,
    points: &Vec<Point>,
    list: Seq<usize>,
    c: BucketCandidate,
    half: usize,
    i: int,
)
    requires
        is_candidate(metric, points, list, c),
        list.len() >= 2,
        forall|pos: usize| #[trigger]
            call_ensures(M::half, (metric, points, &c.indices), pos) ==> pos == half,
        0 <= i < list.len(),
    ensures
        0 < c.split_at < list.len(),
        half + 1 < list.len() ==> (i < c.split_at <==> i <= half),
        half + 1 == list.len() ==> (i < c.split_at <==> i < half),
        half >= list.len() ==> c.split_at == list.len() as int / 2,
{
}

/// Of the buckets that can be split, the one that is split next has the widest spread. Its
/// points go to two new buckets, those before the place of the split to the one and the
/// others to the other; the other buckets stay.
pub proof fn law_the_widest_bucket_is_split<M: Metric>(
    metric: &M,
    points: &Vec<Point>,
    before: CutState,
    after: CutState,
) -> (id: int)
    requires
        is_step(metric, points, before, after),
        before.open.finite(),
    ensures
        before.open.contains(id),
        forall|other: int| #[trigger]
            before.open.contains(other) ==> before.nodes[other].split_score
                <= before.nodes[id].split_score,
        after.nodes.len() == before.nodes.len() + 2,
        ({
            let all = before.nodes[id].indices@;
            let at = before.nodes[id].split_at as int;
            let n = before.nodes.len() as int;
            &&& is_candidate(metric, points, all.take(at), after.nodes[n])
            &&& is_candidate(metric, points, all.skip(at), after.nodes[n + 1])
        }),
        forall|b: int| 0 <= b < before.nodes.len() ==> #[trigger] after.nodes[b] == before.nodes[b],
{
    let (id, left, right) = choose|id: int, left: BucketCandidate, right: BucketCandidate|
        before.widest(id) && are_halves(metric, points, before.nodes[id], left, right) && after
            == #[trigger] before.split(id, left, right);
    id
}

} // verus!
