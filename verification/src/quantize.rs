//! Palette quantisers for baked texels.
//!
//! `quantize` makes one palette for all channels, depth with them.

pub mod cut;
pub mod group;
pub mod idx10s;
pub mod merge;

use std::collections::HashMap;

use vstd::prelude::*;

use crate::quantize::cut::{median_cut, unpack_point, Metric, Point};
pub use crate::quantize::idx10s::{depth_bucket, quantize_10s, QuantResult10s};
use crate::texel;

verus! {

/// A palette and an index into it per pixel.
pub struct QuantResult {
    /// The entries, packed as the bake packs texels.
    pub palette: Vec<[u8; 8]>,
    /// One palette index per pixel.
    pub indices: Vec<u16>,
}

/// Whether a pack draws nothing: its alpha is zero.
pub fn is_alpha_zero(pack: &[u8; 8]) -> (zero: bool)
    ensures
        zero == texel::transparent(*pack),
{
    (texel::lower_word(pack) / 0x8000) % 32 == 0
}

/// Some pack draws nothing.
pub open spec fn has_empty(packs: Seq<[u8; 8]>) -> bool {
    exists|i: int| 0 <= i < packs.len() && texel::transparent(#[trigger] packs[i])
}

/// The number of pixels that carry the pack with key `k`.
pub open spec fn occurrences(packs: Seq<[u8; 8]>, k: u64) -> nat
    decreases packs.len(),
{
    if packs.len() == 0 {
        0
    } else {
        occurrences(packs.drop_last(), k) + if texel::key(packs.last()) == k {
            1nat
        } else {
            0nat
        }
    }
}

/// The keys of the packs that draw something, each once, in the order in which
/// they come up.
pub open spec fn visible_keys(packs: Seq<[u8; 8]>) -> Seq<u64>
    decreases packs.len(),
{
    if packs.len() == 0 {
        Seq::empty()
    } else {
        let before = visible_keys(packs.drop_last());
        let k = texel::key(packs.last());
        if texel::transparent(packs.last()) || before.contains(k) {
            before
        } else {
            before.push(k)
        }
    }
}

/// `points` are the visible packs, each with the number of its pixels.
pub open spec fn are_points(packs: Seq<[u8; 8]>, points: Seq<Point>) -> bool {
    let keys = visible_keys(packs);
    &&& points.len() == keys.len()
    &&& forall|j: int|
        0 <= j < points.len() ==> {
            let lo = texel::key_lower(keys[j]);
            let hi = texel::key_upper(keys[j]);
            &&& (#[trigger] points[j]).levels@ == cut::levels(lo, hi)
            &&& points[j].count == occurrences(packs, keys[j])
            &&& points[j].flags == texel::flag_bits(lo)
        }
}

/// The number of pixels that vote for the flags `f` among the listed points.
pub open spec fn votes(points: Seq<Point>, members: Seq<usize>, f: u32) -> nat
    decreases members.len(),
{
    if members.len() == 0 {
        0
    } else {
        let p = points[members.last() as int];
        votes(points, members.drop_last(), f) + if p.flags == f {
            p.count as nat
        } else {
            0nat
        }
    }
}

/// `f` has the most votes; of flags with equally many it is the lowest.
pub open spec fn is_vote_winner(points: Seq<Point>, members: Seq<usize>, f: u32) -> bool {
    &&& f < 16
    &&& forall|g: u32|
        g < 16 ==> #[trigger] votes(points, members, g) <= votes(points, members, f)
    &&& forall|g: u32| g < f ==> #[trigger] votes(points, members, g) < votes(points, members, f)
}

/// The points among the first `n` that are in bucket `id`, in ascending order.
pub open spec fn members_of(bucket_of: Seq<usize>, id: int, n: nat) -> Seq<usize>
    decreases n,
{
    if n == 0 {
        Seq::empty()
    } else {
        let before = members_of(bucket_of, id, (n - 1) as nat);
        if bucket_of[n - 1] == id {
            before.push((n - 1) as usize)
        } else {
            before
        }
    }
}

/// The indices `0 .. n`.
pub open spec fn all_indices(n: nat) -> Seq<usize> {
    Seq::new(n, |i: int| i as usize)
}

/// The slots before the first one that is cut: one, for what draws nothing.
pub open spec fn first_slot(packs: Seq<[u8; 8]>) -> int {
    if has_empty(packs) {
        1
    } else {
        0
    }
}

/// `bucket_of` gives each point a slot below `used`: that of its bucket in a
/// cut with the budget that the reserved slot leaves.
pub open spec fn is_assignment<M: Metric>(
    metric: &M,
    points: &Vec<Point>,
    first: int,
    k: int,
    bucket_of: Seq<usize>,
    used: int,
) -> bool {
    &&& bucket_of.len() == points@.len()
    &&& k == first || points@.len() == 0 ==> used == first && forall|i: int|
        0 <= i < bucket_of.len() ==> #[trigger] bucket_of[i] == 0
    &&& k > first && points@.len() > 0 ==> exists|buckets: Seq<Seq<usize>>|
        {
            &&& #[trigger] cut::is_cut(
                metric,
                points,
                all_indices(points@.len()),
                (k - first) as nat,
                buckets,
            )
            &&& used == first + buckets.len()
            &&& cut::numbers_buckets(bucket_of, first, buckets)
        }
}

/// `entry` is the centre of the points in slot `slot`, with the flags that most
/// of its pixels have.
pub open spec fn is_entry<M: Metric>(
    metric: &M,
    points: &Vec<Point>,
    bucket_of: Seq<usize>,
    slot: int,
    entry: [u8; 8],
) -> bool {
    exists|members: Vec<usize>, levels: [u32; 9], flags: u32|
        {
            &&& members@ == members_of(bucket_of, slot, points@.len())
            &&& #[trigger] call_ensures(M::centroid, (metric, points, &members), levels)
            &&& #[trigger] is_vote_winner(points@, members@, flags)
            &&& texel::lower(entry) == texel::packed_lower(levels@, flags)
            &&& texel::upper(entry) == texel::packed_upper(levels@)
        }
}

/// The palette index of a pack.
pub open spec fn slot_of(packs: Seq<[u8; 8]>, bucket_of: Seq<usize>, pack: [u8; 8]) -> usize {
    if texel::transparent(pack) {
        0
    } else {
        bucket_of[visible_keys(packs).index_of(texel::key(pack))]
    }
}

/// `r` is a quantisation of `packs` to at most `k` entries that went through
/// `points`, `bucket_of` and `used`.
pub open spec fn is_quantized_by<M: Metric>(
    metric: &M,
    packs: Seq<[u8; 8]>,
    k: int,
    r: QuantResult,
    points: Vec<Point>,
    bucket_of: Seq<usize>,
) -> bool {
    let used = r.palette@.len() as int;
    &&& are_points(packs, points@)
    &&& is_assignment(metric, &points, first_slot(packs), k, bucket_of, used)
    &&& has_empty(packs) ==> used > 0 && r.palette@[0]@ == Seq::new(8, |i: int| 0u8)
    &&& forall|b: int|
        first_slot(packs) <= b < used ==> is_entry(
            metric,
            &points,
            bucket_of,
            b,
            #[trigger] r.palette@[b],
        )
    &&& r.indices@.len() == packs.len()
    &&& forall|i: int|
        0 <= i < packs.len() ==> #[trigger] r.indices@[i] == slot_of(
            packs,
            bucket_of,
            packs[i],
        ) as u16
}

/// `r` is a quantisation of `packs` to at most `k` entries. Where there may be no
/// entry at all, every index is zero.
pub open spec fn is_quantized<M: Metric>(
    metric: &M,
    packs: Seq<[u8; 8]>,
    k: int,
    r: QuantResult,
) -> bool {
    if packs.len() == 0 || k == 0 {
        &&& r.palette@.len() == 0
        &&& r.indices@ == Seq::new(packs.len(), |i: int| 0u16)
    } else {
        exists|points: Vec<Point>, bucket_of: Seq<usize>| #[trigger]
            is_quantized_by(metric, packs, k, r, points, bucket_of)
    }
}

proof fn lemma_occurrences_bound(packs: Seq<[u8; 8]>, k: u64)
    ensures
        occurrences(packs, k) <= packs.len(),
    decreases packs.len(),
{
    if packs.len() > 0 {
        lemma_occurrences_bound(packs.drop_last(), k);
    }
}

/// The visible keys are those of the packs that draw something, each once.
pub proof fn lemma_visible_keys(packs: Seq<[u8; 8]>)
    ensures
        visible_keys(packs).no_duplicates(),
        visible_keys(packs).len() <= packs.len(),
        forall|i: int|
            0 <= i < packs.len() && !texel::transparent(#[trigger] packs[i]) ==> visible_keys(
                packs,
            ).contains(texel::key(packs[i])),
        forall|k: u64| #[trigger]
            visible_keys(packs).contains(k) ==> exists|i: int|
                0 <= i < packs.len() && !texel::transparent(#[trigger] packs[i]) && texel::key(
                    packs[i],
                ) == k,
    decreases packs.len(),
{
    if packs.len() > 0 {
        let shorter = packs.drop_last();
        lemma_visible_keys(shorter);
        let before = visible_keys(shorter);
        let now = visible_keys(packs);
        let n = packs.len() - 1;
        assert forall|k: u64| before.contains(k) implies #[trigger] now.contains(k) by {
            let j = choose|j: int| 0 <= j < before.len() && before[j] == k;
            assert(now[j] == k);
        }
        assert forall|i: int| 0 <= i < packs.len() && !texel::transparent(
            #[trigger] packs[i],
        ) implies now.contains(texel::key(packs[i])) by {
            if i < n {
                assert(shorter[i] == packs[i]);
            } else if !before.contains(texel::key(packs[i])) {
                assert(now[now.len() - 1] == texel::key(packs[i]));
            }
        }
        assert forall|k: u64| #[trigger] now.contains(k) implies exists|i: int|
            0 <= i < packs.len() && !texel::transparent(#[trigger] packs[i]) && texel::key(packs[i])
                == k by {
            if before.contains(k) {
                let i = choose|i: int|
                    0 <= i < shorter.len() && !texel::transparent(#[trigger] shorter[i])
                        && texel::key(shorter[i]) == k;
                assert(packs[i] == shorter[i]);
            } else {
                let j = choose|j: int| 0 <= j < now.len() && now[j] == k;
                assert(packs[n] == packs.last());
            }
        }
    }
}

/// The map finds each key's position and nothing else.
pub open spec fn finds(map: Map<u64, usize>, keys: Seq<u64>) -> bool {
    &&& forall|j: int|
        0 <= j < keys.len() ==> map.contains_key(#[trigger] keys[j]) && map[keys[j]] == j
    &&& forall|k: u64| #[trigger] map.contains_key(k) ==> map[k] < keys.len() && keys[map[k] as int]
        == k
}

/// The distinct visible packs.
struct Visible {
    positions: HashMap<u64, usize>,
    points: Vec<Point>,
    has_empty: bool,
}

proof fn lemma_one_more(before: Seq<[u8; 8]>, pack: [u8; 8])
    ensures
        has_empty(before.push(pack)) == (has_empty(before) || texel::transparent(pack)),
        visible_keys(before).no_duplicates(),
        visible_keys(before.push(pack)) == if texel::transparent(pack) || visible_keys(
            before,
        ).contains(texel::key(pack)) {
            visible_keys(before)
        } else {
            visible_keys(before).push(texel::key(pack))
        },
        forall|k: u64| #[trigger] occurrences(before, k) <= before.len(),
        forall|k: u64| #[trigger]
            occurrences(before.push(pack), k) == occurrences(before, k) + if texel::key(pack) == k {
                1nat
            } else {
                0nat
            },
        !texel::transparent(pack) && !visible_keys(before).contains(texel::key(pack))
            ==> occurrences(before, texel::key(pack)) == 0,
        texel::transparent(pack) ==> !visible_keys(before).contains(texel::key(pack)),
{
    let now = before.push(pack);
    let key = texel::key(pack);
    assert(now.drop_last() =~= before);
    assert(now.last() == pack);
    lemma_visible_keys(before);
    texel::lemma_key_words(pack);
    assert forall|k: u64| #[trigger] occurrences(before, k) <= before.len() by {
        lemma_occurrences_bound(before, k);
    }
    if has_empty(before) {
        let e = choose|e: int| 0 <= e < before.len() && texel::transparent(#[trigger] before[e]);
        assert(texel::transparent(now[e]));
    }
    if texel::transparent(pack) {
        assert(texel::transparent(now[before.len() as int]));
        if visible_keys(before).contains(key) {
            let e = choose|e: int|
                0 <= e < before.len() && !texel::transparent(#[trigger] before[e]) && texel::key(
                    before[e],
                ) == key;
            texel::lemma_key_words(before[e]);
        }
    } else {
        if has_empty(now) {
            let e = choose|e: int| 0 <= e < now.len() && texel::transparent(#[trigger] now[e]);
            assert(texel::transparent(before[e]));
        }
        if !visible_keys(before).contains(key) {
            lemma_absent(before, key);
        }
    }
}

fn gather(packs: &Vec<[u8; 8]>) -> (v: Visible)
    ensures
        finds(v.positions@, visible_keys(packs@)),
        are_points(packs@, v.points@),
        v.has_empty == has_empty(packs@),
{
    broadcast use vstd::std_specs::hash::group_hash_axioms;

    let mut positions: HashMap<u64, usize> = HashMap::new();
    let mut keys: Vec<u64> = Vec::new();
    let mut counts: Vec<u64> = Vec::new();
    let mut empty: bool = false;
    let mut i: usize = 0;
    while i < packs.len()
        invariant
            i <= packs@.len(),
            keys@ == visible_keys(packs@.take(i as int)),
            keys@.no_duplicates(),
            finds(positions@, keys@),
            counts@.len() == keys@.len(),
            forall|j: int|
                0 <= j < counts@.len() ==> #[trigger] counts@[j] == occurrences(
                    packs@.take(i as int),
                    keys@[j],
                ),
            empty == has_empty(packs@.take(i as int)),
        decreases packs@.len() - i,
    {
        broadcast use vstd::std_specs::hash::group_hash_axioms;

        let ghost before = packs@.take(i as int);
        proof {
            assert(packs@.take(i + 1) =~= before.push(packs@[i as int]));
            lemma_one_more(before, packs@[i as int]);
        }
        let key: u64 = texel::pack_key(&packs[i]);
        if is_alpha_zero(&packs[i]) {
            empty = true;
        } else {
            let found: Option<usize> = match positions.get(&key) {
                Some(j) => Some(*j),
                None => None,
            };
            match found {
                Some(j) => {
                    assert(keys@[j as int] == key);
                    assert(keys@.contains(key));
                    let c: u64 = counts[j];
                    counts[j] = c + 1;
                },
                None => {
                    assert(!keys@.contains(key));
                    positions.insert(key, keys.len());
                    keys.push(key);
                    counts.push(1);
                },
            }
        }
        i = i + 1;
    }
    assert(packs@.take(i as int) =~= packs@);
    let mut points: Vec<Point> = Vec::new();
    let mut j: usize = 0;
    while j < keys.len()
        invariant
            j <= keys@.len(),
            counts@.len() == keys@.len(),
            keys@ == visible_keys(packs@),
            forall|l: int|
                0 <= l < counts@.len() ==> #[trigger] counts@[l] == occurrences(packs@, keys@[l]),
            points@.len() == j,
            forall|l: int|
                0 <= l < j ==> {
                    let lo = texel::key_lower(keys@[l]);
                    let hi = texel::key_upper(keys@[l]);
                    &&& (#[trigger] points@[l]).levels@ == cut::levels(lo, hi)
                    &&& points@[l].count == occurrences(packs@, keys@[l])
                    &&& points@[l].flags == texel::flag_bits(lo)
                },
        decreases keys@.len() - j,
    {
        points.push(unpack_point(keys[j], counts[j]));
        j = j + 1;
    }
    Visible { positions, points, has_empty: empty }
}

proof fn lemma_absent(packs: Seq<[u8; 8]>, k: u64)
    requires
        !visible_keys(packs).contains(k),
        texel::alpha_level(texel::key_lower(k)) != 0,
    ensures
        occurrences(packs, k) == 0,
    decreases packs.len(),
{
    if packs.len() > 0 {
        let before = visible_keys(packs.drop_last());
        let now = visible_keys(packs);
        if before.contains(k) {
            let j = choose|j: int| 0 <= j < before.len() && before[j] == k;
            assert(now[j] == k);
        }
        lemma_absent(packs.drop_last(), k);
        if texel::key(packs.last()) == k {
            texel::lemma_key_words(packs.last());
            assert(now[now.len() - 1] == k);
        }
    }
}

fn gather_members(bucket_of: &Vec<usize>, id: usize) -> (members: Vec<usize>)
    ensures
        members@ == members_of(bucket_of@, id as int, bucket_of@.len()),
{
    let mut members: Vec<usize> = Vec::new();
    let mut i: usize = 0;
    while i < bucket_of.len()
        invariant
            i <= bucket_of@.len(),
            members@ == members_of(bucket_of@, id as int, i as nat),
        decreases bucket_of@.len() - i,
    {
        if bucket_of[i] == id {
            members.push(i);
        }
        i = i + 1;
    }
    members
}

fn winning_flags(points: &Vec<Point>, members: &Vec<usize>) -> (f: u32)
    requires
        cut::within(members@, points@.len() as int),
        members@.len() <= points@.len(),
    ensures
        is_vote_winner(points@, members@, f),
{
    let mut best: u32 = 0;
    let mut best_votes: u128 = 0;
    let mut f: u32 = 0;
    while f < 16
        invariant
            f <= 16,
            cut::within(members@, points@.len() as int),
            members@.len() <= points@.len(),
            f > 0 ==> best < f,
            f == 0 ==> best == 0 && best_votes == 0,
            f > 0 ==> best_votes == votes(points@, members@, best),
            forall|g: u32| g < f ==> #[trigger] votes(points@, members@, g) <= best_votes,
            forall|g: u32| g < best ==> #[trigger] votes(points@, members@, g) < best_votes,
        decreases 16 - f,
    {
        let mut n: u128 = 0;
        let mut i: usize = 0;
        while i < members.len()
            invariant
                i <= members@.len(),
                cut::within(members@, points@.len() as int),
                    members@.len() <= points@.len(),
                n == votes(points@, members@.take(i as int), f),
                n <= i * u64::MAX,
            decreases members@.len() - i,
        {
            proof {
                assert(members@.take(i + 1).drop_last() =~= members@.take(i as int));
                assert(i * u64::MAX + u64::MAX == (i + 1) * u64::MAX) by (nonlinear_arith);
                assert((i + 1) * u64::MAX <= u64::MAX * u64::MAX) by (nonlinear_arith)
                    requires
                        i + 1 <= u64::MAX,
                ;
            }
            if points[members[i]].flags == f {
                n = n + points[members[i]].count as u128;
            }
            i = i + 1;
        }
        assert(members@.take(i as int) =~= members@);
        if n > best_votes {
            best = f;
            best_votes = n;
        }
        f = f + 1;
    }
    best
}

proof fn lemma_members(bucket_of: Seq<usize>, id: int, n: nat)
    requires
        n <= bucket_of.len(),
        n <= usize::MAX,
    ensures
        members_of(bucket_of, id, n).len() <= n,
        cut::within(members_of(bucket_of, id, n), n as int),
    decreases n,
{
    if n > 0 {
        lemma_members(bucket_of, id, (n - 1) as nat);
    }
}

/// The entry of a bucket.
fn make_entry<M: Metric>(
    metric: &M,
    points: &Vec<Point>,
    bucket_of: &Vec<usize>,
    slot: usize,
) -> (entry: [u8; 8])
    requires
        bucket_of@.len() == points@.len(),
    ensures
        is_entry(metric, points, bucket_of@, slot as int, entry),
{
    let members: Vec<usize> = gather_members(bucket_of, slot);
    proof {
        assert(bucket_of.len() == bucket_of@.len());
        lemma_members(bucket_of@, slot as int, bucket_of@.len());
    }
    let flags: u32 = winning_flags(points, &members);
    let levels: [u32; 9] = metric.centroid(points, &members);
    texel::pack_levels(&levels, flags)
}

/// A palette without entries, and zeros for `n` pixels.
fn no_entries(n: usize) -> (r: QuantResult)
    ensures
        r.palette@.len() == 0,
        r.indices@ == Seq::new(n as nat, |i: int| 0u16),
{
    let indices: Vec<u16> = vec![0; n];
    assert(indices@ =~= Seq::new(n as nat, |i: int| 0u16));
    QuantResult { palette: Vec::new(), indices }
}

/// Quantises the packs to a palette of at most `k` entries. Packs that draw
/// nothing share the first slot; the rest is cut into buckets, one entry each.
pub fn quantize<M: Metric>(metric: &M, packs: &Vec<[u8; 8]>, k: usize) -> (r: QuantResult)
    ensures
        is_quantized(metric, packs@, k as int, r),
{
    if packs.len() == 0 || k == 0 {
        return no_entries(packs.len());
    }
    let v: Visible = gather(packs);
    let points: Vec<Point> = v.points;
    proof {
        lemma_visible_keys(packs@);
    }
    let n: usize = points.len();
    let mut all: Vec<usize> = Vec::new();
    let mut bucket_of: Vec<usize> = Vec::new();
    let mut i: usize = 0;
    while i < n
        invariant
            i <= n,
            all@ == all_indices(i as nat),
            bucket_of@.len() == i,
            forall|j: int| 0 <= j < i ==> #[trigger] bucket_of@[j] == 0,
        decreases n - i,
    {
        all.push(i);
        bucket_of.push(0);
        i = i + 1;
        assert(all@ =~= all_indices(i as nat));
    }
    let first: usize = if v.has_empty {
        1
    } else {
        0
    };
    let mut used: usize = first;
    let budget: usize = k - first;
    let ghost list = all@;
    let ghost blank = bucket_of@;
    median_cut(metric, &points, all, &mut bucket_of, &mut used, budget);
    proof {
        assert(list == all_indices(points@.len()));
        if budget > 0 && points@.len() > 0 {
            let buckets = choose|buckets: Seq<Seq<usize>>|
                {
                    &&& #[trigger] cut::is_cut(metric, &points, list, budget as nat, buckets)
                    &&& cut::is_partition(list, buckets)
                    &&& used == first + buckets.len()
                    &&& cut::numbers_buckets(bucket_of@, first as int, buckets)
                };
            assert(cut::is_cut(
                metric,
                &points,
                all_indices(points@.len()),
                (k - first) as nat,
                buckets,
            ));
        } else {
            assert(bucket_of@ == blank);
        }
    }
    assert(is_assignment(metric, &points, first as int, k as int, bucket_of@, used as int));
    let mut palette: Vec<[u8; 8]> = Vec::new();
    if v.has_empty {
        palette.push([0, 0, 0, 0, 0, 0, 0, 0]);
        assert(palette@[0]@ =~= Seq::new(8, |i: int| 0u8));
    }
    let mut b: usize = first;
    while b < used
        invariant
            first <= b <= used,
            palette@.len() == b,
            first <= 1,
            bucket_of@.len() == points@.len(),
            first == 1 ==> palette@[0]@ == Seq::new(8, |i: int| 0u8),
            forall|c: int|
                first <= c < b ==> is_entry(
                    metric,
                    &points,
                    bucket_of@,
                    c,
                    #[trigger] palette@[c],
                ),
        decreases used - b,
    {
        let entry: [u8; 8] = make_entry(metric, &points, &bucket_of, b);
        palette.push(entry);
        b = b + 1;
    }
    let mut indices: Vec<u16> = Vec::new();
    let mut i: usize = 0;
    while i < packs.len()
        invariant
            i <= packs@.len(),
            finds(v.positions@, visible_keys(packs@)),
            visible_keys(packs@).no_duplicates(),
            bucket_of@.len() == visible_keys(packs@).len(),
            indices@.len() == i,
            forall|j: int|
                0 <= j < i ==> #[trigger] indices@[j] == slot_of(
                    packs@,
                    bucket_of@,
                    packs@[j],
                ) as u16,
        decreases packs@.len() - i,
    {
        broadcast use vstd::std_specs::hash::group_hash_axioms;

        let mut slot: usize = 0;
        if !is_alpha_zero(&packs[i]) {
            let key: u64 = texel::pack_key(&packs[i]);
            proof {
                lemma_visible_keys(packs@);
                let j = visible_keys(packs@).index_of(key);
                assert(visible_keys(packs@).contains(texel::key(packs@[i as int])));
                assert(visible_keys(packs@)[j] == key);
            }
            match v.positions.get(&key) {
                Some(j) => {
                    slot = bucket_of[*j];
                },
                None => {},
            }
        }
        indices.push(
            #[verifier::truncate]
            (slot as u16),
        );
        i = i + 1;
    }
    let r: QuantResult = QuantResult { palette, indices };
    assert(is_quantized_by(metric, packs@, k as int, r, points, bucket_of@));
    r
}

/// Some point is in slot `b`.
spec fn has_point(bucket_of: Seq<usize>, b: int) -> bool {
    exists|j: int| 0 <= j < bucket_of.len() && #[trigger] bucket_of[j] == b
}

/// Every point has a slot from `first` on and below `used`, and every such slot
/// has a point.
proof fn lemma_assignment_slots<M: Metric>(
    metric: &M,
    points: &Vec<Point>,
    first: int,
    k: int,
    bucket_of: Seq<usize>,
    used: int,
)
    requires
        0 <= first < k,
        is_assignment(metric, points, first, k, bucket_of, used),
    ensures
        first <= used <= k,
        points@.len() > 0 ==> first < used,
        forall|j: int| 0 <= j < bucket_of.len() ==> first <= #[trigger] bucket_of[j] < used,
        forall|b: int| first <= b < used ==> #[trigger] has_point(bucket_of, b),
{
    if points@.len() > 0 {
        let n = points@.len();
        let list = all_indices(n);
        assert(points.len() == n);
        let buckets = choose|buckets: Seq<Seq<usize>>|
            {
                &&& #[trigger] cut::is_cut(metric, points, list, (k - first) as nat, buckets)
                &&& used == first + buckets.len()
                &&& cut::numbers_buckets(bucket_of, first, buckets)
            };
        cut::lemma_cut_partitions(metric, points, list, (k - first) as nat, buckets);
        assert forall|j: int| 0 <= j < bucket_of.len() implies first <= #[trigger] bucket_of[j]
            < used by {
            assert(list[j] == j as usize);
            assert(list.contains(j as usize));
            let b = choose|b: int| 0 <= b < buckets.len() && #[trigger] buckets[b].contains(
                j as usize,
            );
            let x = choose|x: int| 0 <= x < buckets[b].len() && buckets[b][x] == j as usize;
            assert(bucket_of[buckets[b][x] as int] == first + b);
        }
        assert forall|b: int| first <= b < used implies #[trigger] has_point(bucket_of, b) by {
            let c = b - first;
            assert(buckets[c].len() > 0);
            assert(buckets[c].contains(buckets[c][0]));
            assert(list.contains(buckets[c][0]));
            assert(bucket_of[buckets[c][0] as int] == first + c);
        }
    }
}

/// The palette holds no more than `k` entries, there is one index per pixel, and
/// every index is that of an entry as long as there may be one and indices can
/// name all of them.
pub proof fn law_palette_within_budget<M: Metric>(
    metric: &M,
    packs: Seq<[u8; 8]>,
    k: int,
    r: QuantResult,
)
    requires
        0 <= k,
        is_quantized(metric, packs, k, r),
    ensures
        r.palette@.len() <= k,
        r.indices@.len() == packs.len(),
        0 < k <= 0x1_0000 ==> forall|i: int|
            0 <= i < r.indices@.len() ==> #[trigger] r.indices@[i] < r.palette@.len(),
{
    if packs.len() > 0 && k > 0 {
        let (points, bucket_of) = choose|points: Vec<Point>, bucket_of: Seq<usize>| #[trigger]
            is_quantized_by(metric, packs, k, r, points, bucket_of);
        let first = first_slot(packs);
        let used = r.palette@.len() as int;
        if k > first {
            lemma_assignment_slots(metric, &points, first, k, bucket_of, used);
        }
        if k <= 0x1_0000 {
            assert forall|i: int| 0 <= i < r.indices@.len() implies #[trigger] r.indices@[i]
                < used by {
                lemma_visible_keys(packs);
                if !texel::transparent(packs[i]) {
                    let j = visible_keys(packs).index_of(texel::key(packs[i]));
                    assert(visible_keys(packs).contains(texel::key(packs[i])));
                    assert(bucket_of[j] < used);
                } else {
                    assert(has_empty(packs));
                }
            }
        }
    }
}

/// Pixels with the same pack get the same index.
pub proof fn law_equal_packs_equal_indices<M: Metric>(
    metric: &M,
    packs: Seq<[u8; 8]>,
    k: int,
    r: QuantResult,
    i: int,
    j: int,
)
    requires
        is_quantized(metric, packs, k, r),
        0 <= i < r.indices@.len(),
        0 <= j < r.indices@.len(),
        packs[i]@ == packs[j]@,
    ensures
        r.indices@[i] == r.indices@[j],
{
    if k != 0 {
        let (points, bucket_of) = choose|points: Vec<Point>, bucket_of: Seq<usize>| #[trigger]
            is_quantized_by(metric, packs, k, r, points, bucket_of);
        assert(slot_of(packs, bucket_of, packs[i]) == slot_of(packs, bucket_of, packs[j]));
    }
}

/// What draws nothing gets the first slot, and that slot draws nothing.
pub proof fn law_transparent_in_first_slot<M: Metric>(
    metric: &M,
    packs: Seq<[u8; 8]>,
    k: int,
    r: QuantResult,
    i: int,
)
    requires
        is_quantized(metric, packs, k, r),
        0 < k,
        0 <= i < r.indices@.len(),
        texel::transparent(packs[i]),
    ensures
        r.indices@[i] == 0,
        r.palette@.len() > 0,
        texel::transparent(r.palette@[0]),
{
    let (points, bucket_of) = choose|points: Vec<Point>, bucket_of: Seq<usize>| #[trigger]
        is_quantized_by(metric, packs, k, r, points, bucket_of);
    assert(has_empty(packs));
    assert(r.palette@[0]@[0] == 0 && r.palette@[0]@[1] == 0 && r.palette@[0]@[2] == 0);
}

/// What draws something keeps off the slot reserved for what draws nothing,
/// where there is a second slot to go to.
pub proof fn law_visible_keeps_off_reserved_slot<M: Metric>(
    metric: &M,
    packs: Seq<[u8; 8]>,
    k: int,
    r: QuantResult,
    i: int,
)
    requires
        is_quantized(metric, packs, k, r),
        2 <= k <= 0x1_0000,
        has_empty(packs),
        0 <= i < r.indices@.len(),
        !texel::transparent(packs[i]),
    ensures
        r.indices@[i] > 0,
{
    let (points, bucket_of) = choose|points: Vec<Point>, bucket_of: Seq<usize>| #[trigger]
        is_quantized_by(metric, packs, k, r, points, bucket_of);
    lemma_assignment_slots(metric, &points, 1, k, bucket_of, r.palette@.len() as int);
    lemma_visible_keys(packs);
    let j = visible_keys(packs).index_of(texel::key(packs[i]));
    assert(visible_keys(packs).contains(texel::key(packs[i])));
    assert(bucket_of[j] >= 1);
}

/// The points that `members` lists are visible.
pub open spec fn are_visible(points: Seq<Point>, members: Seq<usize>) -> bool {
    forall|j: int|
        0 <= j < members.len() ==> 1 <= (#[trigger] points[members[j] as int]).levels@[3] <= 31
}

/// The centre of visible points is visible.
pub open spec fn keeps_visible<M: Metric>(metric: &M) -> bool {
    forall|points: &Vec<Point>, members: &Vec<usize>, levels: [u32; 9]|
        #[trigger] call_ensures(M::centroid, (metric, points, members), levels) && members@.len()
            > 0 && cut::within(members@, points@.len() as int) && are_visible(points@, members@)
            ==> 1 <= levels@[3] <= 31
}

/// A slot that a point is in has members.
proof fn lemma_members_hold(bucket_of: Seq<usize>, id: int, n: nat)
    requires
        n <= bucket_of.len(),
        n <= usize::MAX,
    ensures
        (exists|i: int| 0 <= i < n && #[trigger] bucket_of[i] == id) ==> members_of(
            bucket_of,
            id,
            n,
        ).len() > 0,
    decreases n,
{
    if n > 0 {
        lemma_members_hold(bucket_of, id, (n - 1) as nat);
    }
}

/// Where the centre of visible points is visible, a pixel is shown if and only if
/// it was to be: none vanishes, and none appears.
pub proof fn law_visibility_is_kept<M: Metric>(
    metric: &M,
    packs: Seq<[u8; 8]>,
    k: int,
    r: QuantResult,
    i: int,
)
    requires
        keeps_visible(metric),
        is_quantized(metric, packs, k, r),
        2 <= k <= 0x1_0000,
        0 <= i < packs.len(),
    ensures
        r.indices@[i] < r.palette@.len(),
        texel::transparent(r.palette@[r.indices@[i] as int]) == texel::transparent(packs[i]),
{
    law_palette_within_budget(metric, packs, k, r);
    assert(r.indices@[i] < r.palette@.len());
    if texel::transparent(packs[i]) {
        law_transparent_in_first_slot(metric, packs, k, r, i);
    } else {
        let (points, bucket_of) = choose|points: Vec<Point>, bucket_of: Seq<usize>| #[trigger]
            is_quantized_by(metric, packs, k, r, points, bucket_of);
        let first = first_slot(packs);
        lemma_assignment_slots(metric, &points, first, k, bucket_of, r.palette@.len() as int);
        lemma_visible_keys(packs);
        let key = texel::key(packs[i]);
        assert(visible_keys(packs).contains(key));
        let p = visible_keys(packs).index_of(key);
        let slot = r.indices@[i] as int;
        assert(bucket_of[p] == slot);
        assert(is_entry(metric, &points, bucket_of, slot, r.palette@[slot]));
        lemma_entry_visible(metric, packs, &points, bucket_of, slot, p, r.palette@[slot]);
    }
}

/// The entry of a slot with a visible point is visible.
proof fn lemma_entry_visible<M: Metric>(
    metric: &M,
    packs: Seq<[u8; 8]>,
    points: &Vec<Point>,
    bucket_of: Seq<usize>,
    slot: int,
    p: int,
    entry: [u8; 8],
)
    requires
        keeps_visible(metric),
        are_points(packs, points@),
        bucket_of.len() == points@.len(),
        0 <= p < bucket_of.len(),
        bucket_of[p] == slot,
        is_entry(metric, points, bucket_of, slot, entry),
    ensures
        !texel::transparent(entry),
{
    let (members, levels, flags) = choose|members: Vec<usize>, levels: [u32; 9], flags: u32|
        {
            &&& members@ == members_of(bucket_of, slot, points@.len())
            &&& #[trigger] call_ensures(M::centroid, (metric, points, &members), levels)
            &&& #[trigger] is_vote_winner(points@, members@, flags)
            &&& texel::lower(entry) == texel::packed_lower(levels@, flags)
            &&& texel::upper(entry) == texel::packed_upper(levels@)
        };
    assert(points.len() == points@.len());
    lemma_members(bucket_of, slot, points@.len());
    lemma_members_hold(bucket_of, slot, points@.len());
    lemma_visible_keys(packs);
    assert forall|j: int| 0 <= j < members@.len() implies 1 <= (#[trigger] points@[members@[j] as int]).levels@[3]
        <= 31 by {
        let m = members@[j] as int;
        let keys = visible_keys(packs);
        assert(keys.contains(keys[m]));
        let e = choose|e: int|
            0 <= e < packs.len() && !texel::transparent(#[trigger] packs[e]) && texel::key(packs[e])
                == keys[m];
        texel::lemma_key_words(packs[e]);
    }
    cut::lemma_packed_alpha(levels@, flags);
}

/// No entry goes unused.
pub proof fn law_every_entry_is_used<M: Metric>(
    metric: &M,
    packs: Seq<[u8; 8]>,
    k: int,
    r: QuantResult,
    slot: int,
)
    requires
        is_quantized(metric, packs, k, r),
        0 <= k <= 0x1_0000,
        0 <= slot < r.palette@.len(),
    ensures
        exists|i: int| 0 <= i < r.indices@.len() && #[trigger] r.indices@[i] == slot,
{
    let (points, bucket_of) = choose|points: Vec<Point>, bucket_of: Seq<usize>| #[trigger]
        is_quantized_by(metric, packs, k, r, points, bucket_of);
    let first = first_slot(packs);
    if slot < first {
        let e = choose|e: int| 0 <= e < packs.len() && texel::transparent(#[trigger] packs[e]);
        assert(r.indices@[e] == 0);
    } else {
        let keys = visible_keys(packs);
        lemma_visible_keys(packs);
        if k == first {
            assert(false);
        }
        lemma_assignment_slots(metric, &points, first, k, bucket_of, r.palette@.len() as int);
        assert(has_point(bucket_of, slot));
        let j = choose|j: int| 0 <= j < bucket_of.len() && #[trigger] bucket_of[j] == slot;
        assert(keys.contains(keys[j]));
        let i = choose|i: int|
            0 <= i < packs.len() && !texel::transparent(#[trigger] packs[i]) && texel::key(packs[i])
                == keys[j];
        assert(keys.index_of(keys[j]) == j);
        assert(r.indices@[i] == slot);
    }
}

/// The points in bucket `id` are those whose bucket it is.
proof fn lemma_members_are(bucket_of: Seq<usize>, id: int, n: nat)
    requires
        n <= bucket_of.len(),
        n <= usize::MAX,
    ensures
        forall|j: usize| #[trigger]
            members_of(bucket_of, id, n).contains(j) <==> j < n && bucket_of[j as int] == id,
    decreases n,
{
    if n > 0 {
        let before = members_of(bucket_of, id, (n - 1) as nat);
        let now = members_of(bucket_of, id, n);
        lemma_members_are(bucket_of, id, (n - 1) as nat);
        assert forall|j: usize| #[trigger] now.contains(j) <==> j < n && bucket_of[j as int]
            == id by {
            if before.contains(j) {
                let i = choose|i: int| 0 <= i < before.len() && before[i] == j;
                assert(now[i] == j);
            }
            if now.contains(j) {
                let i = choose|i: int| 0 <= i < now.len() && now[i] == j;
                assert(i < before.len() ==> before[i] == j);
            }
            if j == n - 1 && bucket_of[n - 1] == id {
                assert(now[before.len() as int] == j);
            }
        }
    }
}

/// Pixel `i` is visible and has the index `slot`.
pub open spec fn is_drawn_by(
    packs: Seq<[u8; 8]>,
    indices: Seq<u16>,
    slot: int,
    i: int,
) -> bool {
    0 <= i < packs.len() && !texel::transparent(packs[i]) && indices[i] == slot
}

/// The point has the fields of the pack for its levels and flags, and the number of
/// pixels with that pack for its weight.
#[verifier::opaque]
pub open spec fn is_point_of(p: Point, pack: [u8; 8], packs: Seq<[u8; 8]>) -> bool {
    &&& cut::are_levels(texel::lower(pack), texel::upper(pack), p.levels@)
    &&& p.flags == texel::field(texel::lower(pack), 28, 15)
    &&& p.count == packs.filter(|other: [u8; 8]| other@ == pack@).len()
}

/// `p` is the point of a visible pixel with the index `slot`.
pub open spec fn is_drawn_point(
    packs: Seq<[u8; 8]>,
    indices: Seq<u16>,
    slot: int,
    p: Point,
) -> bool {
    exists|i: int| #[trigger]
        is_drawn_by(packs, indices, slot, i) && is_point_of(p, packs[i], packs)
}

/// One of the listed points is that of pixel `i`.
pub open spec fn lists_point_of(
    packs: Seq<[u8; 8]>,
    points: Seq<Point>,
    members: Seq<usize>,
    i: int,
) -> bool {
    exists|m: int|
        0 <= m < members.len() && is_point_of(
            points[#[trigger] members[m] as int],
            packs[i],
            packs,
        )
}

/// The listed points are those of the visible pixels with the index `slot`.
pub open spec fn are_points_of(
    packs: Seq<[u8; 8]>,
    indices: Seq<u16>,
    slot: int,
    points: Seq<Point>,
    members: Seq<usize>,
) -> bool {
    &&& members.len() > 0
    &&& cut::within(members, points.len() as int)
    &&& forall|m: int|
        0 <= m < members.len() ==> is_drawn_point(
            packs,
            indices,
            slot,
            points[#[trigger] members[m] as int],
        )
    &&& forall|i: int| #[trigger]
        is_drawn_by(packs, indices, slot, i) ==> lists_point_of(packs, points, members, i)
}

/// The pixels that carry a pack are counted.
proof fn lemma_occurrences_counted(packs: Seq<[u8; 8]>, pack: [u8; 8])
    ensures
        occurrences(packs, texel::key(pack)) == packs.filter(
            |other: [u8; 8]| other@ == pack@,
        ).len(),
    decreases packs.len(),
{
    reveal(Seq::filter);
    if packs.len() > 0 {
        lemma_occurrences_counted(packs.drop_last(), pack);
        let last = packs.last();
        if texel::key(last) == texel::key(pack) {
            texel::law_key_tells_packs_apart(last, pack);
        }
    }
}

/// The point at position `j` is that of every pixel with its key.
proof fn lemma_point_of(packs: Seq<[u8; 8]>, points: Seq<Point>, j: int, i: int)
    requires
        are_points(packs, points),
        0 <= j < points.len(),
        0 <= i < packs.len(),
        texel::key(packs[i]) == visible_keys(packs)[j],
    ensures
        is_point_of(points[j], packs[i], packs),
{
    reveal(is_point_of);
    let lo = texel::lower(packs[i]);
    let hi = texel::upper(packs[i]);
    texel::lemma_key_words(packs[i]);
    texel::lemma_fields(lo);
    texel::lemma_fields(hi);
    lemma_occurrences_counted(packs, packs[i]);
    assert(points[j].levels@ == cut::levels(lo, hi));
}

/// The visible pixel `i` has the slot of its point.
proof fn lemma_pixel_point<M: Metric>(
    metric: &M,
    packs: Seq<[u8; 8]>,
    k: int,
    r: QuantResult,
    points: Vec<Point>,
    bucket_of: Seq<usize>,
    i: int,
) -> (j: int)
    requires
        is_quantized_by(metric, packs, k, r, points, bucket_of),
        first_slot(packs) < k <= 0x1_0000,
        0 <= i < packs.len(),
        !texel::transparent(packs[i]),
    ensures
        0 <= j < points@.len(),
        visible_keys(packs)[j] == texel::key(packs[i]),
        bucket_of[j] == r.indices@[i],
        first_slot(packs) <= r.indices@[i] < r.palette@.len(),
{
    lemma_assignment_slots(
        metric,
        &points,
        first_slot(packs),
        k,
        bucket_of,
        r.palette@.len() as int,
    );
    lemma_visible_keys(packs);
    let key = texel::key(packs[i]);
    assert(visible_keys(packs).contains(key));
    let j = visible_keys(packs).index_of(key);
    assert(bucket_of[j] < r.palette@.len());
    assert(r.indices@[i] == slot_of(packs, bucket_of, packs[i]) as u16);
    j
}

/// A point of a slot is that of a pixel that the slot draws.
proof fn lemma_member_drawn<M: Metric>(
    metric: &M,
    packs: Seq<[u8; 8]>,
    k: int,
    r: QuantResult,
    points: Vec<Point>,
    bucket_of: Seq<usize>,
    j: int,
) -> (i: int)
    requires
        is_quantized_by(metric, packs, k, r, points, bucket_of),
        first_slot(packs) < k <= 0x1_0000,
        0 <= j < points@.len(),
    ensures
        is_drawn_by(packs, r.indices@, bucket_of[j] as int, i),
        texel::key(packs[i]) == visible_keys(packs)[j],
{
    let keys = visible_keys(packs);
    lemma_visible_keys(packs);
    assert(keys.contains(keys[j]));
    let i = choose|i: int|
        0 <= i < packs.len() && !texel::transparent(#[trigger] packs[i]) && texel::key(packs[i])
            == keys[j];
    let p = lemma_pixel_point(metric, packs, k, r, points, bucket_of, i);
    assert(p == j);
    i
}

/// The members of a slot are the points of the pixels that it draws.
proof fn lemma_members_drawn<M: Metric>(
    metric: &M,
    packs: Seq<[u8; 8]>,
    k: int,
    r: QuantResult,
    points: Vec<Point>,
    bucket_of: Seq<usize>,
    slot: int,
    members: Seq<usize>,
)
    requires
        is_quantized_by(metric, packs, k, r, points, bucket_of),
        first_slot(packs) < k <= 0x1_0000,
        first_slot(packs) <= slot < r.palette@.len(),
        members == members_of(bucket_of, slot, points@.len()),
    ensures
        are_points_of(packs, r.indices@, slot, points@, members),
{
    let n = points@.len();
    assert(points.len() == n);
    lemma_members(bucket_of, slot, n);
    lemma_members_are(bucket_of, slot, n);
    assert(members.len() > 0) by {
        lemma_members_hold(bucket_of, slot, n);
        lemma_assignment_slots(
            metric,
            &points,
            first_slot(packs),
            k,
            bucket_of,
            r.palette@.len() as int,
        );
        assert(has_point(bucket_of, slot));
    }
    assert forall|m: int| 0 <= m < members.len() implies is_drawn_point(
        packs,
        r.indices@,
        slot,
        points@[#[trigger] members[m] as int],
    ) by {
        let j = members[m] as int;
        assert(members.contains(members[m]));
        let i = lemma_member_drawn(metric, packs, k, r, points, bucket_of, j);
        lemma_point_of(packs, points@, j, i);
    }
    assert forall|i: int| #[trigger] is_drawn_by(packs, r.indices@, slot, i) implies lists_point_of(
        packs,
        points@,
        members,
        i,
    ) by {
        let j = lemma_pixel_point(metric, packs, k, r, points, bucket_of, i);
        lemma_point_of(packs, points@, j, i);
        assert(members.contains(j as usize));
        let m = choose|m: int| 0 <= m < members.len() && members[m] == j as usize;
        assert(is_point_of(points@[members[m] as int], packs[i], packs));
    }
}

/// The fields of a palette entry are, dimension by dimension, the levels of the
/// centre that the metric gives for the pixels with that index, each pixel with its
/// own fields for its levels.
pub proof fn law_entries_are_centres<M: Metric>(
    metric: &M,
    packs: Seq<[u8; 8]>,
    k: int,
    r: QuantResult,
    slot: int,
)
    requires
        is_quantized(metric, packs, k, r),
        0 <= k <= 0x1_0000,
        first_slot(packs) <= slot < r.palette@.len(),
    ensures
        exists|points: Vec<Point>, members: Vec<usize>, levels: [u32; 9]|
            {
                &&& #[trigger] call_ensures(M::centroid, (metric, &points, &members), levels)
                &&& are_points_of(packs, r.indices@, slot, points@, members@)
                &&& cut::are_levels(
                    texel::lower(r.palette@[slot]),
                    texel::upper(r.palette@[slot]),
                    cut::cut_levels(levels@),
                )
            },
{
    let (points, bucket_of) = choose|points: Vec<Point>, bucket_of: Seq<usize>| #[trigger]
        is_quantized_by(metric, packs, k, r, points, bucket_of);
    let entry = r.palette@[slot];
    assert(is_entry(metric, &points, bucket_of, slot, entry));
    let (members, levels, flags) = choose|members: Vec<usize>, levels: [u32; 9], flags: u32|
        {
            &&& members@ == members_of(bucket_of, slot, points@.len())
            &&& #[trigger] call_ensures(M::centroid, (metric, &points, &members), levels)
            &&& #[trigger] is_vote_winner(points@, members@, flags)
            &&& texel::lower(entry) == texel::packed_lower(levels@, flags)
            &&& texel::upper(entry) == texel::packed_upper(levels@)
        };
    assert(k > first_slot(packs));
    lemma_members_drawn(metric, packs, k, r, points, bucket_of, slot, members@);
    cut::lemma_words_have_the_levels(
        levels@,
        flags,
        texel::lower(entry),
        texel::upper(entry),
    );
}

/// The centre of points with the same levels has these levels.
pub open spec fn keeps_equal<M: Metric>(metric: &M) -> bool {
    forall|points: &Vec<Point>, members: &Vec<usize>, levels: [u32; 9], d: int|
        #![trigger call_ensures(M::centroid, (metric, points, members), levels), levels@[d]]
        call_ensures(M::centroid, (metric, points, members), levels) && members@.len() > 0
            && cut::within(members@, points@.len() as int) && 0 <= d < 9 && (forall|m: int|
            0 <= m < members@.len() ==> (#[trigger] points@[members@[m] as int]).levels@
                == points@[members@[0] as int].levels@) ==> levels@[d]
            == points@[members@[0] as int].levels@[d]
}

/// No other visible pack has the fields of `pack` and other flags.
pub open spec fn flags_are_settled(packs: Seq<[u8; 8]>, pack: [u8; 8]) -> bool {
    forall|j: int|
        0 <= j < packs.len() && !texel::transparent(#[trigger] packs[j]) && texel::upper(packs[j])
            == texel::upper(pack) && texel::lower(packs[j]) << 4 == texel::lower(pack) << 4
            ==> texel::lower(packs[j]) == texel::lower(pack)
}

/// Nobody votes for flags that no member has.
proof fn lemma_no_votes(points: Seq<Point>, members: Seq<usize>, f: u32, g: u32)
    requires
        forall|m: int|
            0 <= m < members.len() ==> (#[trigger] points[members[m] as int]).flags == f
                && points[members[m] as int].count > 0,
        f != g,
    ensures
        votes(points, members, g) == 0,
        members.len() > 0 ==> votes(points, members, f) > 0,
    decreases members.len(),
{
    if members.len() > 0 {
        let rest = members.drop_last();
        assert forall|m: int| 0 <= m < rest.len() implies (#[trigger] points[rest[m] as int]).flags
            == f && points[rest[m] as int].count > 0 by {
            assert(rest[m] == members[m]);
        }
        lemma_no_votes(points, rest, f, g);
        assert(members[members.len() - 1] == members.last());
    }
}

/// Words with the same fields differ in the flags at most.
proof fn lemma_same_fields(a: u32, b: u32, x: u32, y: u32)
    by (bit_vector)
    requires
        texel::field(a, 0, 31) == texel::field(b, 0, 31),
        texel::field(a, 5, 31) == texel::field(b, 5, 31),
        texel::field(a, 10, 31) == texel::field(b, 10, 31),
        texel::field(a, 15, 31) == texel::field(b, 15, 31),
        texel::field(a, 20, 15) == texel::field(b, 20, 15),
        texel::field(a, 24, 15) == texel::field(b, 24, 15),
        texel::field(x, 0, 0xfff) == texel::field(y, 0, 0xfff),
        texel::field(x, 12, 0xfff) == texel::field(y, 12, 0xfff),
        texel::field(x, 24, 0xff) == texel::field(y, 24, 0xff),
    ensures
        x == y,
        a << 4 == b << 4,
        texel::field(a, 28, 15) == texel::field(b, 28, 15) ==> a == b,
{
}

/// The fields of a word are no larger than their bits.
proof fn lemma_field_bounds(w: u32)
    by (bit_vector)
    ensures
        texel::field(w, 0, 31) < 32,
        texel::field(w, 5, 31) < 32,
        texel::field(w, 10, 31) < 32,
        texel::field(w, 15, 31) < 32,
        texel::field(w, 20, 15) < 16,
        texel::field(w, 24, 15) < 16,
        texel::field(w, 28, 15) < 16,
        texel::field(w, 0, 0xfff) < 0x1000,
        texel::field(w, 12, 0xfff) < 0x1000,
        texel::field(w, 24, 0xff) < 0x100,
{
}

/// The levels of a pack are within their fields, so that cutting leaves them.
proof fn lemma_levels_uncut(lo: u32, hi: u32, levels: Seq<u32>)
    requires
        cut::are_levels(lo, hi, levels),
    ensures
        cut::cut_levels(levels) == levels,
{
    lemma_field_bounds(lo);
    lemma_field_bounds(hi);
    assert(cut::cut_levels(levels) =~= levels);
}

/// Points in one slot have the same levels where there are slots enough.
proof fn lemma_slot_uniform<M: Metric>(
    metric: &M,
    points: &Vec<Point>,
    first: int,
    k: int,
    bucket_of: Seq<usize>,
    used: int,
    x: int,
    y: int,
)
    requires
        cut::sees_spread(metric),
        0 <= first,
        first + points@.len() <= k,
        is_assignment(metric, points, first, k, bucket_of, used),
        0 <= x < points@.len(),
        0 <= y < points@.len(),
        bucket_of[x] == bucket_of[y],
    ensures
        points@[x].levels@ == points@[y].levels@,
{
    let n = points@.len();
    let list = all_indices(n);
    assert(points.len() == n);
    let buckets = choose|buckets: Seq<Seq<usize>>|
        {
            &&& #[trigger] cut::is_cut(metric, points, list, (k - first) as nat, buckets)
            &&& used == first + buckets.len()
            &&& cut::numbers_buckets(bucket_of, first, buckets)
        };
    cut::lemma_cut_partitions(metric, points, list, (k - first) as nat, buckets);
    assert(list[x] == x as usize && list[y] == y as usize);
    assert(list.contains(x as usize) && list.contains(y as usize));
    let a = choose|b: int| 0 <= b < buckets.len() && #[trigger] buckets[b].contains(x as usize);
    let b = choose|b: int| 0 <= b < buckets.len() && #[trigger] buckets[b].contains(y as usize);
    let i = choose|i: int| 0 <= i < buckets[a].len() && buckets[a][i] == x as usize;
    let j = choose|j: int| 0 <= j < buckets[b].len() && buckets[b][j] == y as usize;
    assert(bucket_of[buckets[a][i] as int] == first + a);
    assert(bucket_of[buckets[b][j] as int] == first + b);
    cut::law_enough_buckets_tell_levels_apart(
        metric,
        points,
        list,
        (k - first) as nat,
        buckets,
        a,
        x as usize,
        y as usize,
    );
}

/// The centre of the points in one slot has their levels where there are slots enough.
proof fn lemma_slot_centre<M: Metric>(
    metric: &M,
    points: &Vec<Point>,
    first: int,
    k: int,
    bucket_of: Seq<usize>,
    used: int,
    j: int,
    members: Vec<usize>,
    levels: [u32; 9],
)
    requires
        cut::sees_spread(metric),
        keeps_equal(metric),
        0 <= first,
        first + points@.len() <= k,
        is_assignment(metric, points, first, k, bucket_of, used),
        0 <= j < points@.len(),
        members@ == members_of(bucket_of, bucket_of[j] as int, points@.len()),
        call_ensures(M::centroid, (metric, points, &members), levels),
    ensures
        levels@ == points@[j].levels@,
        forall|m: int|
            0 <= m < members@.len() ==> (#[trigger] points@[members@[m] as int]).levels@
                == points@[j].levels@,
{
    let n = points@.len();
    let own = points@[j].levels@;
    assert(points.len() == n);
    lemma_members(bucket_of, bucket_of[j] as int, n);
    lemma_members_are(bucket_of, bucket_of[j] as int, n);
    assert(members@.contains(j as usize));
    assert forall|m: int| 0 <= m < members@.len() implies (#[trigger] points@[members@[m] as int]).levels@
        == own by {
        assert(members@.contains(members@[m]));
        lemma_slot_uniform(
            metric,
            points,
            first,
            k,
            bucket_of,
            used,
            members@[m] as int,
            j,
        );
    }
    assert(points@[members@[0] as int].levels@ == own);
    assert forall|d: int| 0 <= d < 9 implies #[trigger] levels@[d] == own[d] by {}
    assert(levels@ =~= own);
}

/// A point with the levels of a pack has its flags where these are settled.
proof fn lemma_settled_point(
    packs: Seq<[u8; 8]>,
    indices: Seq<u16>,
    slot: int,
    p: Point,
    i: int,
)
    requires
        is_drawn_point(packs, indices, slot, p),
        flags_are_settled(packs, packs[i]),
        cut::are_levels(texel::lower(packs[i]), texel::upper(packs[i]), p.levels@),
    ensures
        p.flags == texel::field(texel::lower(packs[i]), 28, 15),
        p.count > 0,
{
    reveal(is_point_of);
    let e = choose|e: int| #[trigger]
        is_drawn_by(packs, indices, slot, e) && is_point_of(p, packs[e], packs);
    lemma_same_fields(
        texel::lower(packs[e]),
        texel::lower(packs[i]),
        texel::upper(packs[e]),
        texel::upper(packs[i]),
    );
    lemma_found(packs, e);
}

/// The flags that all members have are those that win.
proof fn lemma_settled_flags(
    packs: Seq<[u8; 8]>,
    indices: Seq<u16>,
    slot: int,
    points: Seq<Point>,
    members: Seq<usize>,
    flags: u32,
    i: int,
)
    requires
        are_points_of(packs, indices, slot, points, members),
        is_vote_winner(points, members, flags),
        flags_are_settled(packs, packs[i]),
        0 <= i < packs.len(),
        forall|m: int|
            0 <= m < members.len() ==> cut::are_levels(
                texel::lower(packs[i]),
                texel::upper(packs[i]),
                (#[trigger] points[members[m] as int]).levels@,
            ),
    ensures
        flags == texel::field(texel::lower(packs[i]), 28, 15),
{
    let f = texel::field(texel::lower(packs[i]), 28, 15);
    lemma_field_bounds(texel::lower(packs[i]));
    assert forall|m: int| 0 <= m < members.len() implies (#[trigger] points[members[m] as int]).flags
        == f && points[members[m] as int].count > 0 by {
        assert(is_drawn_point(packs, indices, slot, points[members[m] as int]));
        lemma_settled_point(packs, indices, slot, points[members[m] as int], i);
    }
    if flags != f {
        lemma_no_votes(points, members, f, flags);
        assert(votes(points, members, f) <= votes(points, members, flags));
    }
}

/// Where the centre of equal points is that point, and there are as many entries as
/// distinct visible packs, the entry at a pixel's index has the pixel's own fields; and
/// where no two visible packs differ in their flags alone, it is the pixel's own pack.
pub proof fn law_enough_entries_keep_every_pack<M: Metric>(
    metric: &M,
    packs: Seq<[u8; 8]>,
    k: int,
    r: QuantResult,
    i: int,
)
    requires
        cut::sees_spread(metric),
        keeps_equal(metric),
        is_quantized(metric, packs, k, r),
        first_slot(packs) + visible_keys(packs).len() <= k <= 0x1_0000,
        0 <= i < packs.len(),
        !texel::transparent(packs[i]),
    ensures
        r.indices@[i] < r.palette@.len(),
        ({
            let entry = r.palette@[r.indices@[i] as int];
            &&& texel::upper(entry) == texel::upper(packs[i])
            &&& texel::lower(entry) << 4 == texel::lower(packs[i]) << 4
            &&& flags_are_settled(packs, packs[i]) ==> entry@ == packs[i]@
        }),
{
    lemma_visible_keys(packs);
    assert(visible_keys(packs).contains(texel::key(packs[i])));
    assert(visible_keys(packs).len() > 0);
    let (points, bucket_of) = choose|points: Vec<Point>, bucket_of: Seq<usize>| #[trigger]
        is_quantized_by(metric, packs, k, r, points, bucket_of);
    let j = lemma_pixel_point(metric, packs, k, r, points, bucket_of, i);
    let slot = r.indices@[i] as int;
    let entry = r.palette@[slot];
    assert(is_entry(metric, &points, bucket_of, slot, entry));
    let (members, levels, flags) = choose|members: Vec<usize>, levels: [u32; 9], flags: u32|
        {
            &&& members@ == members_of(bucket_of, slot, points@.len())
            &&& #[trigger] call_ensures(M::centroid, (metric, &points, &members), levels)
            &&& #[trigger] is_vote_winner(points@, members@, flags)
            &&& texel::lower(entry) == texel::packed_lower(levels@, flags)
            &&& texel::upper(entry) == texel::packed_upper(levels@)
        };
    let (lo, hi) = (texel::lower(packs[i]), texel::upper(packs[i]));
    lemma_slot_centre(
        metric,
        &points,
        first_slot(packs),
        k,
        bucket_of,
        r.palette@.len() as int,
        j,
        members,
        levels,
    );
    assert(cut::are_levels(lo, hi, levels@)) by {
        lemma_point_of(packs, points@, j, i);
        reveal(is_point_of);
    }
    lemma_levels_uncut(lo, hi, levels@);
    lemma_own_fields(levels@, flags, lo, hi, entry);
    if flags_are_settled(packs, packs[i]) {
        lemma_members_drawn(metric, packs, k, r, points, bucket_of, slot, members@);
        lemma_settled_flags(packs, r.indices@, slot, points@, members@, flags, i);
        lemma_same_words(entry, packs[i]);
    }
}

/// An entry with the levels of a pack has its fields.
proof fn lemma_own_fields(levels: Seq<u32>, flags: u32, lo: u32, hi: u32, entry: [u8; 8])
    requires
        cut::are_levels(lo, hi, levels),
        cut::cut_levels(levels) == levels,
        flags < 16,
        texel::lower(entry) == texel::packed_lower(levels, flags),
        texel::upper(entry) == texel::packed_upper(levels),
    ensures
        texel::upper(entry) == hi,
        texel::lower(entry) << 4 == lo << 4,
        flags == texel::field(lo, 28, 15) ==> texel::lower(entry) == lo,
{
    let (a, b) = (texel::lower(entry), texel::upper(entry));
    cut::lemma_words_have_the_levels(levels, flags, a, b);
    lemma_same_fields(a, lo, b, hi);
}

/// Packs with the same words have the same bytes.
proof fn lemma_same_words(a: [u8; 8], b: [u8; 8])
    requires
        texel::lower(a) == texel::lower(b),
        texel::upper(a) == texel::upper(b),
    ensures
        a@ == b@,
{
    texel::law_key_tells_packs_apart(a, b);
}

/// A pack occurs where it stands.
proof fn lemma_found(packs: Seq<[u8; 8]>, e: int)
    requires
        0 <= e < packs.len(),
    ensures
        packs.filter(|other: [u8; 8]| other@ == packs[e]@).len() > 0,
{
    let f = |other: [u8; 8]| other@ == packs[e]@;
    packs.lemma_filter_contains_rev(f, packs[e]);
    assert(packs.contains(packs[e]));
    assert(packs.filter(f).contains(packs[e]));
}

/// How many of the first `n` pixels are such.
pub open spec fn count_pixels(n: nat, such: spec_fn(int) -> bool) -> nat
    decreases n,
{
    if n == 0 {
        0
    } else {
        count_pixels((n - 1) as nat, such) + if such(n - 1) {
            1nat
        } else {
            0nat
        }
    }
}

/// How many visible pixels with the index `slot` have the flags `f`.
pub open spec fn pixels_with_flags(
    packs: Seq<[u8; 8]>,
    indices: Seq<u16>,
    slot: int,
    f: u32,
) -> nat {
    count_pixels(
        packs.len(),
        |i: int|
            is_drawn_by(packs, indices, slot, i) && texel::field(texel::lower(packs[i]), 28, 15)
                == f,
    )
}

/// Pixels of two kinds that exclude each other are counted together.
proof fn lemma_count_apart(
    n: nat,
    all: spec_fn(int) -> bool,
    a: spec_fn(int) -> bool,
    b: spec_fn(int) -> bool,
)
    requires
        forall|i: int| 0 <= i < n ==> (#[trigger] all(i) <==> a(i) || b(i)),
        forall|i: int| 0 <= i < n ==> !(#[trigger] a(i) && b(i)),
    ensures
        count_pixels(n, all) == count_pixels(n, a) + count_pixels(n, b),
    decreases n,
{
    if n > 0 {
        lemma_count_apart((n - 1) as nat, all, a, b);
        let i = n - 1;
        assert(all(i) <==> a(i) || b(i));
        assert(!(a(i) && b(i)));
    }
}

/// The same pixels are counted alike.
proof fn lemma_count_same(n: nat, a: spec_fn(int) -> bool, b: spec_fn(int) -> bool)
    requires
        forall|i: int| 0 <= i < n ==> #[trigger] a(i) == b(i),
    ensures
        count_pixels(n, a) == count_pixels(n, b),
    decreases n,
{
    if n > 0 {
        lemma_count_same((n - 1) as nat, a, b);
        assert(a(n - 1) == b(n - 1));
    }
}

proof fn lemma_count_none(n: nat, a: spec_fn(int) -> bool)
    requires
        forall|i: int| 0 <= i < n ==> !#[trigger] a(i),
    ensures
        count_pixels(n, a) == 0,
    decreases n,
{
    if n > 0 {
        lemma_count_none((n - 1) as nat, a);
        assert(!a(n - 1));
    }
}

/// A pack occurs as often as pixels carry it.
proof fn lemma_count_key(packs: Seq<[u8; 8]>, k: u64)
    ensures
        occurrences(packs, k) == count_pixels(
            packs.len(),
            |i: int| texel::key(packs[i]) == k,
        ),
    decreases packs.len(),
{
    if packs.len() > 0 {
        let rest = packs.drop_last();
        let n = rest.len();
        lemma_count_key(rest, k);
        let a = |i: int| texel::key(packs[i]) == k;
        let b = |i: int| texel::key(rest[i]) == k;
        lemma_count_same(n, a, b);
        assert(packs[n as int] == packs.last());
    }
}

/// One of the listed points has the key of pixel `i` and the flags `f`.
spec fn is_vote(
    packs: Seq<[u8; 8]>,
    points: Seq<Point>,
    members: Seq<usize>,
    f: u32,
    i: int,
) -> bool {
    exists|m: int|
        0 <= m < members.len() && visible_keys(packs)[#[trigger] members[m] as int] == texel::key(
            packs[i],
        ) && points[members[m] as int].flags == f
}

/// The votes for flags are the pixels of the points that have them.
proof fn lemma_votes_are_pixels(
    packs: Seq<[u8; 8]>,
    points: Seq<Point>,
    members: Seq<usize>,
    f: u32,
)
    requires
        are_points(packs, points),
        cut::within(members, points.len() as int),
        members.no_duplicates(),
    ensures
        votes(points, members, f) == count_pixels(
            packs.len(),
            |i: int| is_vote(packs, points, members, f, i),
        ),
    decreases members.len(),
{
    let n = packs.len();
    let all = |i: int| is_vote(packs, points, members, f, i);
    if members.len() == 0 {
        lemma_count_none(n, all);
    } else {
        let rest = members.drop_last();
        let last = members.last() as int;
        let keys = visible_keys(packs);
        let before = |i: int| is_vote(packs, points, rest, f, i);
        assert forall|i: int| 0 <= i < rest.len() implies #[trigger] rest[i] < points.len() by {
            assert(rest[i] == members[i]);
        }
        lemma_votes_are_pixels(packs, points, rest, f);
        lemma_visible_keys(packs);
        assert(members[members.len() - 1] == members.last());
        if points[last].flags == f {
            let here = |i: int| texel::key(packs[i]) == keys[last];
            lemma_count_key(packs, keys[last]);
            assert forall|i: int| 0 <= i < n implies (#[trigger] all(i) <==> before(i) || here(
                i,
            )) by {
                lemma_vote_step(packs, points, members, f, i);
            }
            assert forall|i: int| 0 <= i < n implies !(#[trigger] before(i) && here(i)) by {
                if before(i) && here(i) {
                    let m = choose|m: int|
                        0 <= m < rest.len() && keys[#[trigger] rest[m] as int] == texel::key(
                            packs[i],
                        ) && points[rest[m] as int].flags == f;
                    assert(rest[m] == members[m]);
                    assert(keys[rest[m] as int] == keys[last]);
                }
            }
            lemma_count_apart(n, all, before, here);
        } else {
            assert forall|i: int| 0 <= i < n implies #[trigger] all(i) == before(i) by {
                lemma_vote_step(packs, points, members, f, i);
            }
            lemma_count_same(n, all, before);
        }
    }
}

proof fn lemma_vote_step(
    packs: Seq<[u8; 8]>,
    points: Seq<Point>,
    members: Seq<usize>,
    f: u32,
    i: int,
)
    requires
        members.len() > 0,
    ensures
        is_vote(packs, points, members, f, i) <==> is_vote(
            packs,
            points,
            members.drop_last(),
            f,
            i,
        ) || (visible_keys(packs)[members.last() as int] == texel::key(packs[i])
            && points[members.last() as int].flags == f),
{
    let rest = members.drop_last();
    let keys = visible_keys(packs);
    let n = members.len() - 1;
    if is_vote(packs, points, members, f, i) {
        let m = choose|m: int|
            0 <= m < members.len() && keys[#[trigger] members[m] as int] == texel::key(packs[i])
                && points[members[m] as int].flags == f;
        assert(m < n ==> rest[m] == members[m]);
    }
    if is_vote(packs, points, rest, f, i) {
        let m = choose|m: int|
            0 <= m < rest.len() && keys[#[trigger] rest[m] as int] == texel::key(packs[i])
                && points[rest[m] as int].flags == f;
        assert(rest[m] == members[m]);
    }
    if keys[members.last() as int] == texel::key(packs[i]) && points[members.last() as int].flags
        == f {
        assert(members[n] == members.last());
    }
}

/// The points in a bucket are listed once each.
proof fn lemma_members_once(bucket_of: Seq<usize>, id: int, n: nat)
    requires
        n <= bucket_of.len(),
        n <= usize::MAX,
    ensures
        members_of(bucket_of, id, n).no_duplicates(),
    decreases n,
{
    if n > 0 {
        let before = members_of(bucket_of, id, (n - 1) as nat);
        lemma_members_once(bucket_of, id, (n - 1) as nat);
        lemma_members(bucket_of, id, (n - 1) as nat);
    }
}

/// The votes in a slot are those of the pixels that it draws.
proof fn lemma_votes_drawn<M: Metric>(
    metric: &M,
    packs: Seq<[u8; 8]>,
    k: int,
    r: QuantResult,
    points: Vec<Point>,
    bucket_of: Seq<usize>,
    slot: int,
    f: u32,
)
    requires
        is_quantized_by(metric, packs, k, r, points, bucket_of),
        first_slot(packs) < k <= 0x1_0000,
    ensures
        votes(points@, members_of(bucket_of, slot, points@.len()), f) == pixels_with_flags(
            packs,
            r.indices@,
            slot,
            f,
        ),
{
    let n = points@.len();
    let members = members_of(bucket_of, slot, n);
    let keys = visible_keys(packs);
    assert(points.len() == n);
    lemma_members(bucket_of, slot, n);
    lemma_members_once(bucket_of, slot, n);
    lemma_members_are(bucket_of, slot, n);
    lemma_votes_are_pixels(packs, points@, members, f);
    let a = |i: int| is_vote(packs, points@, members, f, i);
    let b = |i: int|
        is_drawn_by(packs, r.indices@, slot, i) && texel::field(texel::lower(packs[i]), 28, 15)
            == f;
    assert forall|i: int| 0 <= i < packs.len() implies #[trigger] a(i) == b(i) by {
        lemma_vote_drawn(metric, packs, k, r, points, bucket_of, slot, f, members, i);
    }
    lemma_count_same(packs.len(), a, b);
}

proof fn lemma_vote_drawn<M: Metric>(
    metric: &M,
    packs: Seq<[u8; 8]>,
    k: int,
    r: QuantResult,
    points: Vec<Point>,
    bucket_of: Seq<usize>,
    slot: int,
    f: u32,
    members: Seq<usize>,
    i: int,
)
    requires
        is_quantized_by(metric, packs, k, r, points, bucket_of),
        first_slot(packs) < k <= 0x1_0000,
        forall|j: usize| #[trigger]
            members.contains(j) <==> j < points@.len() && bucket_of[j as int] == slot,
        0 <= i < packs.len(),
        points@.len() <= usize::MAX,
    ensures
        is_vote(packs, points@, members, f, i) <==> is_drawn_by(packs, r.indices@, slot, i)
            && texel::field(texel::lower(packs[i]), 28, 15) == f,
{
    let keys = visible_keys(packs);
    lemma_visible_keys(packs);
    if is_vote(packs, points@, members, f, i) {
        let m = choose|m: int|
            0 <= m < members.len() && keys[#[trigger] members[m] as int] == texel::key(packs[i])
                && points@[members[m] as int].flags == f;
        let j = members[m] as int;
        assert(members.contains(members[m]));
        assert(keys.contains(keys[j]));
        let e = choose|e: int|
            0 <= e < packs.len() && !texel::transparent(#[trigger] packs[e]) && texel::key(packs[e])
                == keys[j];
        texel::lemma_key_words(packs[e]);
        texel::lemma_key_words(packs[i]);
        let p = lemma_pixel_point(metric, packs, k, r, points, bucket_of, i);
        assert(p == j);
        lemma_point_flags(packs, points@, j, i);
    }
    if is_drawn_by(packs, r.indices@, slot, i) && texel::field(texel::lower(packs[i]), 28, 15)
        == f {
        let j = lemma_pixel_point(metric, packs, k, r, points, bucket_of, i);
        lemma_point_flags(packs, points@, j, i);
        assert(members.contains(j as usize));
        let m = choose|m: int| 0 <= m < members.len() && members[m] == j as usize;
        assert(keys[members[m] as int] == texel::key(packs[i]));
    }
}

proof fn lemma_point_flags(packs: Seq<[u8; 8]>, points: Seq<Point>, j: int, i: int)
    requires
        are_points(packs, points),
        0 <= j < points.len(),
        0 <= i < packs.len(),
        texel::key(packs[i]) == visible_keys(packs)[j],
    ensures
        points[j].flags == texel::field(texel::lower(packs[i]), 28, 15),
{
    lemma_point_of(packs, points, j, i);
    reveal(is_point_of);
}

proof fn lemma_entry_flags(levels: Seq<u32>, flags: u32, lo: u32)
    requires
        flags < 16,
        lo == texel::packed_lower(levels, flags),
    ensures
        texel::field(lo, 28, 15) == flags,
{
    cut::lemma_words_have_the_levels(levels, flags, lo, texel::packed_upper(levels));
}

/// The flags of a palette entry are those that most of the pixels with its index have,
/// and of flags that equally many have the lowest.
pub proof fn law_flags_are_those_of_most_pixels<M: Metric>(
    metric: &M,
    packs: Seq<[u8; 8]>,
    k: int,
    r: QuantResult,
    slot: int,
    g: u32,
)
    requires
        is_quantized(metric, packs, k, r),
        0 <= k <= 0x1_0000,
        first_slot(packs) <= slot < r.palette@.len(),
        g < 16,
    ensures
        ({
            let f = texel::field(texel::lower(r.palette@[slot]), 28, 15);
            &&& pixels_with_flags(packs, r.indices@, slot, g) <= pixels_with_flags(
                packs,
                r.indices@,
                slot,
                f,
            )
            &&& g < f ==> pixels_with_flags(packs, r.indices@, slot, g) < pixels_with_flags(
                packs,
                r.indices@,
                slot,
                f,
            )
        }),
{
    let (points, bucket_of) = choose|points: Vec<Point>, bucket_of: Seq<usize>| #[trigger]
        is_quantized_by(metric, packs, k, r, points, bucket_of);
    let entry = r.palette@[slot];
    assert(is_entry(metric, &points, bucket_of, slot, entry));
    let (members, levels, flags) = choose|members: Vec<usize>, levels: [u32; 9], flags: u32|
        {
            &&& members@ == members_of(bucket_of, slot, points@.len())
            &&& #[trigger] call_ensures(M::centroid, (metric, &points, &members), levels)
            &&& #[trigger] is_vote_winner(points@, members@, flags)
            &&& texel::lower(entry) == texel::packed_lower(levels@, flags)
            &&& texel::upper(entry) == texel::packed_upper(levels@)
        };
    assert(k > first_slot(packs));
    lemma_entry_flags(levels@, flags, texel::lower(entry));
    lemma_votes_drawn(metric, packs, k, r, points, bucket_of, slot, g);
    lemma_votes_drawn(metric, packs, k, r, points, bucket_of, slot, flags);
    assert(votes(points@, members@, g) <= votes(points@, members@, flags));
    if g < flags {
        assert(votes(points@, members@, g) < votes(points@, members@, flags));
    }
}

} // verus!
