//! The quantiser that keeps depth out of the palette.
//!
//! Pixels with the same colour and normal form a group. A group gets as many
//! slots of the palette as it has depth buckets in one tile; which slot a pixel
//! gets says how deep it is, by a table of depths per tile and slot.

use std::collections::HashMap;

use vstd::prelude::*;

use crate::bits;
use crate::quantize;
use crate::quantize::cut;
use crate::quantize::cut::unpack_levels;
use crate::quantize::group;
use crate::quantize::group::{pack_palette_entry_10s, Centroid, Group10s, Pixel};
use crate::quantize::is_alpha_zero;
use crate::quantize::merge;
use crate::quantize::merge::agglomerative_merge_10s;
use crate::texel;

verus! {

/// A palette without depth, an index per pixel, and a table of depths per tile.
pub struct QuantResult10s {
    /// The entries, laid out as `group::entry_word` says; the first is for what
    /// draws nothing.
    pub palette: Vec<u32>,
    /// One palette index per pixel.
    pub indices: Vec<u16>,
    /// The depth level of each slot, two per byte with the even slot low, for
    /// one tile after the other.
    pub depth_palette: Vec<u8>,
}

/// The bucket, out of 64, of a stored depth.
pub open spec fn bucket(stored: int) -> int {
    (stored * 63 + 127) / 255
}

/// The level, out of 16, of a stored depth.
pub open spec fn depth_level(stored: int) -> int {
    (stored * 15 + 127) / 255
}

/// Maps a stored depth byte onto a bucket from 0 to 63.
pub fn depth_bucket(stored_byte: u32) -> (b: u8)
    requires
        stored_byte <= 255,
    ensures
        b == bucket(stored_byte as int),
        b < 64,
{
    ((stored_byte * 63 + 127) / 255) as u8
}

/// What pixels of one group have in common: all but the depth.
pub open spec fn group_key(pack: [u8; 8]) -> u64 {
    (texel::lower(pack) + 0x1_0000_0000 * (texel::upper(pack) % 0x100_0000)) as u64
}

/// The depth byte of a pack.
pub open spec fn stored_depth(pack: [u8; 8]) -> int {
    texel::depth_byte(texel::upper(pack)) as int
}

/// `p` is pixel `p.index` of the image.
pub open spec fn is_pixel(packs: Seq<[u8; 8]>, tiles: Seq<u16>, p: Pixel) -> bool {
    &&& p.index < packs.len()
    &&& !texel::transparent(packs[p.index as int])
    &&& p.bucket == bucket(stored_depth(packs[p.index as int]))
    &&& p.tile == tiles[p.index as int]
}

/// The group keys of the first `n` pixels, each once, as they come up.
pub open spec fn group_keys(packs: Seq<[u8; 8]>, n: nat) -> Seq<u64>
    decreases n,
{
    if n == 0 {
        Seq::empty()
    } else {
        let before = group_keys(packs, (n - 1) as nat);
        let k = group_key(packs[n - 1]);
        if texel::transparent(packs[n - 1]) || before.contains(k) {
            before
        } else {
            before.push(k)
        }
    }
}

/// The visible pixels among the first `n` with the group key `k`.
pub open spec fn pixels_with(
    packs: Seq<[u8; 8]>,
    tiles: Seq<u16>,
    k: u64,
    n: nat,
) -> Seq<Pixel>
    decreases n,
{
    if n == 0 {
        Seq::empty()
    } else {
        let before = pixels_with(packs, tiles, k, (n - 1) as nat);
        let pack = packs[n - 1];
        if !texel::transparent(pack) && group_key(pack) == k {
            before.push(
                Pixel {
                    index: (n - 1) as usize,
                    bucket: bucket(stored_depth(pack)) as u8,
                    tile: tiles[n - 1],
                },
            )
        } else {
            before
        }
    }
}

/// `c` is the centre of `n` pixels with the group key `k`.
pub open spec fn is_centre<C: Centroid>(k: u64, n: nat, c: C) -> bool
    decreases n,
{
    let lo = texel::key_lower(k);
    if n == 0 {
        exists|levels: [u32; 9]| #[trigger]
            call_ensures(C::seed, (&levels,), c) && levels@ == cut::levels(lo, texel::key_upper(k))
    } else {
        exists|before: C|
            is_centre(k, (n - 1) as nat, before) && #[trigger] call_ensures(
                C::with_pixel,
                (&before, texel::alpha_level(lo)),
                c,
            )
    }
}

/// `g` is the group of the visible pixels with the group key `k`.
pub open spec fn is_group<C: Centroid>(
    packs: Seq<[u8; 8]>,
    tiles: Seq<u16>,
    n: nat,
    num_tiles: nat,
    k: u64,
    g: Group10s<C>,
) -> bool {
    &&& g.wf(num_tiles)
    &&& g.pixels@ == pixels_with(packs, tiles, k, n)
    &&& is_centre(k, g.pixels@.len(), g.centroid)
    &&& g.flags == texel::flag_bits(texel::key_lower(k))
}

/// `groups` are the groups of the image, one per group key.
pub open spec fn are_groups<C: Centroid>(
    packs: Seq<[u8; 8]>,
    tiles: Seq<u16>,
    num_tiles: nat,
    groups: Seq<Group10s<C>>,
) -> bool {
    let keys = group_keys(packs, packs.len());
    &&& groups.len() == keys.len()
    &&& forall|g: int|
        0 <= g < groups.len() ==> is_group(
            packs,
            tiles,
            packs.len(),
            num_tiles,
            keys[g],
            #[trigger] groups[g],
        )
}

/// The first slot of group `g`.
pub open spec fn first_slot<C>(groups: Seq<Group10s<C>>, g: int) -> nat {
    1 + merge::total_slots(merge::whole(groups), g as nat)
}

/// The slot of a pixel of group `g`.
pub open spec fn slot_of<C>(groups: Seq<Group10s<C>>, g: int, p: Pixel) -> nat {
    first_slot(groups, g) + bits::ones_below(groups[g].bitmap@[p.tile as int], p.bucket as nat)
}

/// The depth bytes of the visible pixels among the first `n` that are in tile
/// `t` and have the index `slot`, added up.
pub open spec fn depth_sum(
    packs: Seq<[u8; 8]>,
    tiles: Seq<u16>,
    indices: Seq<u16>,
    t: int,
    slot: int,
    n: nat,
) -> int
    decreases n,
{
    if n == 0 {
        0
    } else {
        depth_sum(packs, tiles, indices, t, slot, (n - 1) as nat) + if in_cell(
            packs,
            tiles,
            indices,
            t,
            slot,
            n - 1,
        ) {
            stored_depth(packs[n - 1])
        } else {
            0
        }
    }
}

/// The number of those pixels.
pub open spec fn depth_count(
    packs: Seq<[u8; 8]>,
    tiles: Seq<u16>,
    indices: Seq<u16>,
    t: int,
    slot: int,
    n: nat,
) -> nat
    decreases n,
{
    if n == 0 {
        0
    } else {
        depth_count(packs, tiles, indices, t, slot, (n - 1) as nat) + if in_cell(
            packs,
            tiles,
            indices,
            t,
            slot,
            n - 1,
        ) {
            1nat
        } else {
            0nat
        }
    }
}

/// Pixel `i` is visible, in tile `t`, and has the index `slot`.
pub open spec fn in_cell(
    packs: Seq<[u8; 8]>,
    tiles: Seq<u16>,
    indices: Seq<u16>,
    t: int,
    slot: int,
    i: int,
) -> bool {
    !texel::transparent(packs[i]) && tiles[i] == t && indices[i] == slot
}

/// The depth level of a cell of the table: that of the mean depth of its
/// pixels, and zero where it has none.
pub open spec fn cell_level(
    packs: Seq<[u8; 8]>,
    tiles: Seq<u16>,
    indices: Seq<u16>,
    t: int,
    slot: int,
) -> int {
    let sum = depth_sum(packs, tiles, indices, t, slot, packs.len());
    let count = depth_count(packs, tiles, indices, t, slot, packs.len());
    if count == 0 {
        0
    } else {
        depth_level(sum / count as int)
    }
}

/// The level that the table holds for tile `t` and `slot`, when each tile has
/// `stride` bytes.
pub open spec fn table_level(table: Seq<u8>, stride: int, t: int, slot: int) -> int {
    let byte = table[t * stride + slot / 2];
    if slot % 2 == 0 {
        byte as int % 16
    } else {
        byte as int / 16
    }
}

/// Each slot of group `g` holds its entry.
pub open spec fn holds_entry<C: Centroid>(
    groups: Seq<Group10s<C>>,
    palette: Seq<u32>,
    g: int,
) -> bool {
    exists|levels: [u32; 8]| #[trigger]
        call_ensures(C::levels, (&groups[g].centroid,), levels) && forall|slot: int|
            first_slot(groups, g) <= slot < first_slot(groups, g + 1) ==> #[trigger] palette[slot]
                == group::entry_word(levels@, groups[g].flags)
}

/// `r` is the palette, the indices and the depth table of the groups.
pub open spec fn is_layout<C: Centroid>(
    packs: Seq<[u8; 8]>,
    tiles: Seq<u16>,
    num_tiles: int,
    k: int,
    groups: Seq<Group10s<C>>,
    r: QuantResult10s,
) -> bool {
    &&& r.palette@.len() == k
    &&& r.palette@[0] == 0
    &&& forall|g: int| 0 <= g < groups.len() ==> #[trigger] holds_entry(groups, r.palette@, g)
    &&& forall|slot: int|
        first_slot(groups, groups.len() as int) <= slot < k ==> #[trigger] r.palette@[slot] == 0
    &&& r.indices@.len() == packs.len()
    &&& forall|g: int, j: int|
        0 <= g < groups.len() && 0 <= j < groups[g].pixels@.len() ==> {
            let p = #[trigger] groups[g].pixels@[j];
            r.indices@[p.index as int] == slot_of(groups, g, p)
        }
    &&& forall|i: int|
        0 <= i < packs.len() && texel::transparent(packs[i]) ==> #[trigger] r.indices@[i] == 0
    &&& r.depth_palette@.len() == num_tiles * (k / 2)
    &&& forall|t: int, slot: int|
        0 <= t < num_tiles && 0 <= slot < k ==> #[trigger] table_level(
            r.depth_palette@,
            k / 2,
            t,
            slot,
        ) == cell_level(packs, tiles, r.indices@, t, slot)
}

/// `r` is the quantisation of the packs to `k` slots; there is none where the
/// merged groups still take more slots than there are.
pub open spec fn is_quantized_10s<C: Centroid>(
    packs: Seq<[u8; 8]>,
    tiles: Seq<u16>,
    num_tiles: int,
    k: int,
    groups: Seq<Group10s<C>>,
    merged: Seq<Group10s<C>>,
    r: Option<QuantResult10s>,
) -> bool {
    &&& are_groups(packs, tiles, num_tiles as nat, groups)
    &&& merge::is_agglomerated(groups, k - 1, merged)
    &&& covers(packs, tiles, merged)
    &&& forall|g: int| 0 <= g < merged.len() ==> (#[trigger] merged[g]).wf(num_tiles as nat)
    &&& r is None <==> first_slot(merged, merged.len() as int) > k
    &&& r matches Some(q) ==> is_layout(packs, tiles, num_tiles, k, merged, q)
}

/// Pixel `j` of group `g` is pixel `i` of the image.
pub open spec fn stands_at<C>(groups: Seq<Group10s<C>>, g: int, j: int, i: int) -> bool {
    &&& 0 <= g < groups.len()
    &&& 0 <= j < groups[g].pixels@.len()
    &&& groups[g].pixels@[j].index == i
}

/// Every visible pixel is in exactly one group, once, and no other is in any.
pub open spec fn covers<C>(
    packs: Seq<[u8; 8]>,
    tiles: Seq<u16>,
    groups: Seq<Group10s<C>>,
) -> bool {
    &&& forall|g: int, j: int|
        0 <= g < groups.len() && 0 <= j < groups[g].pixels@.len() ==> is_pixel(
            packs,
            tiles,
            #[trigger] groups[g].pixels@[j],
        )
    &&& forall|i: int|
        0 <= i < packs.len() && !texel::transparent(#[trigger] packs[i]) ==> is_grouped(groups, i)
    &&& forall|g: int, j: int, h: int, l: int, i: int| #[trigger]
        stands_at(groups, g, j, i) && #[trigger] stands_at(groups, h, l, i) ==> g == h && j == l
}

/// Some group has pixel `i`.
pub open spec fn is_grouped<C>(groups: Seq<Group10s<C>>, i: int) -> bool {
    exists|g: int, j: int| #[trigger] stands_at(groups, g, j, i)
}

/// `g` is the group of key `k` among the first `n` pixels, its slots not yet counted.
spec fn is_growing<C: Centroid>(
    packs: Seq<[u8; 8]>,
    tiles: Seq<u16>,
    n: nat,
    num_tiles: nat,
    k: u64,
    g: Group10s<C>,
) -> bool {
    &&& g.bitmap@.len() == num_tiles
    &&& g.pixels@.len() > 0
    &&& forall|j: int|
        0 <= j < g.pixels@.len() ==> (#[trigger] g.pixels@[j]).tile < num_tiles
            && g.pixels@[j].bucket < 64
    &&& group::maps(g.bitmap@, g.pixels@)
    &&& g.pixels@ == pixels_with(packs, tiles, k, n)
    &&& is_centre(k, g.pixels@.len(), g.centroid)
    &&& g.flags == texel::flag_bits(texel::key_lower(k))
}

/// A group without pixels.
fn empty_group<C: Centroid>(num_tiles: usize, k: u64) -> (g: Group10s<C>)
    ensures
        g.bitmap@.len() == num_tiles,
        group::maps(g.bitmap@, g.pixels@),
        g.pixels@.len() == 0,
        is_centre(k, 0, g.centroid),
        g.flags == texel::flag_bits(texel::key_lower(k)),
{
    let lo: u32 = (k % 0x1_0000_0000) as u32;
    let hi: u32 = (k / 0x1_0000_0000) as u32;
    let bitmap: Vec<u64> = vec![0; num_tiles];
    let pixels: Vec<Pixel> = Vec::new();
    proof {
        assert forall|t: int, d: int| 0 <= t < num_tiles && 0 <= d < 64 implies #[trigger] bits::bit(
            bitmap@[t],
            d,
        ) == group::has_pixel(pixels@, t, d) by {
            bits::lemma_bit_zero(d);
        }
    }
    let levels: [u32; 9] = unpack_levels(lo, hi);
    let centroid: C = C::seed(&levels);
    assert(is_centre(k, 0, centroid));
    Group10s { bitmap, pixels, centroid, flags: lo / 0x1000_0000, cached_slots: 0 }
}

/// Puts one more pixel into a group.
fn add_pixel<C: Centroid>(g: &mut Group10s<C>, p: Pixel, alpha: u32)
    requires
        p.tile < old(g).bitmap@.len(),
        p.bucket < 64,
        group::maps(old(g).bitmap@, old(g).pixels@),
    ensures
        final(g).bitmap@.len() == old(g).bitmap@.len(),
        group::maps(final(g).bitmap@, final(g).pixels@),
        final(g).pixels@ == old(g).pixels@.push(p),
        call_ensures(C::with_pixel, (&old(g).centroid, alpha), final(g).centroid),
        final(g).flags == old(g).flags,
{
    let here: usize = p.tile as usize;
    let was: u64 = g.bitmap[here];
    let now: u64 = was | (1u64 << p.bucket);
    g.bitmap[here] = now;
    let centre: C = g.centroid.with_pixel(alpha);
    g.centroid = centre;
    g.pixels.push(p);
    proof {
        let before = old(g).pixels@;
        let after = g.pixels@;
        let b = p.bucket as u64;
        assert(1u64 << p.bucket == 1u64 << b);
        assert forall|t: int, d: int|
            0 <= t < g.bitmap@.len() && 0 <= d < 64 implies #[trigger] bits::bit(g.bitmap@[t], d)
            == group::has_pixel(after, t, d) by {
            bits::lemma_bit_or(was, 1u64 << b, d);
            bits::lemma_bit_single(b, d);
            assert(bits::bit(old(g).bitmap@[t], d) == group::has_pixel(before, t, d));
            if group::has_pixel(before, t, d) {
                let j = choose|j: int|
                    0 <= j < before.len() && (#[trigger] before[j]).tile == t && before[j].bucket
                        == d;
                assert(after[j] == before[j]);
            }
            assert(after[before.len() as int] == p);
            if group::has_pixel(after, t, d) && !(p.tile == t && p.bucket == d) {
                let j = choose|j: int|
                    0 <= j < after.len() && (#[trigger] after[j]).tile == t && after[j].bucket == d;
                assert(before[j] == after[j]);
            }
        }
    }
}

proof fn lemma_centre_step<C: Centroid>(k: u64, n: nat, before: C, c: C)
    requires
        is_centre(k, n, before),
        call_ensures(C::with_pixel, (&before, texel::alpha_level(texel::key_lower(k))), c),
    ensures
        is_centre(k, n + 1, c),
{
    assert((n + 1 - 1) as nat == n);
}

proof fn lemma_group_key_words(pack: [u8; 8])
    ensures
        texel::key_lower(group_key(pack)) == texel::lower(pack),
        texel::key_upper(group_key(pack)) == texel::upper(pack) % 0x100_0000,
{
    let lo = texel::lower(pack) as int;
    let hi = (texel::upper(pack) % 0x100_0000) as int;
    assert((lo + 0x1_0000_0000 * hi) % 0x1_0000_0000 == lo) by (nonlinear_arith)
        requires
            0 <= lo < 0x1_0000_0000,
    ;
    assert((lo + 0x1_0000_0000 * hi) / 0x1_0000_0000 == hi) by (nonlinear_arith)
        requires
            0 <= lo < 0x1_0000_0000,
    ;
}

proof fn lemma_no_pixels(packs: Seq<[u8; 8]>, tiles: Seq<u16>, k: u64, n: nat)
    requires
        n <= packs.len(),
        !group_keys(packs, n).contains(k),
    ensures
        pixels_with(packs, tiles, k, n).len() == 0,
    decreases n,
{
    if n > 0 {
        let before = group_keys(packs, (n - 1) as nat);
        let now = group_keys(packs, n);
        if before.contains(k) {
            let j = choose|j: int| 0 <= j < before.len() && before[j] == k;
            assert(now[j] == k);
        }
        lemma_no_pixels(packs, tiles, k, (n - 1) as nat);
        if !texel::transparent(packs[n - 1]) && group_key(packs[n - 1]) == k {
            assert(now[now.len() - 1] == k);
        }
    }
}

proof fn lemma_group_keys(packs: Seq<[u8; 8]>, n: nat)
    requires
        n <= packs.len(),
    ensures
        group_keys(packs, n).no_duplicates(),
        group_keys(packs, n).len() <= n,
        forall|i: int|
            0 <= i < n && !texel::transparent(#[trigger] packs[i]) ==> group_keys(
                packs,
                n,
            ).contains(group_key(packs[i])),
    decreases n,
{
    if n > 0 {
        lemma_group_keys(packs, (n - 1) as nat);
        let before = group_keys(packs, (n - 1) as nat);
        let now = group_keys(packs, n);
        assert forall|i: int| 0 <= i < n && !texel::transparent(
            #[trigger] packs[i],
        ) implies now.contains(group_key(packs[i])) by {
            if before.contains(group_key(packs[i])) {
                let j = choose|j: int| 0 <= j < before.len() && before[j] == group_key(packs[i]);
                assert(now[j] == group_key(packs[i]));
            } else {
                assert(now[now.len() - 1] == group_key(packs[i]));
            }
        }
    }
}

/// Every visible pixel is in a tile there is.
pub open spec fn tiles_fit(packs: Seq<[u8; 8]>, tiles: Seq<u16>, num_tiles: int) -> bool {
    forall|i: int|
        0 <= i < packs.len() && !texel::transparent(packs[i]) ==> #[trigger] tiles[i] < num_tiles
}

/// The groups of the image.
fn gather_groups<C: Centroid>(
    packs: &Vec<[u8; 8]>,
    tiles: &Vec<u16>,
    num_tiles: usize,
) -> (groups: Vec<Group10s<C>>)
    requires
        packs@.len() == tiles@.len(),
        tiles_fit(packs@, tiles@, num_tiles as int),
    ensures
        are_groups(packs@, tiles@, num_tiles as nat, groups@),
{
    broadcast use vstd::std_specs::hash::group_hash_axioms;

    let mut positions: HashMap<u64, usize> = HashMap::new();
    let mut groups: Vec<Group10s<C>> = Vec::new();
    let mut i: usize = 0;
    while i < packs.len()
        invariant
            i <= packs@.len(),
                packs@.len() == tiles@.len(),
            tiles_fit(packs@, tiles@, num_tiles as int),
            crate::quantize::finds(positions@, group_keys(packs@, i as nat)),
            groups@.len() == group_keys(packs@, i as nat).len(),
            forall|g: int|
                0 <= g < groups@.len() ==> is_growing(
                    packs@,
                    tiles@,
                    i as nat,
                    num_tiles as nat,
                    group_keys(packs@, i as nat)[g],
                    #[trigger] groups@[g],
                ),
        decreases packs@.len() - i,
    {
        broadcast use vstd::std_specs::hash::group_hash_axioms;

        let ghost keys = group_keys(packs@, i as nat);
        let ghost old_groups = groups@;
        let ghost pack = packs@[i as int];
        proof {
            lemma_group_keys(packs@, i as nat);
            lemma_group_keys(packs@, (i + 1) as nat);
        }
        if !is_alpha_zero(&packs[i]) {
            let lo: u32 = texel::lower_word(&packs[i]);
            let hi: u32 = texel::upper_word(&packs[i]);
            let key: u64 = lo as u64 + 0x1_0000_0000 * (hi % 0x100_0000) as u64;
            proof {
                lemma_group_key_words(pack);
            }
            let p: Pixel = Pixel {
                index: i,
                bucket: depth_bucket(hi / 0x100_0000),
                tile: tiles[i],
            };
            let found: Option<usize> = match positions.get(&key) {
                Some(j) => Some(*j),
                None => None,
            };
            let at: usize = match found {
                Some(j) => {
                    assert(keys[j as int] == key);
                    assert(keys.contains(key));
                    j
                },
                None => {
                    proof {
                        assert(!keys.contains(key));
                        lemma_no_pixels(packs@, tiles@, key, i as nat);
                    }
                    let fresh: usize = groups.len();
                    positions.insert(key, fresh);
                    groups.push(empty_group(num_tiles, key));
                    fresh
                },
            };
            let ghost ready = groups@[at as int];
            let ghost grown = groups@;
            assert(ready.pixels@ == pixels_with(packs@, tiles@, key, i as nat));
            add_pixel(&mut groups[at], p, (lo / 0x8000) % 32);
            proof {
                let now = group_keys(packs@, (i + 1) as nat);
                assert(now[at as int] == key);
                let g = groups@[at as int];
                lemma_centre_step(key, ready.pixels@.len(), ready.centroid, g.centroid);
                assert(is_growing(
                    packs@,
                    tiles@,
                    (i + 1) as nat,
                    num_tiles as nat,
                    key,
                    groups@[at as int],
                ));
                assert forall|h: int| 0 <= h < groups@.len() implies is_growing(
                    packs@,
                    tiles@,
                    (i + 1) as nat,
                    num_tiles as nat,
                    now[h],
                    #[trigger] groups@[h],
                ) by {
                    if h != at {
                        assert(groups@[h] == old_groups[h]);
                        assert(now[h] == keys[h]);
                        assert(now[h] != key);
                    }
                }
            }
        }
        i = i + 1;
    }
    let mut g: usize = 0;
    while g < groups.len()
        invariant
            g <= groups@.len(),
            groups@.len() == group_keys(packs@, packs@.len()).len(),
            forall|h: int|
                0 <= h < groups@.len() ==> is_growing(
                    packs@,
                    tiles@,
                    packs@.len(),
                    num_tiles as nat,
                    group_keys(packs@, packs@.len())[h],
                    #[trigger] groups@[h],
                ),
            forall|h: int|
                0 <= h < g ==> (#[trigger] groups@[h]).cached_slots == group::slots(
                    groups@[h].bitmap@,
                ),
        decreases groups@.len() - g,
    {
        groups[g].recompute_slots();
        g = g + 1;
    }
    groups
}

proof fn lemma_pixels_with(packs: Seq<[u8; 8]>, tiles: Seq<u16>, k: u64, n: nat)
    requires
        n <= packs.len(),
        n <= usize::MAX,
    ensures
        forall|j: int|
            0 <= j < pixels_with(packs, tiles, k, n).len() ==> {
                let p = #[trigger] pixels_with(packs, tiles, k, n)[j];
                &&& p.index < n
                &&& is_pixel(packs, tiles, p)
                &&& group_key(packs[p.index as int]) == k
            },
        forall|j: int, l: int|
            0 <= j < l < pixels_with(packs, tiles, k, n).len() ==> (#[trigger] pixels_with(
                packs,
                tiles,
                k,
                n,
            )[j]).index < (#[trigger] pixels_with(packs, tiles, k, n)[l]).index,
        forall|i: int|
            0 <= i < n && !texel::transparent(#[trigger] packs[i]) && group_key(packs[i]) == k
                ==> has_index(pixels_with(packs, tiles, k, n), i),
    decreases n,
{
    if n > 0 {
        lemma_pixels_with(packs, tiles, k, (n - 1) as nat);
        let before = pixels_with(packs, tiles, k, (n - 1) as nat);
        let now = pixels_with(packs, tiles, k, n);
        assert forall|i: int| 0 <= i < n && !texel::transparent(#[trigger] packs[i]) && group_key(
            packs[i],
        ) == k implies has_index(now, i) by {
            if i < n - 1 {
                assert(has_index(before, i));
                let j = choose|j: int| 0 <= j < before.len() && (#[trigger] before[j]).index == i;
                assert(now[j] == before[j]);
            } else {
                assert(now[now.len() - 1].index == i);
            }
        }
    }
}

/// One of the pixels is pixel `i` of the image.
spec fn has_index(pixels: Seq<Pixel>, i: int) -> bool {
    exists|j: int| 0 <= j < pixels.len() && (#[trigger] pixels[j]).index == i
}

proof fn lemma_groups_cover<C: Centroid>(
    packs: Seq<[u8; 8]>,
    tiles: Seq<u16>,
    num_tiles: nat,
    groups: Seq<Group10s<C>>,
)
    requires
        packs.len() <= usize::MAX,
        are_groups(packs, tiles, num_tiles, groups),
    ensures
        covers(packs, tiles, groups),
{
    let n = packs.len();
    let keys = group_keys(packs, n);
    lemma_group_keys(packs, n);
    assert forall|g: int, j: int| 0 <= g < groups.len() && 0 <= j < groups[g].pixels@.len() implies is_pixel(
    packs, tiles, #[trigger] groups[g].pixels@[j]) by {
        lemma_pixels_with(packs, tiles, keys[g], n);
        assert(is_group(packs, tiles, n, num_tiles, keys[g], groups[g]));
    }
    assert forall|i: int| 0 <= i < n && !texel::transparent(#[trigger] packs[i]) implies is_grouped(
        groups,
        i,
    ) by {
        let key = group_key(packs[i]);
        assert(keys.contains(key));
        let g = choose|g: int| 0 <= g < keys.len() && keys[g] == key;
        lemma_pixels_with(packs, tiles, key, n);
        assert(is_group(packs, tiles, n, num_tiles, keys[g], groups[g]));
        let pixels = groups[g].pixels@;
        assert(has_index(pixels, i));
        let j = choose|j: int| 0 <= j < pixels.len() && (#[trigger] pixels[j]).index == i;
        assert(stands_at(groups, g, j, i));
    }
    assert forall|g: int, j: int, h: int, l: int, i: int| #[trigger]
        stands_at(groups, g, j, i) && #[trigger] stands_at(groups, h, l, i) implies g == h && j
        == l by {
        lemma_pixels_with(packs, tiles, keys[g], n);
        lemma_pixels_with(packs, tiles, keys[h], n);
        assert(is_group(packs, tiles, n, num_tiles, keys[g], groups[g]));
        assert(is_group(packs, tiles, n, num_tiles, keys[h], groups[h]));
        let a = pixels_with(packs, tiles, keys[g], n);
        let b = pixels_with(packs, tiles, keys[h], n);
        assert(a[j].index == i && b[l].index == i);
        assert(keys[g] == keys[h]);
        assert(g == h);
        if j < l {
            assert(a[j].index < a[l].index);
        } else if l < j {
            assert(a[l].index < a[j].index);
        }
    }
}

proof fn lemma_coarsening_covers<C>(
    packs: Seq<[u8; 8]>,
    tiles: Seq<u16>,
    before: Seq<Group10s<C>>,
    after: Seq<Group10s<C>>,
)
    requires
        covers(packs, tiles, before),
        merge::is_coarsening(before, after),
    ensures
        covers(packs, tiles, after),
{
    let all = merge::whole(after);
    let (into, offset) = choose|into: Seq<int>, offset: Seq<int>| #[trigger]
        merge::is_regrouping(before, all, into, offset);
    assert forall|o: int, m: int| 0 <= o < after.len() && 0 <= m < after[o].pixels@.len() implies is_pixel(
    packs, tiles, #[trigger] after[o].pixels@[m]) by {
        lemma_origin(before, after, into, offset, o, m);
        let g = origin(before, into, offset, o, m);
        assert(is_pixel(packs, tiles, before[g].pixels@[m - offset[g]]));
    }
    assert forall|i: int| 0 <= i < packs.len() && !texel::transparent(
        #[trigger] packs[i],
    ) implies is_grouped(after, i) by {
        assert(is_grouped(before, i));
        let (g, j) = choose|g: int, j: int| #[trigger] stands_at(before, g, j, i);
        lemma_destination(before, after, into, offset, g, j);
        assert(stands_at(after, into[g], offset[g] + j, i));
    }
    assert forall|o: int, m: int, p: int, q: int, i: int| #[trigger]
        stands_at(after, o, m, i) && #[trigger] stands_at(after, p, q, i) implies o == p && m
        == q by {
        lemma_origin(before, after, into, offset, o, m);
        lemma_origin(before, after, into, offset, p, q);
        let g = origin(before, into, offset, o, m);
        let h = origin(before, into, offset, p, q);
        assert(stands_at(before, g, m - offset[g], i));
        assert(stands_at(before, h, q - offset[h], i));
    }
}

proof fn lemma_destination<C>(
    before: Seq<Group10s<C>>,
    after: Seq<Group10s<C>>,
    into: Seq<int>,
    offset: Seq<int>,
    g: int,
    j: int,
)
    requires
        merge::is_regrouping(before, merge::whole(after), into, offset),
        0 <= g < before.len(),
        0 <= j < before[g].pixels@.len(),
    ensures
        0 <= into[g] < after.len(),
        0 <= offset[g] + j < after[into[g]].pixels@.len(),
        after[into[g]].pixels@[offset[g] + j] == before[g].pixels@[j],
{
    let all = merge::whole(after);
    assert(0 <= into[g] < all.len());
    assert((all[into[g]]->0).pixels@[offset[g] + j] == before[g].pixels@[j]);
}

proof fn lemma_origin<C>(
    before: Seq<Group10s<C>>,
    after: Seq<Group10s<C>>,
    into: Seq<int>,
    offset: Seq<int>,
    o: int,
    m: int,
)
    requires
        merge::is_regrouping(before, merge::whole(after), into, offset),
        0 <= o < after.len(),
        0 <= m < after[o].pixels@.len(),
    ensures
        ({
            let g = origin(before, into, offset, o, m);
            &&& 0 <= g < before.len()
            &&& into[g] == o
            &&& 0 <= m - offset[g] < before[g].pixels@.len()
            &&& before[g].pixels@[m - offset[g]] == after[o].pixels@[m]
        }),
{
    let all = merge::whole(after);
    assert(all[o]->0 == after[o]);
    assert(merge::is_filled(before, into, offset, o, m));
    let g = origin(before, into, offset, o, m);
    assert(merge::came_from(before, into, offset, g, o, m));
    lemma_destination(before, after, into, offset, g, m - offset[g]);
}

/// The group that pixel `m` of group `o` comes from.
spec fn origin<C>(
    before: Seq<Group10s<C>>,
    into: Seq<int>,
    offset: Seq<int>,
    o: int,
    m: int,
) -> int {
    choose|g: int| #[trigger] merge::came_from(before, into, offset, g, o, m)
}

proof fn lemma_first_slot<C>(groups: Seq<Group10s<C>>, g: int, h: int)
    requires
        0 <= g <= h <= groups.len(),
    ensures
        first_slot(groups, g) <= first_slot(groups, h),
        g < h ==> first_slot(groups, g) + group::slots(groups[g].bitmap@) <= first_slot(groups, h),
        g < groups.len() ==> first_slot(groups, g + 1) == first_slot(groups, g) + group::slots(
            groups[g].bitmap@,
        ),
    decreases h - g,
{
    let all = merge::whole(groups);
    if g < groups.len() {
        assert(merge::cost(all[g]) == group::slots(groups[g].bitmap@));
        assert((g + 1) as nat - 1 == g);
    }
    if g < h {
        lemma_first_slot(groups, g + 1, h);
    }
}

/// The slot of a pixel is one of its group's.
proof fn lemma_slot_in_group<C>(groups: Seq<Group10s<C>>, tiles: nat, g: int, j: int)
    requires
        0 <= g < groups.len(),
        groups[g].wf(tiles),
        0 <= j < groups[g].pixels@.len(),
    ensures
        first_slot(groups, g) <= slot_of(groups, g, groups[g].pixels@[j]) < first_slot(
            groups,
            g + 1,
        ),
        bits::bit(
            groups[g].bitmap@[groups[g].pixels@[j].tile as int],
            groups[g].pixels@[j].bucket as int,
        ),
{
    let p = groups[g].pixels@[j];
    let map = groups[g].bitmap@[p.tile as int];
    assert(group::has_pixel(groups[g].pixels@, p.tile as int, p.bucket as int));
    assert(bits::bit(map, p.bucket as int));
    bits::lemma_rank(map, p.bucket as int, p.bucket as int);
    group::lemma_slots(groups[g].bitmap@);
    lemma_first_slot(groups, g, g + 1);
}

proof fn lemma_entry_kept<C: Centroid>(
    groups: Seq<Group10s<C>>,
    old_palette: Seq<u32>,
    palette: Seq<u32>,
    h: int,
    next: int,
)
    requires
        holds_entry(groups, old_palette, h),
        first_slot(groups, h + 1) <= next,
        forall|slot: int| 0 <= slot < next ==> #[trigger] palette[slot] == old_palette[slot],
    ensures
        holds_entry(groups, palette, h),
{
    let levels = choose|levels: [u32; 8]| #[trigger]
        call_ensures(C::levels, (&groups[h].centroid,), levels) && forall|slot: int|
            first_slot(groups, h) <= slot < first_slot(groups, h + 1) ==> #[trigger] old_palette[slot]
                == group::entry_word(levels@, groups[h].flags);
    let e = group::entry_word(levels@, groups[h].flags);
    assert(call_ensures(C::levels, (&groups[h].centroid,), levels));
    assert forall|slot: int|
        first_slot(groups, h) <= slot < first_slot(groups, h + 1) implies #[trigger] palette[slot]
        == e by {
        assert(old_palette[slot] == e);
    }
}

/// Fills the slots of group `g` with its entry.
fn fill_entry<C: Centroid>(groups: &Vec<Group10s<C>>, g: usize, next: usize, palette: &mut Vec<u32>)
    requires
        g < groups@.len(),
        groups@[g as int].cached_slots == group::slots(groups@[g as int].bitmap@),
        next == first_slot(groups@, g as int),
        first_slot(groups@, g + 1) <= old(palette)@.len(),
        forall|h: int| 0 <= h < g ==> #[trigger] holds_entry(groups@, old(palette)@, h),
    ensures
        final(palette)@.len() == old(palette)@.len(),
        forall|h: int| 0 <= h < g + 1 ==> #[trigger] holds_entry(groups@, final(palette)@, h),
        forall|slot: int|
            0 <= slot < next || first_slot(groups@, g + 1) <= slot < old(palette)@.len()
                ==> #[trigger] final(palette)@[slot] == old(palette)@[slot],
{
    let levels: [u32; 8] = groups[g].centroid.levels();
    let entry: u32 = pack_palette_entry_10s(&levels, groups[g].flags);
    let n: usize = groups[g].slot_count() as usize;
    proof {
        lemma_first_slot(groups@, g as int, g + 1);
    }
    let mut s: usize = 0;
    while s < n
        invariant
            s <= n,
            next + n <= palette@.len(),
            palette@.len() == old(palette)@.len(),
            forall|slot: int|
                0 <= slot < next || next + n <= slot < palette@.len() ==> #[trigger] palette@[slot]
                    == old(palette)@[slot],
            forall|slot: int| next <= slot < next + s ==> #[trigger] palette@[slot] == entry,
        decreases n - s,
    {
        assert(palette.len() == palette@.len());
        palette[next + s] = entry;
        s = s + 1;
    }
    proof {
        let gg = groups@[g as int];
        assert(call_ensures(C::levels, (&gg.centroid,), levels));
        assert(holds_entry(groups@, palette@, g as int));
        assert forall|h: int| 0 <= h < g implies #[trigger] holds_entry(groups@, palette@, h) by {
            lemma_first_slot(groups@, h + 1, g as int);
            lemma_entry_kept(groups@, old(palette)@, palette@, h, next as int);
        }
    }
}

/// Every pixel of the first `n` groups has its slot as its index.
spec fn indexed<C>(groups: Seq<Group10s<C>>, indices: Seq<u16>, n: int) -> bool {
    forall|h: int, l: int|
        0 <= h < n && 0 <= l < groups[h].pixels@.len() ==> {
            let p = #[trigger] groups[h].pixels@[l];
            indices[p.index as int] == slot_of(groups, h, p)
        }
}

/// Writes the indices of the pixels of group `g`.
fn fill_indices<C>(
    groups: &Vec<Group10s<C>>,
    g: usize,
    next: usize,
    indices: &mut Vec<u16>,
    Ghost(packs): Ghost<Seq<[u8; 8]>>,
    Ghost(tiles): Ghost<Seq<u16>>,
    Ghost(num_tiles): Ghost<nat>,
)
    requires
        g < groups@.len(),
        covers(packs, tiles, groups@),
        groups@[g as int].wf(num_tiles),
        next == first_slot(groups@, g as int),
        first_slot(groups@, g + 1) <= 0x1_0000,
        old(indices)@.len() == packs.len(),
        indexed(groups@, old(indices)@, g as int),
        forall|i: int|
            0 <= i < packs.len() && texel::transparent(packs[i]) ==> #[trigger] old(indices)@[i]
                == 0,
    ensures
        final(indices)@.len() == packs.len(),
        indexed(groups@, final(indices)@, g + 1),
        forall|i: int|
            0 <= i < packs.len() && texel::transparent(packs[i]) ==> #[trigger] final(indices)@[i]
                == 0,
{
    let ghost gs = groups@;
    let mut j: usize = 0;
    while j < groups[g].pixels.len()
        invariant
            g < gs.len(),
            gs == groups@,
            j <= gs[g as int].pixels@.len(),
            covers(packs, tiles, gs),
            gs[g as int].wf(num_tiles),
            next == first_slot(gs, g as int),
            first_slot(gs, g + 1) <= 0x1_0000,
            indices@.len() == packs.len(),
            indexed(gs, indices@, g as int),
            forall|l: int|
                0 <= l < j ==> {
                    let p = #[trigger] gs[g as int].pixels@[l];
                    indices@[p.index as int] == slot_of(gs, g as int, p)
                },
            forall|i: int|
                0 <= i < packs.len() && texel::transparent(packs[i]) ==> #[trigger] indices@[i]
                    == 0,
        decreases gs[g as int].pixels@.len() - j,
    {
        let p: Pixel = groups[g].pixels[j];
        let ghost was = indices@;
        proof {
            lemma_slot_in_group(gs, num_tiles, g as int, j as int);
            assert(is_pixel(packs, tiles, gs[g as int].pixels@[j as int]));
        }
        let rank: u32 = bits::rank(groups[g].bitmap[p.tile as usize], p.bucket);
        let slot: usize = next + rank as usize;
        indices[p.index] = slot as u16;
        proof {
            assert(stands_at(gs, g as int, j as int, p.index as int));
            assert forall|h: int, l: int|
                0 <= h < gs.len() && 0 <= l < gs[h].pixels@.len() && (h != g || l
                    != j) implies indices@[(#[trigger] gs[h].pixels@[l]).index as int]
                == was[gs[h].pixels@[l].index as int] by {
                let q = gs[h].pixels@[l];
                assert(is_pixel(packs, tiles, q));
                if q.index == p.index {
                    assert(stands_at(gs, h, l, p.index as int));
                }
            }
        }
        j = j + 1;
    }
}

proof fn lemma_cell(t: int, slot: int, k: int, tiles: int)
    requires
        0 <= t < tiles,
        0 <= slot < k,
    ensures
        0 <= t * k + slot < tiles * k,
        (t * k + slot) / k == t,
        (t * k + slot) % k == slot,
{
    vstd::arithmetic::div_mod::lemma_fundamental_div_mod_converse(t * k + slot, k, t, slot);
    assert(t * k + slot < tiles * k) by (nonlinear_arith)
        requires
            0 <= t < tiles,
            0 <= slot < k,
    ;
    assert(0 <= t * k) by (nonlinear_arith)
        requires
            0 <= t,
            0 <= k,
    ;
}

/// What one more pixel adds to the depths of a cell.
proof fn lemma_depth_step(
    packs: Seq<[u8; 8]>,
    tiles: Seq<u16>,
    indices: Seq<u16>,
    t: int,
    slot: int,
    n: nat,
)
    ensures
        depth_sum(packs, tiles, indices, t, slot, n + 1) == depth_sum(
            packs,
            tiles,
            indices,
            t,
            slot,
            n,
        ) + if in_cell(packs, tiles, indices, t, slot, n as int) {
            stored_depth(packs[n as int])
        } else {
            0
        },
        depth_count(packs, tiles, indices, t, slot, n + 1) == depth_count(
            packs,
            tiles,
            indices,
            t,
            slot,
            n,
        ) + if in_cell(packs, tiles, indices, t, slot, n as int) {
            1nat
        } else {
            0
        },
{
}

proof fn lemma_depth_bounds(
    packs: Seq<[u8; 8]>,
    tiles: Seq<u16>,
    indices: Seq<u16>,
    t: int,
    slot: int,
    n: nat,
)
    ensures
        0 <= depth_sum(packs, tiles, indices, t, slot, n) <= 255 * depth_count(
            packs,
            tiles,
            indices,
            t,
            slot,
            n,
        ),
        depth_count(packs, tiles, indices, t, slot, n) <= n,
    decreases n,
{
    if n > 0 {
        lemma_depth_bounds(packs, tiles, indices, t, slot, (n - 1) as nat);
    }
}

/// `sum` and `count` are the depths of the cell with number `c` among the first
/// `n` pixels.
#[verifier::opaque]
spec fn cell_holds(
    packs: Seq<[u8; 8]>,
    tiles: Seq<u16>,
    indices: Seq<u16>,
    k: int,
    n: nat,
    c: int,
    sum: int,
    count: int,
) -> bool {
    &&& sum == depth_sum(packs, tiles, indices, c / k, c % k, n)
    &&& count == depth_count(packs, tiles, indices, c / k, c % k, n)
}

/// A pixel adds its depth to its own cell, if it is visible.
proof fn lemma_cell_step(
    packs: Seq<[u8; 8]>,
    tiles: Seq<u16>,
    indices: Seq<u16>,
    num_tiles: int,
    k: int,
    n: nat,
    c: int,
    sum: int,
    count: int,
)
    requires
        cell_holds(packs, tiles, indices, k, n, c, sum, count),
        n < packs.len() == tiles.len() == indices.len(),
        !texel::transparent(packs[n as int]) ==> tiles[n as int] < num_tiles,
        indices[n as int] < k,
    ensures
        ({
            let adds = !texel::transparent(packs[n as int]) && c == tiles[n as int] * k
                + indices[n as int];
            cell_holds(
                packs,
                tiles,
                indices,
                k,
                n + 1,
                c,
                if adds {
                    sum + stored_depth(packs[n as int])
                } else {
                    sum
                },
                if adds {
                    count + 1
                } else {
                    count
                },
            )
        }),
{
    reveal(cell_holds);
    let t = tiles[n as int] as int;
    let slot = indices[n as int] as int;
    let tc = c / k;
    let sc = c % k;
    lemma_depth_step(packs, tiles, indices, tc, sc, n);
    if !texel::transparent(packs[n as int]) {
        lemma_cell(t, slot, k, num_tiles);
        vstd::arithmetic::div_mod::lemma_fundamental_div_mod(c, k);
        assert(k * tc == tc * k) by (nonlinear_arith);
        assert((tc == t && sc == slot) == (c == t * k + slot));
    }
}

/// A depth is a byte.
proof fn lemma_cell_bounds(
    packs: Seq<[u8; 8]>,
    tiles: Seq<u16>,
    indices: Seq<u16>,
    k: int,
    n: nat,
    c: int,
    sum: int,
    count: int,
)
    requires
        cell_holds(packs, tiles, indices, k, n, c, sum, count),
    ensures
        0 <= sum <= 255 * count,
        count <= n,
{
    reveal(cell_holds);
    lemma_depth_bounds(packs, tiles, indices, c / k, c % k, n);
}

/// The depth level of `count` depth bytes with the sum `sum`.
fn mean_level(sum: u128, count: u64) -> (level: u8)
    requires
        sum <= 255 * count,
    ensures
        level == if count == 0 {
            0
        } else {
            depth_level(sum as int / count as int)
        },
        level < 16,
{
    if count == 0 {
        return 0;
    }
    let mean: u128 = sum / count as u128;
    assert(mean <= 255) by (nonlinear_arith)
        requires
            mean == sum / count as u128,
            sum <= 255 * count,
            count > 0,
    ;
    ((mean * 15 + 127) / 255) as u8
}

/// The table of depths: for each tile and slot the mean depth of the pixels
/// that are in the tile and have the slot as their index.
fn depth_table(
    packs: &Vec<[u8; 8]>,
    tiles: &Vec<u16>,
    indices: &Vec<u16>,
    num_tiles: usize,
    k: usize,
) -> (table: Vec<u8>)
    requires
        packs@.len() == tiles@.len(),
        packs@.len() == indices@.len(),
        tiles_fit(packs@, tiles@, num_tiles as int),
        forall|i: int| 0 <= i < indices@.len() ==> #[trigger] indices@[i] < k,
        k % 2 == 0,
        num_tiles * k <= usize::MAX,
    ensures
        table@.len() == num_tiles * (k as int / 2),
        forall|t: int, slot: int|
            0 <= t < num_tiles && 0 <= slot < k ==> #[trigger] table_level(
                table@,
                k as int / 2,
                t,
                slot,
            ) == cell_level(packs@, tiles@, indices@, t, slot),
{
    let cells: usize = num_tiles * k;
    let mut sums: Vec<u128> = vec![0; cells];
    let mut counts: Vec<u64> = vec![0; cells];
    let mut i: usize = 0;
    proof {
        reveal(cell_holds);
    }
    while i < packs.len()
        invariant
            i <= packs@.len(),
            cells == num_tiles * k,
                packs@.len() == tiles@.len(),
            packs@.len() == indices@.len(),
            tiles_fit(packs@, tiles@, num_tiles as int),
            forall|j: int| 0 <= j < indices@.len() ==> #[trigger] indices@[j] < k,
            sums@.len() == cells,
            counts@.len() == cells,
            forall|c: int|
                0 <= c < cells ==> cell_holds(
                    packs@,
                    tiles@,
                    indices@,
                    k as int,
                    i as nat,
                    c,
                    #[trigger] sums@[c] as int,
                    counts@[c] as int,
                ),
        decreases packs@.len() - i,
    {
        let ghost old_sums = sums@;
        let ghost old_counts = counts@;
        if !is_alpha_zero(&packs[i]) {
            let t: usize = tiles[i] as usize;
            let slot: usize = indices[i] as usize;
            proof {
                lemma_cell(t as int, slot as int, k as int, num_tiles as int);
                assert(0 <= t * k <= t * k + slot);
            }
            let cell: usize = t * k + slot;
            let depth: u32 = texel::upper_word(&packs[i]) / 0x100_0000;
            let sum: u128 = sums[cell];
            let count: u64 = counts[cell];
            proof {
                lemma_cell_bounds(
                    packs@,
                    tiles@,
                    indices@,
                    k as int,
                    i as nat,
                    cell as int,
                    sum as int,
                    count as int,
                );
            }
            sums[cell] = sum + depth as u128;
            counts[cell] = count + 1;
        }
        proof {
            assert forall|c: int| 0 <= c < cells implies cell_holds(
                packs@,
                tiles@,
                indices@,
                k as int,
                (i + 1) as nat,
                c,
                #[trigger] sums@[c] as int,
                counts@[c] as int,
            ) by {
                lemma_cell_step(
                    packs@,
                    tiles@,
                    indices@,
                    num_tiles as int,
                    k as int,
                    i as nat,
                    c,
                    old_sums[c] as int,
                    old_counts[c] as int,
                );
            }
        }
        i = i + 1;
    }
    proof {
        assert(num_tiles * (k as int / 2) * 2 == num_tiles * k) by (nonlinear_arith)
            requires
                k % 2 == 0,
        ;
        assert(0 <= num_tiles * (k as int / 2)) by (nonlinear_arith);
        assert forall|c: int| 0 <= c < cells implies #[trigger] sums@[c] <= 255 * counts@[c] by {
            lemma_cell_bounds(
                packs@,
                tiles@,
                indices@,
                k as int,
                packs@.len(),
                c,
                sums@[c] as int,
                counts@[c] as int,
            );
        }
    }
    let bytes: usize = num_tiles * (k / 2);
    let mut table: Vec<u8> = Vec::new();
    while table.len() < bytes
        invariant
            table@.len() <= bytes,
            bytes * 2 == cells,
            cells == num_tiles * k,
            sums@.len() == cells,
            counts@.len() == cells,
            forall|c: int| 0 <= c < cells ==> #[trigger] sums@[c] <= 255 * counts@[c],
            forall|q: int|
                0 <= q < table@.len() ==> (#[trigger] table@[q]) as int == packed_level(
                    sums@,
                    counts@,
                    2 * q,
                ) + 16 * packed_level(sums@, counts@, 2 * q + 1),
            forall|q: int|
                0 <= q < table@.len() ==> 0 <= #[trigger] packed_level(sums@, counts@, 2 * q) < 16,
        decreases bytes - table@.len(),
    {
        let q: usize = table.len();
        let low: u8 = mean_level(sums[2 * q], counts[2 * q]);
        let high: u8 = mean_level(sums[2 * q + 1], counts[2 * q + 1]);
        table.push(low + 16 * high);
    }
    proof {
        let stride = k as int / 2;
        assert forall|t: int, slot: int|
            0 <= t < num_tiles && 0 <= slot < k implies #[trigger] table_level(
            table@,
            stride,
            t,
            slot,
        ) == cell_level(packs@, tiles@, indices@, t, slot) by {
            let q = t * stride + slot / 2;
            let c = t * k + slot;
            lemma_cell(t, slot, k as int, num_tiles as int);
            lemma_cell(t, slot / 2, stride, num_tiles as int);
            assert(t * stride * 2 == t * k) by (nonlinear_arith)
                requires
                    stride * 2 == k,
            ;
            assert(2 * q + slot % 2 == c);
            assert(0 <= q < table@.len());
            assert(sums@[c] == depth_sum(packs@, tiles@, indices@, t, slot, packs@.len()));
            assert(counts@[c] == depth_count(packs@, tiles@, indices@, t, slot, packs@.len()));
            assert(packed_level(sums@, counts@, c) == cell_level(
                packs@,
                tiles@,
                indices@,
                t,
                slot,
            ));
            assert(table@[q] as int == packed_level(sums@, counts@, 2 * q) + 16 * packed_level(
                sums@,
                counts@,
                2 * q + 1,
            ));
            assert(0 <= packed_level(sums@, counts@, 2 * q) < 16);
        }
    }
    table
}

spec fn packed_level(sums: Seq<u128>, counts: Seq<u64>, c: int) -> int {
    if counts[c] == 0 {
        0
    } else {
        depth_level(sums[c] as int / counts[c] as int)
    }
}

/// Palette, indices and depth table of groups that are done merging.
fn lay_out<C: Centroid>(
    packs: &Vec<[u8; 8]>,
    tiles: &Vec<u16>,
    num_tiles: usize,
    k: usize,
    groups: &Vec<Group10s<C>>,
) -> (r: Option<QuantResult10s>)
    requires
        packs@.len() == tiles@.len(),
        tiles_fit(packs@, tiles@, num_tiles as int),
        1 < k <= 0x1_0000,
        k % 2 == 0,
        num_tiles * k <= usize::MAX,
        covers(packs@, tiles@, groups@),
        forall|g: int| 0 <= g < groups@.len() ==> (#[trigger] groups@[g]).wf(num_tiles as nat),
    ensures
        r is None <==> first_slot(groups@, groups@.len() as int) > k,
        r matches Some(q) ==> is_layout(
            packs@,
            tiles@,
            num_tiles as int,
            k as int,
            groups@,
            q,
        ),
{
    let ghost gs = groups@;
    let mut palette: Vec<u32> = vec![0; k];
    let mut indices: Vec<u16> = vec![0; packs.len()];
    let mut next: usize = 1;
    let mut g: usize = 0;
    while g < groups.len()
        invariant
            g <= gs.len(),
            gs == groups@,
            1 < k <= 0x1_0000,
            covers(packs@, tiles@, gs),
            forall|h: int| 0 <= h < gs.len() ==> (#[trigger] gs[h]).wf(num_tiles as nat),
            next == first_slot(gs, g as int),
            1 <= next <= k,
            palette@.len() == k,
            palette@[0] == 0,
            forall|h: int| 0 <= h < g ==> #[trigger] holds_entry(gs, palette@, h),
            forall|slot: int| next <= slot < k ==> #[trigger] palette@[slot] == 0,
            indices@.len() == packs@.len(),
            indexed(gs, indices@, g as int),
            forall|i: int|
                0 <= i < packs@.len() && texel::transparent(packs@[i]) ==> #[trigger] indices@[i]
                    == 0,
        decreases gs.len() - g,
    {
        let n: usize = groups[g].slot_count() as usize;
        proof {
            lemma_first_slot(gs, g as int, g + 1);
            lemma_first_slot(gs, g + 1, gs.len() as int);
            group::lemma_slots(gs[g as int].bitmap@);
            assert(gs[g as int].wf(num_tiles as nat));
        }
        if next + n > k {
            return None;
        }
        fill_entry(groups, g, next, &mut palette);
        fill_indices(
            groups,
            g,
            next,
            &mut indices,
            Ghost(packs@),
            Ghost(tiles@),
            Ghost(num_tiles as nat),
        );
        next = next + n;
        g = g + 1;
    }
    proof {
        assert forall|i: int| 0 <= i < indices@.len() implies #[trigger] indices@[i] < k by {
            if !texel::transparent(packs@[i]) {
                assert(is_grouped(gs, i));
                let (h, j) = choose|h: int, j: int| #[trigger] stands_at(gs, h, j, i);
                lemma_slot_in_group(gs, num_tiles as nat, h, j);
                lemma_first_slot(gs, h + 1, gs.len() as int);
                assert(indices@[gs[h].pixels@[j].index as int] == slot_of(
                    gs,
                    h,
                    gs[h].pixels@[j],
                ));
            }
        }
    }
    let depth_palette: Vec<u8> = depth_table(packs, tiles, &indices, num_tiles, k);
    Some(QuantResult10s { palette, indices, depth_palette })
}

/// `r` is all zeros, of the sizes that `n` pixels in `num_tiles` tiles and a
/// palette of `k` slots have.
pub open spec fn is_blank(n: nat, num_tiles: int, k: int, r: QuantResult10s) -> bool {
    &&& r.palette@ == Seq::new(k as nat, |i: int| 0u32)
    &&& r.indices@ == Seq::new(n, |i: int| 0u16)
    &&& r.depth_palette@ == Seq::new((num_tiles * ((k + 1) / 2)) as nat, |i: int| 0u8)
}

/// `r` is what quantising the packs to `k` slots comes to.
#[verifier::opaque]
pub open spec fn is_result_10s<C: Centroid>(
    packs: Seq<[u8; 8]>,
    tiles: Seq<u16>,
    num_tiles: int,
    k: int,
    r: Option<QuantResult10s>,
) -> bool {
    if packs.len() == 0 || k <= 1 {
        r matches Some(q) && is_blank(packs.len(), num_tiles, k, q)
    } else {
        exists|groups: Seq<Group10s<C>>, merged: Seq<Group10s<C>>| #[trigger]
            is_quantized_10s(packs, tiles, num_tiles, k, groups, merged, r)
                && merge::is_coarsening(groups, merged)
    }
}

/// Quantises the packs to a palette of `k` slots without depth, and a table of
/// depths per tile and slot. There is no result where the groups cannot be
/// merged so far that they fit.
pub fn quantize_10s<C: Centroid>(
    packs: &Vec<[u8; 8]>,
    tile_indices: &Vec<u16>,
    num_tiles: usize,
    k: usize,
) -> (r: Option<QuantResult10s>)
    requires
        packs@.len() == tile_indices@.len(),
        tiles_fit(packs@, tile_indices@, num_tiles as int),
        k <= 0x1_0000,
        packs@.len() > 0 && k > 1 ==> k % 2 == 0,
        num_tiles * (k + 1) <= usize::MAX,
    ensures
        is_result_10s::<C>(packs@, tile_indices@, num_tiles as int, k as int, r),
{
    proof {
        reveal(is_result_10s);
        assert(num_tiles * ((k + 1) / 2) <= num_tiles * (k + 1)) by (nonlinear_arith);
        assert(num_tiles * k <= num_tiles * (k + 1)) by (nonlinear_arith);
        assert(0 <= num_tiles * ((k + 1) / 2)) by (nonlinear_arith);
    }
    if packs.len() == 0 || k <= 1 {
        let half: usize = (k + 1) / 2;
        let blank: QuantResult10s = QuantResult10s {
            palette: vec![0; k],
            indices: vec![0; packs.len()],
            depth_palette: vec![0; num_tiles * half],
        };
        proof {
            let bytes = (num_tiles * half) as nat;
            assert(blank.palette@ =~= Seq::new(k as nat, |i: int| 0u32));
            assert(blank.indices@ =~= Seq::new(packs@.len(), |i: int| 0u16));
            assert(blank.depth_palette@ =~= Seq::new(bytes, |i: int| 0u8));
        }
        return Some(blank);
    }
    let groups: Vec<Group10s<C>> = gather_groups(packs, tile_indices, num_tiles);
    let ghost first = groups@;
    proof {
        lemma_groups_cover(packs@, tile_indices@, num_tiles as nat, first);
        lemma_group_keys(packs@, packs@.len());
        assert forall|g: int| 0 <= g < first.len() implies (#[trigger] first[g]).wf(
            num_tiles as nat,
        ) by {}
        assert(merge::same_image(first));
    }
    let merged: Vec<Group10s<C>> = agglomerative_merge_10s(groups, (k - 1) as u32);
    proof {
        lemma_coarsening_covers(packs@, tile_indices@, first, merged@);
        assert forall|g: int| 0 <= g < merged@.len() implies (#[trigger] merged@[g]).wf(
            num_tiles as nat,
        ) by {
            if first.len() == 0 {
                assert(merged@ == first);
            }
        }
    }
    let r: Option<QuantResult10s> = lay_out(packs, tile_indices, num_tiles, k, &merged);
    assert(is_quantized_10s(
        packs@,
        tile_indices@,
        num_tiles as int,
        k as int,
        first,
        merged@,
        r,
    ));
    r
}

/// The slot that a visible pixel has as its index.
proof fn lemma_pixel_slot<C: Centroid>(
    packs: Seq<[u8; 8]>,
    tiles: Seq<u16>,
    num_tiles: int,
    k: int,
    groups: Seq<Group10s<C>>,
    r: QuantResult10s,
    i: int,
) -> (at: (int, Pixel))
    requires
        0 <= num_tiles,
        covers(packs, tiles, groups),
        forall|g: int| 0 <= g < groups.len() ==> (#[trigger] groups[g]).wf(num_tiles as nat),
        is_layout(packs, tiles, num_tiles, k, groups, r),
        0 <= i < packs.len(),
        !texel::transparent(packs[i]),
    ensures
        0 <= at.0 < groups.len(),
        at.1.tile == tiles[i],
        at.1.bucket == bucket(stored_depth(packs[i])),
        r.indices@[i] == slot_of(groups, at.0, at.1),
        first_slot(groups, at.0) <= r.indices@[i] < first_slot(groups, at.0 + 1),
        bits::bit(groups[at.0].bitmap@[tiles[i] as int], at.1.bucket as int),
{
    assert(is_grouped(groups, i));
    let (g, j) = choose|g: int, j: int| #[trigger] stands_at(groups, g, j, i);
    let p = groups[g].pixels@[j];
    assert(is_pixel(packs, tiles, p));
    lemma_slot_in_group(groups, num_tiles as nat, g, j);
    (g, p)
}

/// Visible pixels of one tile that share an index share a depth bucket.
pub proof fn law_same_index_same_depth<C: Centroid>(
    packs: Seq<[u8; 8]>,
    tiles: Seq<u16>,
    num_tiles: int,
    k: int,
    groups: Seq<Group10s<C>>,
    merged: Seq<Group10s<C>>,
    r: QuantResult10s,
    i: int,
    j: int,
)
    requires
        0 <= num_tiles,
        is_quantized_10s(packs, tiles, num_tiles, k, groups, merged, Some(r)),
        0 <= i < packs.len(),
        0 <= j < packs.len(),
        !texel::transparent(packs[i]),
        !texel::transparent(packs[j]),
        tiles[i] == tiles[j],
        r.indices@[i] == r.indices@[j],
    ensures
        bucket(stored_depth(packs[i])) == bucket(stored_depth(packs[j])),
{
    let (g, p) = lemma_pixel_slot(packs, tiles, num_tiles, k, merged, r, i);
    let (h, q) = lemma_pixel_slot(packs, tiles, num_tiles, k, merged, r, j);
    if g < h {
        lemma_first_slot(merged, g + 1, h);
    } else if h < g {
        lemma_first_slot(merged, h + 1, g);
    }
    let map = merged[g].bitmap@[tiles[i] as int];
    bits::lemma_rank(map, p.bucket as int, q.bucket as int);
}

/// What draws nothing has index zero, and the first entry is zero; what draws
/// something has another index, and all indices are those of slots.
pub proof fn law_reserved_slot_10s<C: Centroid>(
    packs: Seq<[u8; 8]>,
    tiles: Seq<u16>,
    num_tiles: int,
    k: int,
    groups: Seq<Group10s<C>>,
    merged: Seq<Group10s<C>>,
    r: QuantResult10s,
    i: int,
)
    requires
        0 <= num_tiles,
        0 < k,
        is_quantized_10s(packs, tiles, num_tiles, k, groups, merged, Some(r)),
        0 <= i < packs.len(),
    ensures
        r.palette@[0] == 0,
        r.indices@[i] == 0 <==> texel::transparent(packs[i]),
        r.indices@[i] < k,
        k == r.palette@.len(),
{
    if !texel::transparent(packs[i]) {
        let (g, p) = lemma_pixel_slot(packs, tiles, num_tiles, k, merged, r, i);
        lemma_first_slot(merged, 0, g);
        lemma_first_slot(merged, g + 1, merged.len() as int);
    }
}

/// The group whose slots `slot` is one of.
proof fn lemma_slot_owner<C>(groups: Seq<Group10s<C>>, n: int, slot: int) -> (g: int)
    requires
        0 <= n <= groups.len(),
        1 <= slot < first_slot(groups, n),
    ensures
        0 <= g < n,
        first_slot(groups, g) <= slot < first_slot(groups, g + 1),
    decreases n,
{
    if slot < first_slot(groups, n - 1) {
        lemma_slot_owner(groups, n - 1, slot)
    } else {
        n - 1
    }
}

/// The highest bit of every palette entry is clear.
pub proof fn law_highest_bit_is_clear<C: Centroid>(
    packs: Seq<[u8; 8]>,
    tiles: Seq<u16>,
    num_tiles: int,
    k: int,
    q: QuantResult10s,
    slot: int,
)
    requires
        is_result_10s::<C>(packs, tiles, num_tiles, k, Some(q)),
        0 <= slot < q.palette@.len(),
    ensures
        q.palette@[slot] < 0x8000_0000,
{
    reveal(is_result_10s);
    if packs.len() > 0 && k > 1 {
        let (groups, merged) = choose|groups: Seq<Group10s<C>>, merged: Seq<Group10s<C>>|
            #[trigger] is_quantized_10s(packs, tiles, num_tiles, k, groups, merged, Some(q))
                && merge::is_coarsening(groups, merged);
        if 1 <= slot < first_slot(merged, merged.len() as int) {
            let g = lemma_slot_owner(merged, merged.len() as int, slot);
            assert(holds_entry(merged, q.palette@, g));
            let levels = choose|levels: [u32; 8]| #[trigger]
                call_ensures(C::levels, (&merged[g].centroid,), levels) && forall|s: int|
                    first_slot(merged, g) <= s < first_slot(merged, g + 1)
                        ==> #[trigger] q.palette@[s] == group::entry_word(
                        levels@,
                        merged[g].flags,
                    );
            group::law_entry_fields(levels@, merged[g].flags);
        }
    }
}

/// Pixels with the same colour and normal have the same palette entry.
pub proof fn law_equal_colour_equal_entry<C: Centroid>(
    packs: Seq<[u8; 8]>,
    tiles: Seq<u16>,
    num_tiles: int,
    k: int,
    groups: Seq<Group10s<C>>,
    merged: Seq<Group10s<C>>,
    r: QuantResult10s,
    i: int,
    j: int,
)
    requires
        0 <= num_tiles,
        packs.len() <= usize::MAX,
        is_quantized_10s(packs, tiles, num_tiles, k, groups, merged, Some(r)),
        merge::is_coarsening(groups, merged),
        0 <= i < packs.len(),
        0 <= j < packs.len(),
        !texel::transparent(packs[i]),
        !texel::transparent(packs[j]),
        group_key(packs[i]) == group_key(packs[j]),
    ensures
        r.palette@[r.indices@[i] as int] == r.palette@[r.indices@[j] as int],
{
    let n = packs.len();
    let keys = group_keys(packs, n);
    let key = group_key(packs[i]);
    lemma_group_keys(packs, n);
    assert(keys.contains(key));
    let g = choose|g: int| 0 <= g < keys.len() && keys[g] == key;
    assert(is_group(packs, tiles, n, num_tiles as nat, keys[g], groups[g]));
    lemma_pixels_with(packs, tiles, key, n);
    let pixels = groups[g].pixels@;
    assert(has_index(pixels, i) && has_index(pixels, j));
    let a = choose|a: int| 0 <= a < pixels.len() && (#[trigger] pixels[a]).index == i;
    let b = choose|b: int| 0 <= b < pixels.len() && (#[trigger] pixels[b]).index == j;
    let (into, offset) = choose|into: Seq<int>, offset: Seq<int>| #[trigger]
        merge::is_regrouping(groups, merge::whole(merged), into, offset);
    lemma_destination(groups, merged, into, offset, g, a);
    lemma_destination(groups, merged, into, offset, g, b);
    let o = into[g];
    lemma_slot_in_group(merged, num_tiles as nat, o, offset[g] + a);
    lemma_slot_in_group(merged, num_tiles as nat, o, offset[g] + b);
    assert(r.indices@[merged[o].pixels@[offset[g] + a].index as int] == slot_of(
        merged,
        o,
        merged[o].pixels@[offset[g] + a],
    ));
    assert(r.indices@[merged[o].pixels@[offset[g] + b].index as int] == slot_of(
        merged,
        o,
        merged[o].pixels@[offset[g] + b],
    ));
    assert(holds_entry(merged, r.palette@, o));
}

/// Where the depths of all visible pixels are stored as one of 16 levels, they come
/// back unchanged.
pub proof fn law_depth_levels_survive<C: Centroid>(
    packs: Seq<[u8; 8]>,
    tiles: Seq<u16>,
    num_tiles: int,
    k: int,
    groups: Seq<Group10s<C>>,
    merged: Seq<Group10s<C>>,
    r: QuantResult10s,
    i: int,
)
    requires
        0 < k,
        tiles_fit(packs, tiles, num_tiles),
        is_quantized_10s(packs, tiles, num_tiles, k, groups, merged, Some(r)),
        forall|j: int|
            0 <= j < packs.len() && !texel::transparent(#[trigger] packs[j]) ==> stored_depth(
                packs[j],
            ) % 17 == 0,
        0 <= i < packs.len(),
        !texel::transparent(packs[i]),
    ensures
        17 * table_level(r.depth_palette@, k / 2, tiles[i] as int, r.indices@[i] as int)
            == stored_depth(packs[i]),
{
    let t = tiles[i] as int;
    let slot = r.indices@[i] as int;
    let d = stored_depth(packs[i]);
    assert(0 <= t < num_tiles);
    law_reserved_slot_10s(packs, tiles, num_tiles, k, groups, merged, r, i);
    assert forall|j: int|
        0 <= j < packs.len() && #[trigger] in_cell(packs, tiles, r.indices@, t, slot, j) implies stored_depth(
    packs[j]) == d by {
        law_same_index_same_depth(packs, tiles, num_tiles, k, groups, merged, r, i, j);
        lemma_sixteen_levels(d, stored_depth(packs[j]));
    }
    lemma_sixteen_levels(d, d);
    lemma_uniform_cell(packs, tiles, r.indices@, t, slot, packs.len(), i, d);
    let count = depth_count(packs, tiles, r.indices@, t, slot, packs.len()) as int;
    assert(count > 0);
    assert((count * d) / count == d) by (nonlinear_arith)
        requires
            count > 0,
    ;
    assert(table_level(r.depth_palette@, k / 2, t, slot) == cell_level(
        packs,
        tiles,
        r.indices@,
        t,
        slot,
    ));
}

proof fn lemma_uniform_cell(
    packs: Seq<[u8; 8]>,
    tiles: Seq<u16>,
    indices: Seq<u16>,
    t: int,
    slot: int,
    n: nat,
    i: int,
    d: int,
)
    requires
        n <= packs.len(),
        0 <= i,
        in_cell(packs, tiles, indices, t, slot, i),
        forall|j: int|
            0 <= j < packs.len() && #[trigger] in_cell(packs, tiles, indices, t, slot, j)
                ==> stored_depth(packs[j]) == d,
    ensures
        depth_sum(packs, tiles, indices, t, slot, n) == depth_count(
            packs,
            tiles,
            indices,
            t,
            slot,
            n,
        ) * d,
        i < n ==> depth_count(packs, tiles, indices, t, slot, n) > 0,
    decreases n,
{
    if n > 0 {
        lemma_uniform_cell(packs, tiles, indices, t, slot, (n - 1) as nat, i, d);
        let c = depth_count(packs, tiles, indices, t, slot, (n - 1) as nat) as int;
        assert((c + 1) * d == c * d + d) by (nonlinear_arith);
    } else {
        assert(0 * d == 0) by (nonlinear_arith);
    }
}

/// Two of 16 levels in one bucket are the same, and a level is found again.
proof fn lemma_sixteen_levels(d: int, e: int)
    requires
        0 <= d <= 255,
        0 <= e <= 255,
        d % 17 == 0,
        e % 17 == 0,
    ensures
        bucket(d) == bucket(e) ==> d == e,
        17 * depth_level(d) == d,
{
    let i = d / 17;
    let j = e / 17;
    assert(d == 17 * i && e == 17 * j);
    assert(depth_level(d) == (255 * i + 127) / 255);
    vstd::arithmetic::div_mod::lemma_fundamental_div_mod_converse(255 * i + 127, 255, i, 127);
    if i < j {
        lemma_wider_apart(d, e);
    } else if j < i {
        lemma_wider_apart(e, d);
    }
}

/// Depths that are a level apart are in different buckets.
proof fn lemma_wider_apart(d: int, e: int)
    requires
        0 <= d,
        d + 17 <= e,
    ensures
        bucket(d) < bucket(e),
{
    vstd::arithmetic::div_mod::lemma_div_is_ordered(d * 63 + 127 + 255, e * 63 + 127, 255);
}

/// The sizes of a result.
pub proof fn lemma_result_sizes<C: Centroid>(
    packs: Seq<[u8; 8]>,
    tiles: Seq<u16>,
    num_tiles: int,
    k: int,
    q: QuantResult10s,
)
    requires
        is_result_10s::<C>(packs, tiles, num_tiles, k, Some(q)),
        0 <= num_tiles,
        1 < k,
        k % 2 == 0,
    ensures
        q.palette@.len() == k,
        q.indices@.len() == packs.len(),
        q.depth_palette@.len() == num_tiles * (k / 2),
{
    reveal(is_result_10s);
    if packs.len() == 0 {
        assert(is_blank(packs.len(), num_tiles, k, q));
        assert((k + 1) / 2 == k / 2);
        assert(0 <= num_tiles * (k / 2)) by (nonlinear_arith)
            requires
                0 <= num_tiles,
                1 < k,
        ;
    } else {
        let (groups, merged) = choose|groups: Seq<Group10s<C>>, merged: Seq<Group10s<C>>|
            #[trigger] is_quantized_10s(packs, tiles, num_tiles, k, groups, merged, Some(q))
                && merge::is_coarsening(groups, merged);
        lemma_layout_sizes(packs, tiles, num_tiles, k, groups, merged, q);
    }
}

proof fn lemma_layout_sizes<C: Centroid>(
    packs: Seq<[u8; 8]>,
    tiles: Seq<u16>,
    num_tiles: int,
    k: int,
    groups: Seq<Group10s<C>>,
    merged: Seq<Group10s<C>>,
    q: QuantResult10s,
)
    requires
        is_quantized_10s(packs, tiles, num_tiles, k, groups, merged, Some(q)),
    ensures
        q.palette@.len() == k,
        q.indices@.len() == packs.len(),
        q.depth_palette@.len() == num_tiles * (k / 2),
{
    assert(is_layout(packs, tiles, num_tiles, k, merged, q));
}

/// `c` is what the centre of a pixel with these levels has become with `n` pixels.
pub open spec fn is_grown<C: Centroid>(levels: [u32; 9], n: nat, c: C) -> bool
    decreases n,
{
    if n == 0 {
        call_ensures(C::seed, (&levels,), c)
    } else {
        exists|before: C|
            is_grown(levels, (n - 1) as nat, before) && #[trigger] call_ensures(
                C::with_pixel,
                (&before, levels@[3]),
                c,
            )
    }
}

/// The levels are the fields of the pack: red, green, blue, alpha, roughness and
/// metallic, normal x and normal y, each from its own bits; and none for the depth.
pub open spec fn are_own_levels(pack: [u8; 8], levels: Seq<u32>) -> bool {
    let lo = texel::lower(pack);
    let hi = texel::upper(pack);
    &&& levels.len() == 9
    &&& levels[0] == texel::field(lo, 0, 31)
    &&& levels[1] == texel::field(lo, 5, 31)
    &&& levels[2] == texel::field(lo, 10, 31)
    &&& levels[3] == texel::field(lo, 15, 31)
    &&& levels[4] == texel::field(lo, 20, 15)
    &&& levels[5] == texel::field(lo, 24, 15)
    &&& levels[6] == texel::field(hi, 0, 0xfff)
    &&& levels[7] == texel::field(hi, 12, 0xfff)
    &&& levels[8] == 0
}

/// The packs are the same but for the depth.
pub open spec fn same_colour(a: [u8; 8], b: [u8; 8]) -> bool {
    texel::lower(a) == texel::lower(b) && texel::upper(a) << 8 == texel::upper(b) << 8
}

proof fn lemma_without_depth(hi: u32, cut: u32, other: u32)
    by (bit_vector)
    requires
        cut == hi % 0x100_0000,
    ensures
        texel::field(cut, 0, 0xfff) == texel::field(hi, 0, 0xfff),
        texel::field(cut, 12, 0xfff) == texel::field(hi, 12, 0xfff),
        texel::field(cut, 24, 0xff) == 0,
        (hi << 8 == other << 8) == (cut == other % 0x100_0000),
{
}

/// A group key stands for all of a pack but the depth.
pub proof fn law_group_key_leaves_out_the_depth(a: [u8; 8], b: [u8; 8])
    ensures
        group_key(a) == group_key(b) <==> same_colour(a, b),
{
    lemma_group_key_words(a);
    lemma_group_key_words(b);
    lemma_without_depth(
        texel::upper(a),
        texel::upper(a) % 0x100_0000,
        texel::upper(b),
    );
}

/// The levels that a group key holds.
proof fn lemma_key_levels(pack: [u8; 8])
    ensures
        are_own_levels(
            pack,
            cut::levels(texel::key_lower(group_key(pack)), texel::key_upper(group_key(pack))),
        ),
{
    lemma_group_key_words(pack);
    let lo = texel::lower(pack);
    let hi = texel::upper(pack);
    let rest = texel::key_upper(group_key(pack));
    lemma_without_depth(hi, rest, hi);
    texel::lemma_fields(lo);
    texel::lemma_fields(rest);
}

/// The centre of a group has grown from the levels of its key.
proof fn lemma_centre_grown<C: Centroid>(k: u64, n: nat, c: C) -> (levels: [u32; 9])
    requires
        is_centre(k, n, c),
    ensures
        levels@ == cut::levels(texel::key_lower(k), texel::key_upper(k)),
        is_grown(levels, n, c),
    decreases n,
{
    if n == 0 {
        choose|levels: [u32; 9]| #[trigger]
            call_ensures(C::seed, (&levels,), c) && levels@ == cut::levels(
                texel::key_lower(k),
                texel::key_upper(k),
            )
    } else {
        let before = choose|before: C|
            is_centre(k, (n - 1) as nat, before) && #[trigger] call_ensures(
                C::with_pixel,
                (&before, texel::alpha_level(texel::key_lower(k))),
                c,
            );
        let levels = lemma_centre_grown(k, (n - 1) as nat, before);
        assert(levels@[3] == texel::alpha_level(texel::key_lower(k)));
        levels
    }
}

/// The pixels of a group key are those with that colour.
proof fn lemma_pixels_counted(packs: Seq<[u8; 8]>, tiles: Seq<u16>, pack: [u8; 8], n: nat)
    requires
        n <= packs.len(),
        !texel::transparent(pack),
    ensures
        pixels_with(packs, tiles, group_key(pack), n).len() == packs.take(n as int).filter(
            |other: [u8; 8]| same_colour(other, pack),
        ).len(),
    decreases n,
{
    reveal(Seq::filter);
    let head = packs.take(n as int);
    if n > 0 {
        lemma_pixels_counted(packs, tiles, pack, (n - 1) as nat);
        assert(head.drop_last() =~= packs.take(n - 1));
        assert(head.last() == packs[n - 1]);
        law_group_key_leaves_out_the_depth(packs[n - 1], pack);
        if same_colour(packs[n - 1], pack) {
            assert(texel::lower(packs[n - 1]) == texel::lower(pack));
        }
    }
}

/// `entry` is made of `pack` alone: its fields are the levels that the centroid gives
/// for the centre that has grown from the pack's own levels, with all the pixels of
/// that colour, and its flags are those of the pack.
pub open spec fn is_own_entry<C: Centroid>(
    packs: Seq<[u8; 8]>,
    pack: [u8; 8],
    entry: u32,
) -> bool {
    let count = packs.filter(|other: [u8; 8]| same_colour(other, pack)).len();
    exists|levels: [u32; 9], c: C, out: [u32; 8]|
        {
            &&& are_own_levels(pack, levels@)
            &&& #[trigger] is_grown(levels, count, c)
            &&& #[trigger] call_ensures(C::levels, (&c,), out)
            &&& group::has_fields(entry, out@, texel::field(texel::lower(pack), 28, 15))
        }
}

/// Where the groups take no more slots than there are, so that nothing is merged, the
/// palette entry at a visible pixel's index is made of that pixel's own fields.
pub proof fn law_unmerged_colours_are_their_own<C: Centroid>(
    packs: Seq<[u8; 8]>,
    tiles: Seq<u16>,
    num_tiles: int,
    k: int,
    groups: Seq<Group10s<C>>,
    merged: Seq<Group10s<C>>,
    r: QuantResult10s,
    i: int,
)
    requires
        0 <= num_tiles,
        packs.len() <= usize::MAX,
        is_quantized_10s(packs, tiles, num_tiles, k, groups, merged, Some(r)),
        merge::total_slots(merge::whole(groups), groups.len()) < k,
        0 <= i < packs.len(),
        !texel::transparent(packs[i]),
    ensures
        is_own_entry::<C>(packs, packs[i], r.palette@[r.indices@[i] as int]),
{
    let n = packs.len();
    let keys = group_keys(packs, n);
    let key = group_key(packs[i]);
    assert(merge::whole(groups) =~= Seq::new(groups.len(), |g: int| Some(groups[g])));
    assert(merged == groups);
    lemma_group_keys(packs, n);
    assert(keys.contains(key));
    let g = choose|g: int| 0 <= g < keys.len() && keys[g] == key;
    assert(is_group(packs, tiles, n, num_tiles as nat, keys[g], groups[g]));
    lemma_pixels_with(packs, tiles, key, n);
    let pixels = groups[g].pixels@;
    assert(has_index(pixels, i));
    let a = choose|a: int| 0 <= a < pixels.len() && (#[trigger] pixels[a]).index == i;
    lemma_slot_in_group(groups, num_tiles as nat, g, a);
    assert(r.indices@[groups[g].pixels@[a].index as int] == slot_of(
        groups,
        g,
        groups[g].pixels@[a],
    ));
    assert(holds_entry(groups, r.palette@, g));
    let out = choose|levels: [u32; 8]| #[trigger]
        call_ensures(C::levels, (&groups[g].centroid,), levels) && forall|slot: int|
            first_slot(groups, g) <= slot < first_slot(groups, g + 1) ==> #[trigger] r.palette@[slot]
                == group::entry_word(levels@, groups[g].flags);
    let levels = lemma_centre_grown(key, pixels.len(), groups[g].centroid);
    lemma_key_levels(packs[i]);
    lemma_pixels_counted(packs, tiles, packs[i], n);
    assert(packs.take(n as int) =~= packs);
    lemma_group_key_words(packs[i]);
    texel::lemma_fields(texel::lower(packs[i]));
    group::lemma_word_fields(out@, groups[g].flags);
}

/// A stored depth goes to the nearest of 64 buckets, and every bucket has a stored depth
/// of its own, which is the nearest to it.
pub proof fn law_depths_go_to_the_nearest_bucket(stored: u32, b: u8)
    requires
        stored <= 255,
        call_ensures(depth_bucket, (stored,), b),
    ensures
        b < 64,
        -255 <= 2 * (63 * stored - 255 * b) <= 255,
        forall|c: int| 0 <= c < 64 ==> #[trigger] bucket((c * 255 + 31) / 63) == c,
{
    assert forall|c: int| 0 <= c < 64 implies #[trigger] bucket((c * 255 + 31) / 63) == c by {
        let s = (c * 255 + 31) / 63;
        assert(c * 255 + 31 - 62 <= 63 * s <= c * 255 + 31);
        vstd::arithmetic::div_mod::lemma_fundamental_div_mod_converse(
            s * 63 + 127,
            255,
            c,
            s * 63 + 127 - 255 * c,
        );
    }
}

/// A depth is kept as the nearest of 16 levels, and every level is that of some depth.
pub proof fn law_depths_are_kept_as_the_nearest_level(stored: int)
    requires
        0 <= stored <= 255,
    ensures
        0 <= depth_level(stored) < 16,
        -255 <= 2 * (15 * stored - 255 * depth_level(stored)) <= 255,
        forall|l: int| 0 <= l < 16 ==> #[trigger] depth_level(17 * l) == l,
{
    assert forall|l: int| 0 <= l < 16 implies #[trigger] depth_level(17 * l) == l by {
        vstd::arithmetic::div_mod::lemma_fundamental_div_mod_converse(255 * l + 127, 255, l, 127);
    }
}

/// The table gives for a tile and an index the level nearest to the depth of the pixels
/// there, where they have the same depth, and zero where there are none; the levels of an
/// even slot and the odd one after it are the lower and the upper half of a byte.
pub proof fn law_table_gives_the_nearest_level<C: Centroid>(
    packs: Seq<[u8; 8]>,
    tiles: Seq<u16>,
    num_tiles: int,
    k: int,
    groups: Seq<Group10s<C>>,
    merged: Seq<Group10s<C>>,
    r: QuantResult10s,
    t: int,
    slot: int,
    d: int,
)
    requires
        is_quantized_10s(packs, tiles, num_tiles, k, groups, merged, Some(r)),
        0 <= t < num_tiles,
        0 <= slot < k,
        0 <= d <= 255,
        forall|j: int|
            0 <= j < packs.len() && #[trigger] in_cell(packs, tiles, r.indices@, t, slot, j)
                ==> texel::field(texel::upper(packs[j]), 24, 0xff) == d,
    ensures
        ({
            let byte = r.depth_palette@[t * (k / 2) + slot / 2] as int;
            let level = if slot % 2 == 0 {
                byte % 16
            } else {
                byte / 16
            };
            &&& (exists|j: int|
                0 <= j < packs.len() && #[trigger] in_cell(packs, tiles, r.indices@, t, slot, j))
                ==> -255 <= 2 * (15 * d - 255 * level) <= 255
            &&& (forall|j: int|
                0 <= j < packs.len() ==> !#[trigger] in_cell(
                    packs,
                    tiles,
                    r.indices@,
                    t,
                    slot,
                    j,
                )) ==> level == 0
        }),
{
    let n = packs.len();
    let level = table_level(r.depth_palette@, k / 2, t, slot);
    assert(level == cell_level(packs, tiles, r.indices@, t, slot));
    assert forall|j: int|
        0 <= j < packs.len() && #[trigger] in_cell(packs, tiles, r.indices@, t, slot, j) implies stored_depth(
    packs[j]) == d by {
        texel::lemma_fields(texel::upper(packs[j]));
    }
    if exists|j: int| 0 <= j < n && #[trigger] in_cell(packs, tiles, r.indices@, t, slot, j) {
        let i = choose|j: int|
            0 <= j < n && #[trigger] in_cell(packs, tiles, r.indices@, t, slot, j);
        lemma_uniform_cell(packs, tiles, r.indices@, t, slot, n, i, d);
        let count = depth_count(packs, tiles, r.indices@, t, slot, n) as int;
        assert((count * d) / count == d) by (nonlinear_arith)
            requires
                count > 0,
        ;
        law_depths_are_kept_as_the_nearest_level(d);
    } else {
        lemma_empty_cell(packs, tiles, r.indices@, t, slot, n);
    }
}

proof fn lemma_empty_cell(
    packs: Seq<[u8; 8]>,
    tiles: Seq<u16>,
    indices: Seq<u16>,
    t: int,
    slot: int,
    n: nat,
)
    requires
        n <= packs.len(),
        forall|j: int|
            0 <= j < packs.len() ==> !#[trigger] in_cell(packs, tiles, indices, t, slot, j),
    ensures
        depth_count(packs, tiles, indices, t, slot, n) == 0,
    decreases n,
{
    if n > 0 {
        lemma_empty_cell(packs, tiles, indices, t, slot, (n - 1) as nat);
    }
}

/// The number of visible pixels.
pub open spec fn visible_pixels(packs: Seq<[u8; 8]>) -> nat {
    quantize::count_pixels(packs.len(), |i: int| !texel::transparent(packs[i]))
}

/// The visible pixels with a group key are counted.
proof fn lemma_pixels_with_count(packs: Seq<[u8; 8]>, tiles: Seq<u16>, k: u64, n: nat)
    requires
        n <= packs.len(),
    ensures
        pixels_with(packs, tiles, k, n).len() == quantize::count_pixels(
            n,
            |i: int| !texel::transparent(packs[i]) && group_key(packs[i]) == k,
        ),
    decreases n,
{
    if n > 0 {
        lemma_pixels_with_count(packs, tiles, k, (n - 1) as nat);
    }
}

/// Pixel `i` is visible and has one of the first `g` group keys.
spec fn is_keyed(packs: Seq<[u8; 8]>, keys: Seq<u64>, g: int, i: int) -> bool {
    !texel::transparent(packs[i]) && exists|h: int|
        0 <= h < g && #[trigger] keys[h] == group_key(packs[i])
}

/// The first groups take no more slots than they have pixels.
proof fn lemma_slots_within_pixels<C: Centroid>(
    packs: Seq<[u8; 8]>,
    tiles: Seq<u16>,
    num_tiles: int,
    groups: Seq<Group10s<C>>,
    g: nat,
)
    requires
        are_groups(packs, tiles, num_tiles as nat, groups),
        g <= groups.len(),
    ensures
        merge::total_slots(merge::whole(groups), g) <= quantize::count_pixels(
            packs.len(),
            |i: int| is_keyed(packs, group_keys(packs, packs.len()), g as int, i),
        ),
    decreases g,
{
    if g > 0 {
        let n = packs.len();
        let keys = group_keys(packs, n);
        let h = g - 1;
        lemma_slots_within_pixels(packs, tiles, num_tiles, groups, h as nat);
        lemma_group_keys(packs, n);
        let group = groups[h];
        assert(is_group(packs, tiles, n, num_tiles as nat, keys[h], group));
        group::law_no_more_slots_than_pixels(group, num_tiles as nat);
        lemma_pixels_with_count(packs, tiles, keys[h], n);
        let all = |i: int| is_keyed(packs, keys, g as int, i);
        let before = |i: int| is_keyed(packs, keys, h, i);
        let here = |i: int| !texel::transparent(packs[i]) && group_key(packs[i]) == keys[h];
        assert forall|i: int| 0 <= i < n implies (#[trigger] all(i) <==> before(i) || here(i)) by {
            if before(i) {
                let e = choose|e: int| 0 <= e < h && #[trigger] keys[e] == group_key(packs[i]);
                assert(keys[e] == group_key(packs[i]));
            }
            if here(i) {
                assert(keys[h] == group_key(packs[i]));
            }
        }
        assert forall|i: int| 0 <= i < n implies !(#[trigger] before(i) && here(i)) by {}
        quantize::lemma_count_apart(n, all, before, here);
        assert(merge::whole(groups)[h] == Some(groups[h]));
    }
}

/// Where there are fewer visible pixels than slots, nothing is merged, and the palette
/// entry at the index of every visible pixel is made of that pixel's own fields.
pub proof fn law_few_pixels_keep_their_colours<C: Centroid>(
    packs: Seq<[u8; 8]>,
    tiles: Seq<u16>,
    num_tiles: int,
    k: int,
    q: QuantResult10s,
    i: int,
)
    requires
        0 <= num_tiles,
        packs.len() <= usize::MAX,
        is_result_10s::<C>(packs, tiles, num_tiles, k, Some(q)),
        visible_pixels(packs) < k,
        0 <= i < packs.len(),
        !texel::transparent(packs[i]),
    ensures
        is_own_entry::<C>(packs, packs[i], q.palette@[q.indices@[i] as int]),
{
    reveal(is_result_10s);
    let visible = |j: int| !texel::transparent(packs[j]);
    lemma_counted(packs.len(), visible, i);
    let (groups, merged) = choose|groups: Seq<Group10s<C>>, merged: Seq<Group10s<C>>|
        #[trigger] is_quantized_10s(packs, tiles, num_tiles, k, groups, merged, Some(q))
            && merge::is_coarsening(groups, merged);
    lemma_slots_within_pixels(packs, tiles, num_tiles, groups, groups.len());
    let keyed = |j: int|
        is_keyed(packs, group_keys(packs, packs.len()), groups.len() as int, j);
    lemma_count_within(packs.len(), keyed, visible);
    law_unmerged_colours_are_their_own(packs, tiles, num_tiles, k, groups, merged, q, i);
}

proof fn lemma_counted(n: nat, such: spec_fn(int) -> bool, i: int)
    requires
        0 <= i < n,
        such(i),
    ensures
        quantize::count_pixels(n, such) > 0,
    decreases n,
{
    if i < n - 1 {
        lemma_counted((n - 1) as nat, such, i);
    }
}

proof fn lemma_count_within(n: nat, few: spec_fn(int) -> bool, many: spec_fn(int) -> bool)
    requires
        forall|i: int| 0 <= i < n && #[trigger] few(i) ==> many(i),
    ensures
        quantize::count_pixels(n, few) <= quantize::count_pixels(n, many),
    decreases n,
{
    if n > 0 {
        lemma_count_within((n - 1) as nat, few, many);
        assert(few(n - 1) ==> many(n - 1));
    }
}

/// There is no palette only where the groups still take more slots than there are, one of
/// which is kept for what draws nothing, and no two of them would save a slot together.
/// (With more than 4096 groups left, a saving pair far apart in their order may be left.)
pub proof fn law_overflow_is_the_last_resort<C: Centroid>(
    packs: Seq<[u8; 8]>,
    tiles: Seq<u16>,
    num_tiles: int,
    k: int,
    groups: Seq<Group10s<C>>,
    merged: Seq<Group10s<C>>,
    r: Option<QuantResult10s>,
    i: int,
    j: int,
)
    requires
        packs.len() <= usize::MAX,
        is_quantized_10s(packs, tiles, num_tiles, k, groups, merged, r),
    ensures
        r is None <==> 1 + merge::total_slots(merge::whole(merged), merged.len()) > k,
        r is None && merged.len() <= 4096 && 0 <= i < j < merged.len() ==> group::saved_slots(
            merged[i],
            merged[j],
        ) < 1,
{
    lemma_group_keys(packs, packs.len());
    if r is None && merged.len() <= 4096 && 0 <= i < j < merged.len() {
        merge::law_merge_stops_at_target(groups, k - 1, merged, i, j);
    }
}

} // verus!
