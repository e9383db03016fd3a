//! Groups of pixels that share one palette colour, and what a group costs.
//!
//! A group takes one palette slot for each depth bucket that it needs in one
//! tile at a time, so its cost is the largest number of buckets in any tile.

use vstd::prelude::*;

use crate::bits;
use crate::texel;

verus! {

/// What the groups take from floating-point arithmetic: the weighted mean of
/// the members' colours and normals.
pub trait Centroid: Sized {
    /// The centre of pixels with these levels of red, green, blue, alpha,
    /// roughness, metallic, normal x and normal y, with no weight yet. The last
    /// number, for the depth, is zero.
    fn seed(levels: &[u32; 9]) -> Self;

    /// The same centre with the weight of one more pixel of that alpha level.
    fn with_pixel(&self, alpha: u32) -> Self;

    /// How well it would do to merge two groups and save `saved` slots, as an
    /// integer ordered like the score.
    fn score(&self, other: &Self, saved: u32) -> u64;

    /// Whether this centre weighs more than the other.
    fn outweighs(&self, other: &Self) -> bool;

    /// The weighted mean of both.
    fn absorb(&self, other: &Self) -> Self;

    /// The levels of the centre as a palette entry stores them: red, green and
    /// blue of 4 bits, alpha of 3, roughness and metallic of 2, normal x and normal
    /// y of 4.
    fn levels(&self) -> [u32; 8];
}

/// The palette entry with these levels, each cut to the bits that it has, and with
/// these flags. Its highest bit is unused.
pub open spec fn entry_word(levels: Seq<u32>, flags: u32) -> u32 {
    (levels[0] % 16 + 0x10 * (levels[1] % 16) + 0x100 * (levels[2] % 16) + 0x1000 * (levels[3] % 8)
        + 0x8000 * (levels[4] % 4) + 0x2_0000 * (levels[5] % 4) + 0x8_0000 * (flags % 16)
        + 0x80_0000 * (levels[6] % 16) + 0x800_0000 * (levels[7] % 16)) as u32
}

/// The palette entry with these levels and flags.
pub fn pack_palette_entry_10s(levels: &[u32; 8], flags: u32) -> (entry: u32)
    ensures
        entry == entry_word(levels@, flags),
        entry < 0x8000_0000,
{
    levels[0] % 16 + 0x10 * (levels[1] % 16) + 0x100 * (levels[2] % 16) + 0x1000 * (levels[3] % 8)
        + 0x8000 * (levels[4] % 4) + 0x2_0000 * (levels[5] % 4) + 0x8_0000 * (flags % 16)
        + 0x80_0000 * (levels[6] % 16) + 0x800_0000 * (levels[7] % 16)
}

/// Every field of a palette entry is at its place, and the highest bit is clear.
pub proof fn law_entry_fields(levels: Seq<u32>, flags: u32)
    ensures
        ({
            let entry = entry_word(levels, flags);
            &&& entry % 16 == levels[0] % 16
            &&& (entry / 0x10) % 16 == levels[1] % 16
            &&& (entry / 0x100) % 16 == levels[2] % 16
            &&& (entry / 0x1000) % 8 == levels[3] % 8
            &&& (entry / 0x8000) % 4 == levels[4] % 4
            &&& (entry / 0x2_0000) % 4 == levels[5] % 4
            &&& (entry / 0x8_0000) % 16 == flags % 16
            &&& (entry / 0x80_0000) % 16 == levels[6] % 16
            &&& (entry / 0x800_0000) % 16 == levels[7] % 16
            &&& entry < 0x8000_0000
        }),
{
    let (a, b, c) = (levels[0] % 16, levels[1] % 16, levels[2] % 16);
    let (d, e, f) = (levels[3] % 8, levels[4] % 4, levels[5] % 4);
    let (g, x, y) = (flags % 16, levels[6] % 16, levels[7] % 16);
    let entry = entry_word(levels, flags);
    assert(entry % 16 == a && (entry / 0x10) % 16 == b && (entry / 0x100) % 16 == c && (entry
        / 0x1000) % 8 == d && (entry / 0x8000) % 4 == e && (entry / 0x2_0000) % 4 == f && (entry
        / 0x8_0000) % 16 == g && (entry / 0x80_0000) % 16 == x && (entry / 0x800_0000) % 16 == y
        && entry < 0x8000_0000) by (bit_vector)
        requires
            a < 16,
            b < 16,
            c < 16,
            d < 8,
            e < 4,
            f < 4,
            g < 16,
            x < 16,
            y < 16,
            entry == a + 0x10 * b + 0x100 * c + 0x1000 * d + 0x8000 * e + 0x2_0000 * f + 0x8_0000
                * g + 0x80_0000 * x + 0x800_0000 * y,
    ;
}

/// The fields of a palette entry are these levels, each cut to its bits, and these
/// flags: from the lowest bit up red, green and blue of four bits, alpha of three,
/// roughness and metallic of two, the flags of four, normal x and normal y of four, and
/// one bit that is clear.
pub open spec fn has_fields(entry: u32, levels: Seq<u32>, flags: u32) -> bool {
    &&& texel::field(entry, 0, 15) == levels[0] % 16
    &&& texel::field(entry, 4, 15) == levels[1] % 16
    &&& texel::field(entry, 8, 15) == levels[2] % 16
    &&& texel::field(entry, 12, 7) == levels[3] % 8
    &&& texel::field(entry, 15, 3) == levels[4] % 4
    &&& texel::field(entry, 17, 3) == levels[5] % 4
    &&& texel::field(entry, 19, 15) == flags % 16
    &&& texel::field(entry, 23, 15) == levels[6] % 16
    &&& texel::field(entry, 27, 15) == levels[7] % 16
    &&& texel::field(entry, 31, 1) == 0
}

proof fn lemma_entry_bits(entry: u32)
    by (bit_vector)
    ensures
        texel::field(entry, 0, 15) == entry % 16,
        texel::field(entry, 4, 15) == (entry / 0x10) % 16,
        texel::field(entry, 8, 15) == (entry / 0x100) % 16,
        texel::field(entry, 12, 7) == (entry / 0x1000) % 8,
        texel::field(entry, 15, 3) == (entry / 0x8000) % 4,
        texel::field(entry, 17, 3) == (entry / 0x2_0000) % 4,
        texel::field(entry, 19, 15) == (entry / 0x8_0000) % 16,
        texel::field(entry, 23, 15) == (entry / 0x80_0000) % 16,
        texel::field(entry, 27, 15) == (entry / 0x800_0000) % 16,
        entry < 0x8000_0000 ==> texel::field(entry, 31, 1) == 0,
{
}

/// A palette entry has its levels and flags for fields.
pub proof fn law_entries_have_the_levels(levels: [u32; 8], flags: u32, entry: u32)
    requires
        call_ensures(pack_palette_entry_10s, (&levels, flags), entry),
    ensures
        has_fields(entry, levels@, flags),
{
    lemma_word_fields(levels@, flags);
}

pub proof fn lemma_word_fields(levels: Seq<u32>, flags: u32)
    ensures
        has_fields(entry_word(levels, flags), levels, flags),
{
    law_entry_fields(levels, flags);
    lemma_entry_bits(entry_word(levels, flags));
}

/// The key by which groups are ordered: colour first, normal next.
pub open spec fn sort_word(levels: Seq<u32>) -> u32 {
    (0x1000_0000 * (levels[0] % 16) + 0x100_0000 * (levels[1] % 16) + 0x10_0000 * (levels[2] % 16)
        + 0x1_0000 * (levels[6] % 16) + 0x1000 * (levels[7] % 16)) as u32
}

/// The key by which groups are ordered.
pub fn centroid_sort_key(levels: &[u32; 8]) -> (key: u32)
    ensures
        key == sort_word(levels@),
{
    0x1000_0000 * (levels[0] % 16) + 0x100_0000 * (levels[1] % 16) + 0x10_0000 * (levels[2] % 16)
        + 0x1_0000 * (levels[6] % 16) + 0x1000 * (levels[7] % 16)
}

/// A pixel in a group.
#[derive(Clone, Copy)]
pub struct Pixel {
    /// Which pixel it is.
    pub index: usize,
    /// Its depth bucket.
    pub bucket: u8,
    /// The tile that it is in.
    pub tile: u16,
}

/// Pixels that get the same palette entry.
pub struct Group10s<C> {
    /// Bit `d` of `bitmap[t]`: some pixel of the group is in tile `t` at depth
    /// bucket `d`.
    pub bitmap: Vec<u64>,
    /// The pixels.
    pub pixels: Vec<Pixel>,
    /// Their centre.
    pub centroid: C,
    /// Their flags; those of the heavier group after a merge.
    pub flags: u32,
    /// The number of slots that the group takes.
    pub cached_slots: u32,
}

/// The largest number of depth buckets in any tile.
pub open spec fn slots(bitmap: Seq<u64>) -> nat
    decreases bitmap.len(),
{
    if bitmap.len() == 0 {
        0
    } else {
        let rest = slots(bitmap.drop_last());
        let here = bits::ones(bitmap.last());
        if here > rest {
            here
        } else {
            rest
        }
    }
}

/// The buckets of two groups together.
pub open spec fn union(a: Seq<u64>, b: Seq<u64>) -> Seq<u64> {
    Seq::new(a.len(), |t: int| a[t] | b[t])
}

/// Some of the pixels is in tile `t` at depth bucket `d`.
pub open spec fn has_pixel(pixels: Seq<Pixel>, t: int, d: int) -> bool {
    exists|j: int|
        0 <= j < pixels.len() && (#[trigger] pixels[j]).tile == t && pixels[j].bucket == d
}

/// The bitmap says where the pixels are.
pub open spec fn maps(bitmap: Seq<u64>, pixels: Seq<Pixel>) -> bool {
    forall|t: int, d: int|
        0 <= t < bitmap.len() && 0 <= d < 64 ==> #[trigger] bits::bit(bitmap[t], d) == has_pixel(
            pixels,
            t,
            d,
        )
}

impl<C> Group10s<C> {
    /// The group is one of an image with `tiles` tiles.
    pub open spec fn wf(self, tiles: nat) -> bool {
        &&& self.bitmap@.len() == tiles
        &&& self.pixels@.len() > 0
        &&& forall|j: int|
            0 <= j < self.pixels@.len() ==> (#[trigger] self.pixels@[j]).tile < tiles
                && self.pixels@[j].bucket < 64
        &&& maps(self.bitmap@, self.pixels@)
        &&& self.cached_slots == slots(self.bitmap@)
    }

    /// The number of slots that the group takes.
    pub fn slot_count(&self) -> (n: u32)
        ensures
            n == self.cached_slots,
    {
        self.cached_slots
    }
}

/// No tile has more than 64 buckets, and the buckets of every tile fit in the slots.
pub proof fn lemma_slots(bitmap: Seq<u64>)
    ensures
        slots(bitmap) <= 64,
        forall|t: int| 0 <= t < bitmap.len() ==> bits::ones(#[trigger] bitmap[t]) <= slots(bitmap),
    decreases bitmap.len(),
{
    if bitmap.len() > 0 {
        let rest = bitmap.drop_last();
        lemma_slots(rest);
        bits::lemma_ones_below_monotone(bitmap.last(), 0, 64);
        assert forall|t: int| 0 <= t < bitmap.len() implies bits::ones(#[trigger] bitmap[t])
            <= slots(bitmap) by {
            if t < rest.len() {
                assert(rest[t] == bitmap[t]);
            }
        }
    }
}

/// Together two groups need no more slots than apart, and no fewer than either.
pub proof fn lemma_union_slots(a: Seq<u64>, b: Seq<u64>)
    requires
        a.len() == b.len(),
    ensures
        slots(union(a, b)) <= slots(a) + slots(b),
        slots(a) <= slots(union(a, b)),
        slots(b) <= slots(union(a, b)),
    decreases a.len(),
{
    if a.len() > 0 {
        assert(union(a, b).drop_last() =~= union(a.drop_last(), b.drop_last()));
        lemma_union_slots(a.drop_last(), b.drop_last());
        bits::lemma_ones_or(a.last(), b.last(), 64);
    }
}

fn count_slots(bitmap: &Vec<u64>) -> (n: u32)
    ensures
        n == slots(bitmap@),
        n <= 64,
{
    let mut n: u32 = 0;
    let mut t: usize = 0;
    while t < bitmap.len()
        invariant
            t <= bitmap@.len(),
            n == slots(bitmap@.take(t as int)),
            n <= 64,
        decreases bitmap@.len() - t,
    {
        assert(bitmap@.take(t + 1).drop_last() =~= bitmap@.take(t as int));
        let here: u32 = bits::count_ones(bitmap[t]);
        if here > n {
            n = here;
        }
        t = t + 1;
    }
    assert(bitmap@.take(t as int) =~= bitmap@);
    n
}

impl<C> Group10s<C> {
    /// Counts the slots anew.
    pub fn recompute_slots(&mut self)
        ensures
            final(self).bitmap == old(self).bitmap,
            final(self).pixels == old(self).pixels,
            final(self).centroid == old(self).centroid,
            final(self).flags == old(self).flags,
            final(self).cached_slots == slots(old(self).bitmap@),
    {
        self.cached_slots = count_slots(&self.bitmap);
    }
}

/// The slots saved by merging `a` and `b`.
pub open spec fn saved_slots<C>(a: Group10s<C>, b: Group10s<C>) -> int {
    slots(a.bitmap@) + slots(b.bitmap@) - slots(union(a.bitmap@, b.bitmap@))
}

/// The slots saved by merging two groups.
pub fn merge_savings<C>(a: &Group10s<C>, b: &Group10s<C>) -> (saved: u32)
    requires
        a.bitmap@.len() == b.bitmap@.len(),
        a.cached_slots == slots(a.bitmap@),
        b.cached_slots == slots(b.bitmap@),
    ensures
        saved == saved_slots(*a, *b),
        saved <= a.cached_slots,
        saved <= b.cached_slots,
        saved <= 64,
{
    let mut n: u32 = 0;
    let mut t: usize = 0;
    let ghost both = union(a.bitmap@, b.bitmap@);
    while t < a.bitmap.len()
        invariant
            t <= a.bitmap@.len(),
            a.bitmap@.len() == b.bitmap@.len(),
            both == union(a.bitmap@, b.bitmap@),
            n == slots(both.take(t as int)),
            n <= 64,
        decreases a.bitmap@.len() - t,
    {
        assert(both.take(t + 1).drop_last() =~= both.take(t as int));
        let here: u32 = bits::count_ones(a.bitmap[t] | b.bitmap[t]);
        if here > n {
            n = here;
        }
        t = t + 1;
    }
    proof {
        assert(both.take(t as int) =~= both);
        lemma_union_slots(a.bitmap@, b.bitmap@);
        lemma_slots(a.bitmap@);
        lemma_slots(b.bitmap@);
    }
    a.cached_slots + b.cached_slots - n
}

/// It saves as many slots to merge `b` with `a` as to merge `a` with `b`, and no
/// more than either group takes.
pub proof fn law_savings_are_mutual<C>(a: Group10s<C>, b: Group10s<C>)
    requires
        a.bitmap@.len() == b.bitmap@.len(),
    ensures
        saved_slots(a, b) == saved_slots(b, a),
        0 <= saved_slots(a, b) <= slots(a.bitmap@),
        saved_slots(a, b) <= slots(b.bitmap@),
{
    lemma_union_slots(a.bitmap@, b.bitmap@);
    let (x, y) = (a.bitmap@, b.bitmap@);
    assert forall|t: int| 0 <= t < x.len() implies #[trigger] union(x, y)[t] == union(y, x)[t] by {
        let (p, q) = (x[t], y[t]);
        assert(p | q == q | p) by (bit_vector);
    }
    assert(union(x, y) =~= union(y, x));
}

/// `out` is what merging `src` into `dst` makes.
pub open spec fn is_merged<C: Centroid>(
    dst: Group10s<C>,
    src: Group10s<C>,
    out: Group10s<C>,
) -> bool {
    &&& out.bitmap@ == union(dst.bitmap@, src.bitmap@)
    &&& out.pixels@ == dst.pixels@ + src.pixels@
    &&& call_ensures(C::absorb, (&dst.centroid, &src.centroid), out.centroid)
    &&& exists|heavier: bool| #[trigger]
        call_ensures(C::outweighs, (&src.centroid, &dst.centroid), heavier) && out.flags == if heavier {
            src.flags
        } else {
            dst.flags
        }
    &&& out.cached_slots == slots(out.bitmap@)
}

/// Puts the pixels of `src` into `dst`.
pub fn merge_into<C: Centroid>(dst: &mut Group10s<C>, src: Group10s<C>)
    requires
        old(dst).bitmap@.len() == src.bitmap@.len(),
    ensures
        is_merged(*old(dst), src, *final(dst)),
{
    let mut t: usize = 0;
    while t < dst.bitmap.len()
        invariant
            t <= dst.bitmap@.len(),
            dst.bitmap@.len() == old(dst).bitmap@.len(),
            dst.bitmap@.len() == src.bitmap@.len(),
            dst.pixels == old(dst).pixels,
            dst.centroid == old(dst).centroid,
            dst.flags == old(dst).flags,
            forall|u: int|
                0 <= u < t ==> #[trigger] dst.bitmap@[u] == old(dst).bitmap@[u] | src.bitmap@[u],
            forall|u: int|
                t <= u < dst.bitmap@.len() ==> #[trigger] dst.bitmap@[u] == old(dst).bitmap@[u],
        decreases dst.bitmap@.len() - t,
    {
        let both: u64 = dst.bitmap[t] | src.bitmap[t];
        dst.bitmap[t] = both;
        t = t + 1;
    }
    assert(dst.bitmap@ =~= union(old(dst).bitmap@, src.bitmap@));
    let heavier: bool = src.centroid.outweighs(&dst.centroid);
    if heavier {
        dst.flags = src.flags;
    }
    let centre: C = dst.centroid.absorb(&src.centroid);
    dst.centroid = centre;
    dst.pixels.extend_from_slice(src.pixels.as_slice());
    assert(dst.pixels@ =~= old(dst).pixels@ + src.pixels@);
    dst.recompute_slots();
}

/// Merging two groups of an image makes a group of that image.
pub proof fn lemma_merged_wf<C: Centroid>(
    dst: Group10s<C>,
    src: Group10s<C>,
    out: Group10s<C>,
    tiles: nat,
)
    requires
        dst.wf(tiles),
        src.wf(tiles),
        is_merged(dst, src, out),
    ensures
        out.wf(tiles),
{
    let n = dst.pixels@.len() as int;
    assert forall|t: int, d: int| 0 <= t < tiles && 0 <= d < 64 implies #[trigger] bits::bit(
        out.bitmap@[t],
        d,
    ) == has_pixel(out.pixels@, t, d) by {
        bits::lemma_bit_or(dst.bitmap@[t], src.bitmap@[t], d);
        assert(bits::bit(dst.bitmap@[t], d) == has_pixel(dst.pixels@, t, d));
        assert(bits::bit(src.bitmap@[t], d) == has_pixel(src.pixels@, t, d));
        if has_pixel(dst.pixels@, t, d) {
            let j = choose|j: int|
                0 <= j < n && (#[trigger] dst.pixels@[j]).tile == t && dst.pixels@[j].bucket == d;
            assert(out.pixels@[j] == dst.pixels@[j]);
        }
        if has_pixel(src.pixels@, t, d) {
            let j = choose|j: int|
                0 <= j < src.pixels@.len() && (#[trigger] src.pixels@[j]).tile == t
                    && src.pixels@[j].bucket == d;
            assert(out.pixels@[n + j] == src.pixels@[j]);
        }
        if has_pixel(out.pixels@, t, d) {
            let j = choose|j: int|
                0 <= j < out.pixels@.len() && (#[trigger] out.pixels@[j]).tile == t
                    && out.pixels@[j].bucket == d;
            if j < n {
                assert(dst.pixels@[j] == out.pixels@[j]);
            } else {
                assert(src.pixels@[j - n] == out.pixels@[j]);
            }
        }
    }
    assert forall|j: int| 0 <= j < out.pixels@.len() implies (#[trigger] out.pixels@[j]).tile
        < tiles && out.pixels@[j].bucket < 64 by {
        if j < n {
            assert(dst.pixels@[j] == out.pixels@[j]);
        } else {
            assert(src.pixels@[j - n] == out.pixels@[j]);
        }
    }
}

/// Groups are ordered by red, then green, then blue, then normal x, then normal y, each
/// cut to the four bits that an entry has for it; nothing else counts.
pub proof fn law_groups_are_ordered_by_colour(
    a: [u32; 8],
    b: [u32; 8],
    key_a: u32,
    key_b: u32,
)
    requires
        call_ensures(centroid_sort_key, (&a,), key_a),
        call_ensures(centroid_sort_key, (&b,), key_b),
    ensures
        ({
            let (r, g, l, x, y) = (
                a@[0] % 16,
                a@[1] % 16,
                a@[2] % 16,
                a@[6] % 16,
                a@[7] % 16,
            );
            let (s, h, m, v, w) = (
                b@[0] % 16,
                b@[1] % 16,
                b@[2] % 16,
                b@[6] % 16,
                b@[7] % 16,
            );
            key_a < key_b <==> {
                ||| r < s
                ||| r == s && g < h
                ||| r == s && g == h && l < m
                ||| r == s && g == h && l == m && x < v
                ||| r == s && g == h && l == m && x == v && y < w
            }
        }),
{
}

/// A group takes as many slots as it has depth buckets in the tile where it has the most.
pub proof fn law_slots_are_the_most_in_a_tile(bitmap: Seq<u64>)
    ensures
        forall|t: int| 0 <= t < bitmap.len() ==> bits::ones(#[trigger] bitmap[t]) <= slots(bitmap),
        bitmap.len() > 0 ==> exists|t: int|
            0 <= t < bitmap.len() && bits::ones(#[trigger] bitmap[t]) == slots(bitmap),
        bitmap.len() == 0 ==> slots(bitmap) == 0,
    decreases bitmap.len(),
{
    lemma_slots(bitmap);
    if bitmap.len() > 0 {
        let rest = bitmap.drop_last();
        let n = bitmap.len() - 1;
        law_slots_are_the_most_in_a_tile(rest);
        if slots(bitmap) == bits::ones(bitmap.last()) {
            assert(bitmap[n] == bitmap.last());
        } else {
            let t = choose|t: int|
                0 <= t < rest.len() && bits::ones(#[trigger] rest[t]) == slots(rest);
            assert(bitmap[t] == rest[t]);
        }
    }
}

/// A merged group has the pixels of both, first those of the group that takes the other
/// in, and a depth bucket in a tile where either has it. It takes as many slots as both
/// less those that the merge saves. Its centre is that of the one with the other taken
/// in, and its flags are those of the one that outweighs the other.
pub proof fn law_merging_keeps_both<C: Centroid>(
    dst: Group10s<C>,
    src: Group10s<C>,
    out: Group10s<C>,
    t: int,
    d: int,
)
    requires
        is_merged(dst, src, out),
        dst.bitmap@.len() == src.bitmap@.len(),
        0 <= t < dst.bitmap@.len(),
    ensures
        out.pixels@.len() == dst.pixels@.len() + src.pixels@.len(),
        forall|j: int| 0 <= j < dst.pixels@.len() ==> #[trigger] out.pixels@[j] == dst.pixels@[j],
        forall|j: int|
            0 <= j < src.pixels@.len() ==> out.pixels@[dst.pixels@.len() + j]
                == #[trigger] src.pixels@[j],
        bits::bit(out.bitmap@[t], d) <==> bits::bit(dst.bitmap@[t], d) || bits::bit(
            src.bitmap@[t],
            d,
        ),
        out.cached_slots == slots(dst.bitmap@) + slots(src.bitmap@) - saved_slots(dst, src),
        call_ensures(C::absorb, (&dst.centroid, &src.centroid), out.centroid),
        (forall|heavier: bool| #[trigger]
            call_ensures(C::outweighs, (&src.centroid, &dst.centroid), heavier) ==> heavier)
            ==> out.flags == src.flags,
        (forall|heavier: bool| #[trigger]
            call_ensures(C::outweighs, (&src.centroid, &dst.centroid), heavier) ==> !heavier)
            ==> out.flags == dst.flags,
{
    bits::lemma_bit_or(dst.bitmap@[t], src.bitmap@[t], d);
}

proof fn lemma_filter_more(
    pixels: Seq<Pixel>,
    fewer: spec_fn(Pixel) -> bool,
    more: spec_fn(Pixel) -> bool,
)
    requires
        forall|p: Pixel| #[trigger] fewer(p) ==> more(p),
    ensures
        pixels.filter(fewer).len() <= pixels.filter(more).len(),
        (exists|j: int|
            0 <= j < pixels.len() && more(#[trigger] pixels[j]) && !fewer(pixels[j]))
            ==> pixels.filter(fewer).len() < pixels.filter(more).len(),
    decreases pixels.len(),
{
    reveal(Seq::filter);
    if pixels.len() > 0 {
        let rest = pixels.drop_last();
        lemma_filter_more(rest, fewer, more);
        if exists|j: int|
            0 <= j < pixels.len() && more(#[trigger] pixels[j]) && !fewer(pixels[j]) {
            let j = choose|j: int|
                0 <= j < pixels.len() && more(#[trigger] pixels[j]) && !fewer(pixels[j]);
            if j < rest.len() {
                assert(rest[j] == pixels[j]);
            }
        }
        assert(fewer(pixels.last()) ==> more(pixels.last()));
    }
}

proof fn lemma_ones_pixels(map: u64, pixels: Seq<Pixel>, t: int, n: nat)
    requires
        n <= 64,
        forall|d: int| 0 <= d < 64 ==> #[trigger] bits::bit(map, d) == has_pixel(pixels, t, d),
    ensures
        bits::ones_below(map, n) <= pixels.filter(|p: Pixel| p.tile == t && p.bucket < n).len(),
    decreases n,
{
    if n > 0 {
        lemma_ones_pixels(map, pixels, t, (n - 1) as nat);
        let fewer = |p: Pixel| p.tile == t && p.bucket < (n - 1) as nat;
        let more = |p: Pixel| p.tile == t && p.bucket < n;
        lemma_filter_more(pixels, fewer, more);
        if bits::bit(map, n - 1) {
            assert(has_pixel(pixels, t, n - 1));
            let j = choose|j: int|
                0 <= j < pixels.len() && (#[trigger] pixels[j]).tile == t && pixels[j].bucket == n
                    - 1;
            assert(more(pixels[j]) && !fewer(pixels[j]));
        }
    }
}

/// A group takes no more slots than it has pixels.
pub proof fn law_no_more_slots_than_pixels<C>(g: Group10s<C>, tiles: nat)
    requires
        g.wf(tiles),
    ensures
        slots(g.bitmap@) <= g.pixels@.len(),
{
    broadcast use vstd::seq_lib::group_filter_ensures;

    law_slots_are_the_most_in_a_tile(g.bitmap@);
    if g.bitmap@.len() > 0 {
        let t = choose|t: int|
            0 <= t < g.bitmap@.len() && bits::ones(#[trigger] g.bitmap@[t]) == slots(g.bitmap@);
        lemma_ones_pixels(g.bitmap@[t], g.pixels@, t, 64);
    }
}

} // verus!
