use boimp::quantize::cut::{
    evaluate_split, median_cut, unpack_levels, unpack_point, Metric, Point,
};
use boimp::quantize::group::{
    centroid_sort_key, merge_into, merge_savings, pack_palette_entry_10s, Centroid, Group10s, Pixel,
};
use boimp::quantize::merge::{agglomerative_merge_10s, build_edge};
use boimp::quantize::{depth_bucket, is_alpha_zero, quantize, quantize_10s};
use boimp::texel::{lower_word, pack_key, pack_levels, upper_word};

fn lower(r: u32, g: u32, b: u32, a: u32, rough: u32, metal: u32, flags: u32) -> u32 {
    r | g << 5 | b << 10 | a << 15 | rough << 20 | metal << 24 | flags << 28
}

fn pack(lo: u32, nx: u32, ny: u32, depth: u32) -> [u8; 8] {
    let hi = nx | ny << 12 | depth << 24;
    let mut out = [0u8; 8];
    out[..4].copy_from_slice(&lo.to_le_bytes());
    out[4..].copy_from_slice(&hi.to_le_bytes());
    out
}

fn red(r: u32) -> [u8; 8] {
    pack(lower(r, 0, 0, 31, 0, 0, 0), 0, 0, 0)
}

/// Spreads, weights and means in whole levels.
struct Levels;

impl Metric for Levels {
    fn score(&self, _dim: usize, lo: u32, hi: u32) -> u32 {
        hi - lo
    }

    fn half(&self, points: &Vec<Point>, order: &Vec<usize>) -> usize {
        let total: u64 = order.iter().map(|&i| points[i].count as u64).sum();
        let mut running = 0;
        for (pos, &i) in order.iter().enumerate() {
            running += points[i].count as u64;
            if running * 2 >= total {
                return pos;
            }
        }
        order.len()
    }

    fn centroid(&self, points: &Vec<Point>, members: &Vec<usize>) -> [u32; 9] {
        let total: u64 = members.iter().map(|&i| points[i].count as u64).sum();
        let mean = |d: usize| {
            let sum: u64 = members
                .iter()
                .map(|&i| points[i].levels[d] as u64 * points[i].count as u64)
                .sum();
            (sum / total) as u32
        };
        [0, 1, 2, 3, 4, 5, 6, 7, 8].map(mean)
    }
}

/// The red level and the number of pixels.
#[derive(Clone, Copy, Debug, PartialEq)]
struct Red {
    red: u32,
    pixels: u32,
}

impl Centroid for Red {
    fn seed(levels: &[u32; 9]) -> Self {
        Red { red: levels[0], pixels: 0 }
    }

    fn with_pixel(&self, _alpha: u32) -> Self {
        Red { red: self.red, pixels: self.pixels + 1 }
    }

    fn score(&self, other: &Self, saved: u32) -> u64 {
        saved as u64 * 1000 / (1 + self.red.abs_diff(other.red) as u64)
    }

    fn outweighs(&self, other: &Self) -> bool {
        self.pixels > other.pixels
    }

    fn absorb(&self, other: &Self) -> Self {
        let pixels = self.pixels + other.pixels;
        Red { red: (self.red * self.pixels + other.red * other.pixels) / pixels, pixels }
    }

    fn levels(&self) -> [u32; 8] {
        [self.red % 16, self.red / 16, 0, 0, 0, 0, 0, 0]
    }
}

#[test]
fn words_of_a_texel() {
    let p = [1, 2, 3, 4, 5, 6, 7, 8];
    assert_eq!(lower_word(&p), 0x0403_0201);
    assert_eq!(upper_word(&p), 0x0807_0605);
    assert_eq!(pack_key(&p), 0x0807_0605_0403_0201);
}

#[test]
fn levels_of_a_texel() {
    let p = pack(lower(1, 2, 3, 4, 5, 6, 7), 0xabc, 0xdef, 200);
    let point = unpack_point(pack_key(&p), 9);
    assert_eq!(point.levels, [1, 2, 3, 4, 5, 6, 0xabc, 0xdef, 200]);
    assert_eq!(point.count, 9);
    assert_eq!(point.flags, 7);
}

#[test]
fn alpha_is_five_bits() {
    assert!(is_alpha_zero(&[0; 8]));
    assert!(is_alpha_zero(&pack(lower(31, 31, 31, 0, 15, 15, 15), 1, 2, 3)));
    assert!(!is_alpha_zero(&pack(lower(0, 0, 0, 1, 0, 0, 0), 0, 0, 0)));
    assert!(!is_alpha_zero(&pack(lower(0, 0, 0, 16, 0, 0, 0), 0, 0, 0)));
}

#[test]
fn depth_buckets() {
    assert_eq!(depth_bucket(0), 0);
    assert_eq!(depth_bucket(2), 0);
    assert_eq!(depth_bucket(3), 1);
    assert_eq!(depth_bucket(128), 32);
    assert_eq!(depth_bucket(255), 63);
}

#[test]
fn nothing_to_quantize() {
    let q = quantize(&Levels, &vec![], 4);
    assert!(q.palette.is_empty() && q.indices.is_empty());
    let q = quantize(&Levels, &vec![red(3), [0; 8]], 0);
    assert!(q.palette.is_empty());
    assert_eq!(q.indices, vec![0, 0]);
}

#[test]
fn enough_entries_keep_every_texel() {
    let clear = pack(lower(9, 9, 9, 0, 0, 0, 0), 5, 5, 5);
    let packs = vec![red(3), clear, red(20), [0; 8], red(3)];
    let q = quantize(&Levels, &packs, 3);
    assert_eq!(q.palette.len(), 3);
    assert_eq!(q.palette[0], [0; 8]);
    assert_eq!(q.indices[1], 0);
    assert_eq!(q.indices[3], 0);
    assert_eq!(q.indices[0], q.indices[4]);
    for i in [0, 2, 4] {
        assert_ne!(q.indices[i], 0);
        assert_eq!(q.palette[q.indices[i] as usize], packs[i]);
    }
}

#[test]
fn without_clear_texels_no_entry_is_reserved() {
    let packs = vec![red(3), red(20)];
    let q = quantize(&Levels, &packs, 2);
    assert_eq!(q.palette.len(), 2);
    for i in 0..2 {
        assert_eq!(q.palette[q.indices[i] as usize], packs[i]);
    }
}

#[test]
fn a_single_entry_takes_the_mean_or_nothing() {
    let q = quantize(&Levels, &vec![red(10), red(20)], 1);
    assert_eq!(q.palette, vec![red(15)]);
    assert_eq!(q.indices, vec![0, 0]);
    // The one entry is for what is clear.
    let q = quantize(&Levels, &vec![red(10), [0; 8]], 1);
    assert_eq!(q.palette, vec![[0; 8]]);
    assert_eq!(q.indices, vec![0, 0]);
}

#[test]
fn the_palette_stays_within_its_budget() {
    let packs: Vec<[u8; 8]> = (0..200u32)
        .map(|i| pack(lower(i % 32, i * 7 % 32, i * 3 % 32, i % 5, 0, 0, 0), i, 2 * i, i))
        .collect();
    for k in 1..40 {
        let q = quantize(&Levels, &packs, k);
        assert!(q.palette.len() <= k);
        assert_eq!(q.indices.len(), packs.len());
        let mut used = vec![false; q.palette.len()];
        for (p, &i) in packs.iter().zip(&q.indices) {
            used[i as usize] = true;
            assert!(!is_alpha_zero(p) || i == 0);
            assert!(k == 1 || is_alpha_zero(p) || i > 0);
        }
        assert_eq!(used, vec![true; q.palette.len()]);
    }
}

#[test]
fn flags_are_voted_on() {
    let with = |r, flags| pack(lower(r, 0, 0, 31, 0, 0, flags), 0, 0, 0);
    let packs = vec![with(1, 2), with(1, 2), with(2, 5), with(1, 2), with(3, 5)];
    let q = quantize(&Levels, &packs, 1);
    assert_eq!(q.palette, vec![with(1, 2)]);
}

fn points(reds: &[u32]) -> Vec<Point> {
    reds.iter().map(|&r| unpack_point(pack_key(&red(r)), 1)).collect()
}

#[test]
fn a_split_is_at_the_median_of_the_widest_dimension() {
    let points = points(&[9, 1, 5, 3]);
    let c = evaluate_split(&Levels, &points, vec![0, 1, 2, 3]);
    assert_eq!(c.split_dim, 0);
    assert_eq!(c.split_score, 8);
    assert_eq!(c.indices, vec![1, 3, 2, 0]);
    assert_eq!(c.split_at, 2);
    let c = evaluate_split(&Levels, &points, vec![2]);
    assert_eq!((c.split_dim, c.split_score, c.indices), (0, 0, vec![2]));
}

#[test]
fn a_cut_partitions_the_points() {
    let points = points(&[0, 31, 1, 30, 2, 16]);
    let mut bucket_of = vec![0; 6];
    let mut next_id = 1;
    median_cut(&Levels, &points, (0..6).collect(), &mut bucket_of, &mut next_id, 3);
    assert_eq!(next_id, 4);
    assert!(bucket_of.iter().all(|&b| (1..4).contains(&b)));
    // The widest bucket is split first: 0, 1, 2 against 16, 30, 31, then 16 off.
    assert_eq!(bucket_of[0], bucket_of[2]);
    assert_eq!(bucket_of[0], bucket_of[4]);
    assert_ne!(bucket_of[0], bucket_of[1]);
    assert_ne!(bucket_of[5], bucket_of[1]);
}

fn with_depth(r: u32, depth: u32) -> [u8; 8] {
    pack(lower(r, 0, 0, 31, 0, 0, 2), 0, 0, depth)
}

#[test]
fn one_slot_for_each_depth_of_a_tile() {
    let packs = vec![with_depth(7, 0), with_depth(7, 255), [0; 8], with_depth(7, 128)];
    let q = quantize_10s::<Red>(&packs, &vec![0, 0, 0, 1], 2, 4).unwrap();
    let entry = 7 | 2 << 19;
    assert_eq!(q.palette, vec![0, entry, entry, 0]);
    // The other tile has one depth, in the first slot of the group.
    assert_eq!(q.indices, vec![1, 2, 0, 1]);
    // Two slots to a byte, two bytes to a tile: 15 in slot 2 of the first tile,
    // 128 * 15 / 255 rounded in slot 1 of the second.
    assert_eq!(q.depth_palette, vec![0x00, 0x0f, 0x80, 0x00]);
}

#[test]
fn depths_of_one_bucket_are_averaged() {
    let packs = vec![with_depth(7, 100), with_depth(7, 101), with_depth(7, 102)];
    let q = quantize_10s::<Red>(&packs, &vec![0, 0, 0], 1, 2).unwrap();
    assert_eq!(q.indices, vec![1, 1, 1]);
    assert_eq!(q.depth_palette, vec![6 << 4]);
}

#[test]
fn small_palettes_hold_nothing() {
    let q = quantize_10s::<Red>(&vec![with_depth(1, 1)], &vec![0], 3, 1).unwrap();
    assert_eq!(q.palette, vec![0]);
    assert_eq!(q.indices, vec![0]);
    assert_eq!(q.depth_palette, vec![0; 3]);
    let q = quantize_10s::<Red>(&vec![], &vec![], 3, 0).unwrap();
    assert!(q.palette.is_empty() && q.indices.is_empty() && q.depth_palette.is_empty());
    let q = quantize_10s::<Red>(&vec![with_depth(1, 1)], &vec![0], 3, 0).unwrap();
    assert_eq!((q.palette.len(), q.indices, q.depth_palette.len()), (0, vec![0], 0));
    let q = quantize_10s::<Red>(&vec![], &vec![], 2, 8).unwrap();
    assert_eq!((q.palette.len(), q.indices.len(), q.depth_palette.len()), (8, 0, 8));
}

#[test]
fn a_group_that_needs_too_many_slots_overflows() {
    let packs = vec![with_depth(7, 0), with_depth(7, 255)];
    assert!(quantize_10s::<Red>(&packs, &vec![0, 0], 1, 2).is_none());
    assert!(quantize_10s::<Red>(&packs, &vec![0, 1], 2, 2).is_some());
}

#[test]
fn close_groups_merge_first() {
    // Three groups, one slot each, and room for two.
    let packs = vec![with_depth(1, 9), with_depth(30, 9), with_depth(3, 9)];
    let q = quantize_10s::<Red>(&packs, &vec![0, 0, 0], 1, 4).unwrap();
    assert!(q.indices.iter().all(|&i| i > 0));
    let q = quantize_10s::<Red>(
        &vec![with_depth(1, 9), with_depth(30, 9), with_depth(3, 9), with_depth(10, 9)],
        &vec![0; 4],
        1,
        4,
    )
    .unwrap();
    assert_eq!(q.indices[0], q.indices[2]);
    assert_ne!(q.indices[0], q.indices[1]);
    assert_ne!(q.indices[0], q.indices[3]);
    assert_eq!(q.palette[q.indices[0] as usize] & 0x7ffff, 2);
}

#[test]
fn indices_keep_depths_apart() {
    let packs: Vec<[u8; 8]> = (0..60u32).map(|i| with_depth(i * 5 % 32, i * 37 % 256)).collect();
    let tiles: Vec<u16> = (0..60).map(|i| i % 4).collect();
    let q = quantize_10s::<Red>(&packs, &tiles, 4, 32).unwrap();
    for i in 0..60 {
        assert!(q.indices[i] > 0);
        for j in 0..60 {
            let bucket = |p: &[u8; 8]| depth_bucket(p[7] as u32);
            if tiles[i] == tiles[j] && q.indices[i] == q.indices[j] {
                assert_eq!(bucket(&packs[i]), bucket(&packs[j]));
            }
        }
    }
}

fn group(bitmap: Vec<u64>, red: u32, pixels: u32, flags: u32) -> Group10s<Red> {
    let mut g = Group10s {
        bitmap,
        pixels: vec![Pixel { index: red as usize, bucket: 0, tile: 0 }],
        centroid: Red { red, pixels },
        flags,
        cached_slots: 0,
    };
    g.recompute_slots();
    g
}

#[test]
fn slots_are_the_most_depths_of_any_tile() {
    let a = group(vec![0b0111, 0b0001], 1, 1, 0);
    assert_eq!(a.slot_count(), 3);
    let b = group(vec![0b0001, 0b1001], 1, 1, 0);
    assert_eq!(b.slot_count(), 2);
    assert_eq!(merge_savings(&a, &b), 2);
    assert_eq!(merge_savings(&b, &a), 2);
    let c = group(vec![0b1000, 0b1110], 1, 1, 0);
    assert_eq!(merge_savings(&a, &c), 2);
    assert_eq!(group(vec![], 1, 1, 0).slot_count(), 0);
}

#[test]
fn an_edge_joins_two_groups_in_either_order() {
    let groups = vec![
        Some(group(vec![0b0111, 0b0001], 1, 1, 0)),
        None,
        Some(group(vec![0b0001, 0b1001], 5, 1, 0)),
        Some(group(vec![0b1000, 0b0000], 9, 1, 0)),
    ];
    let gens = vec![3, 0, 4, 5];
    let (score, e) = build_edge(&groups, &gens, 2, 0).unwrap();
    assert_eq!(score, 2 * 1000 / 5);
    assert_eq!((e.a, e.b, e.gen_a, e.gen_b), (0, 2, 3, 4));
    let (again, f) = build_edge(&groups, &gens, 0, 2).unwrap();
    assert_eq!((score, e.a, e.b), (again, f.a, f.b));
    // These two have no depth of a tile in common.
    assert!(build_edge(&groups, &gens, 0, 3).is_none());
}

#[test]
fn what_is_seen_stays_seen() {
    let packs: Vec<[u8; 8]> = (0..64u32)
        .map(|i| pack(lower(i % 32, i / 2, 0, i % 5, 0, 0, i % 3), i * 60, 0, i * 4))
        .collect();
    for k in [2, 3, 7, 40] {
        let q = quantize(&Levels, &packs, k);
        for (i, p) in packs.iter().enumerate() {
            let shown = q.palette[q.indices[i] as usize];
            assert_eq!(is_alpha_zero(&shown), is_alpha_zero(p));
        }
    }
}

#[test]
fn fields_of_a_palette_entry() {
    assert_eq!(pack_palette_entry_10s(&[1, 2, 3, 4, 1, 2, 5, 6], 9), 0x32cc_c321);
    assert_eq!(pack_palette_entry_10s(&[u32::MAX; 8], u32::MAX), 0x7fff_ffff);
    assert_eq!(centroid_sort_key(&[1, 2, 3, 4, 1, 2, 5, 6]), 0x1235_6000);
}

#[test]
fn levels_go_into_a_texel() {
    let levels = [1, 2, 3, 4, 5, 6, 0xabc, 0xdef, 200];
    let p = pack_levels(&levels, 7);
    assert_eq!(p, pack(lower(1, 2, 3, 4, 5, 6, 7), 0xabc, 0xdef, 200));
    assert_eq!(unpack_levels(lower_word(&p), upper_word(&p)), levels);
    assert_eq!(pack_levels(&[u32::MAX; 9], u32::MAX), [0xff; 8]);
}

#[test]
fn a_merge_takes_the_heavier_flags() {
    let mut a = group(vec![0b01], 10, 1, 3);
    merge_into(&mut a, group(vec![0b10], 20, 3, 5));
    assert_eq!(a.flags, 5);
    assert_eq!(a.centroid, Red { red: 17, pixels: 4 });
    assert_eq!(a.bitmap, vec![0b11]);
    assert_eq!(a.pixels.len(), 2);
    assert_eq!(a.slot_count(), 2);
    merge_into(&mut a, group(vec![0b01], 1, 4, 9));
    assert_eq!(a.flags, 5);
}

#[test]
fn merging_stops_at_the_target_or_where_nothing_is_saved() {
    let groups = || (0..8).map(|i| group(vec![1], i * 4, 1, 0)).collect::<Vec<_>>();
    let total = |gs: &[Group10s<Red>]| gs.iter().map(|g| g.slot_count()).sum::<u32>();
    for target in 1..9 {
        let after = agglomerative_merge_10s(groups(), target);
        assert_eq!(total(&after), target);
        assert_eq!(after.iter().map(|g| g.pixels.len()).sum::<usize>(), 8);
    }
    let mut pixels: Vec<usize> = agglomerative_merge_10s(groups(), 3)
        .iter()
        .flat_map(|g| g.pixels.iter().map(|p| p.index).collect::<Vec<_>>())
        .collect();
    pixels.sort();
    assert_eq!(pixels, vec![0, 4, 8, 12, 16, 20, 24, 28]);
    // No two of these share a depth in a tile.
    let apart: Vec<Group10s<Red>> = (0..4).map(|i| group(vec![1 << i], i, 1, 0)).collect();
    assert_eq!(agglomerative_merge_10s(apart, 1).len(), 4);
}
