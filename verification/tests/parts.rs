use boimp::asset_loader::save::{flat_palette_bytes, near_square, tile_indices, wide_palette_bytes};
use boimp::asset_loader::texels::{number_bytes, number_texels, split_packs};
use boimp::bits::{count_ones, rank};
use boimp::grid::{parse_mode, GridBits, GridMode};
use boimp::heap::MaxHeap;
use boimp::planes::{highs, lows, nibbles, pack_nibbles, pack_quarters};
use boimp::raster::{pack_asset, Raster};
use boimp::render::{
    imposter_flags, layout_flags, specialize, ShaderFlag, INDEXED_FLAG, INDEXED_V2_FLAG,
    RENDER_MULTISAMPLE_FLAG, V2_HAS_HIGH_BYTE_FLAG, V2_HAS_HIGH_NIBBLE_FLAG, V2_IDX10S_FLAG,
    V2_V3_FLAG,
};
use boimp::settings::{
    format_settings, parse_number, parse_settings, push_number, split_fields, Settings,
    SettingsError, V2Settings,
};
use boimp::sort::stable_order;

const BITS: GridBits = GridBits { mask: 3, spherical: 0, hemispherical: 1, horizontal: 2 };

#[test]
fn bits_below() {
    assert_eq!(count_ones(0), 0);
    assert_eq!(count_ones(u64::MAX), 64);
    assert_eq!(count_ones(0b1011), 3);
    assert_eq!(rank(0b1011, 0), 0);
    assert_eq!(rank(0b1011, 3), 2);
    assert_eq!(rank(u64::MAX, 63), 63);
}

#[test]
fn equal_keys_keep_their_order() {
    assert_eq!(stable_order(&vec![3, 1, 2, 1, 3]), vec![1, 3, 2, 0, 4]);
    assert!(stable_order(&vec![]).is_empty());
}

#[test]
fn a_heap_gives_the_greatest_first() {
    let mut heap: MaxHeap<u32> = MaxHeap::new();
    assert_eq!(heap.pop(), None);
    for (i, key) in [5, 1, 9, 3, 9, 0].into_iter().enumerate() {
        heap.push(key, i as u32);
    }
    assert_eq!(heap.len(), 6);
    let mut keys = Vec::new();
    while let Some((key, _)) = heap.pop() {
        keys.push(key);
    }
    assert_eq!(keys, vec![9, 9, 5, 3, 1, 0]);
}

#[test]
fn nibbles_two_to_a_byte() {
    assert_eq!(pack_nibbles(&vec![1, 2, 3, 4, 5, 6], 3, 2), vec![0x21, 0x03, 0x54, 0x06]);
    assert_eq!(pack_nibbles(&vec![], 0, 3), Vec::<u8>::new());
}

#[test]
fn quarters_four_to_a_byte() {
    assert_eq!(pack_quarters(&vec![3, 2, 1, 0, 1], 5, 1), vec![0b00_01_10_11, 0b01]);
}

#[test]
fn indices_in_planes_come_back() {
    let indices: Vec<u16> = vec![0, 255, 256, 0x3ff, 0xfff, 0x3fff];
    assert_eq!(lows(&indices), vec![0, 255, 0, 255, 255, 255]);
    assert_eq!(highs(&indices, 16), vec![0, 0, 1, 3, 15, 15]);
    assert_eq!(highs(&indices, 4), vec![0, 0, 1, 3, 3, 3]);
    let high = highs(&indices, 64);
    assert_eq!(high, vec![0, 0, 1, 3, 15, 63]);
    let low = lows(&indices);
    for i in 0..6 {
        assert_eq!(low[i] as u16 + 256 * high[i] as u16, indices[i]);
    }
    assert_eq!(nibbles(&vec![0, 15, 16, 255]), vec![0, 15, 0, 15]);
}

#[test]
fn numbers_in_fields() {
    let parse = |s: &str| parse_number(&s.as_bytes().to_vec());
    assert_eq!(parse("0"), Some(0));
    assert_eq!(parse("+7"), Some(7));
    assert_eq!(parse("007"), Some(7));
    assert_eq!(parse("4294967295"), Some(u32::MAX));
    assert_eq!(parse("4294967296"), None);
    assert_eq!(parse(""), None);
    assert_eq!(parse("+"), None);
    assert_eq!(parse("-1"), None);
    assert_eq!(parse("1 "), None);
    for s in ["0", "+7", "007", "4294967295", "4294967296", "", "+", "-1", "1 ", "++1"] {
        assert_eq!(parse(s), s.parse::<u32>().ok());
    }
    let mut line = b"x".to_vec();
    push_number(&mut line, 40960);
    push_number(&mut line, 0);
    assert_eq!(line, b"x409600".to_vec());
}

#[test]
fn fields_between_spaces() {
    let split = |s: &str| split_fields(&s.as_bytes().to_vec());
    assert_eq!(split("a bc"), vec![b"a".to_vec(), b"bc".to_vec()]);
    assert_eq!(split(" "), vec![Vec::<u8>::new(), Vec::new()]);
    assert_eq!(split(""), vec![Vec::<u8>::new()]);
}

fn parse(s: &str) -> Result<Settings, SettingsError> {
    parse_settings(&s.as_bytes().to_vec())
}

#[test]
fn settings_come_back() {
    let s = Settings {
        grid_size: 8,
        scale: b"1.5".to_vec(),
        mode: b"spherical".to_vec(),
        base_tile_size: 64,
        offset: (3, 4),
        size: (50, 60),
        v2: Some(V2Settings {
            variant: b"idx12".to_vec(),
            palette_count: 1000,
            palette_x: 32,
            palette_y: 32,
        }),
    };
    let line = format_settings(&s);
    assert_eq!(line, b"8 1.5 spherical 64 3 4 50 60 v2 idx12 1000 32 32".to_vec());
    let back = match parse_settings(&line) {
        Ok(back) => back,
        Err(_) => panic!("unreadable"),
    };
    assert_eq!(back.grid_size, 8);
    assert_eq!(back.scale, s.scale);
    assert_eq!(back.mode, s.mode);
    assert_eq!(back.base_tile_size, 64);
    assert_eq!(back.offset, (3, 4));
    assert_eq!(back.size, (50, 60));
    let v2 = back.v2.unwrap();
    assert_eq!(v2.variant, b"idx12".to_vec());
    assert_eq!((v2.palette_count, v2.palette_x, v2.palette_y), (1000, 32, 32));
}

#[test]
fn settings_without_a_second_part() {
    let s = parse("8 1 Horizontal 64 0 0 64 64 more").ok().unwrap();
    assert!(s.v2.is_none());
    assert_eq!(format_settings(&s), b"8 1 Horizontal 64 0 0 64 64".to_vec());
}

#[test]
fn settings_that_cannot_be_read() {
    assert_eq!(parse_settings(&vec![0xff, 0xfe]).err(), Some(SettingsError::NotText));
    assert_eq!(parse("8 1 spherical 64 0 0 64").err(), Some(SettingsError::TooFewFields));
    assert_eq!(parse("x 1 spherical 64 0 0 64 64").err(), Some(SettingsError::BadNumber));
    assert_eq!(parse("8 1 spherical 64 0 0 64 -1").err(), Some(SettingsError::BadNumber));
    assert_eq!(
        parse("8 1 spherical 64 0 0 64 64 v2").err(),
        Some(SettingsError::MissingV2Field)
    );
    assert_eq!(
        parse("8 1 spherical 64 0 0 64 64 v2 idx8 4 2").err(),
        Some(SettingsError::MissingV2Field)
    );
    assert_eq!(
        parse("8 1 spherical 64 0 0 64 64 v2 idx8 4 2 b").err(),
        Some(SettingsError::BadNumber)
    );
}

#[test]
fn grid_modes_by_name() {
    for mode in [GridMode::Spherical, GridMode::Hemispherical, GridMode::Horizontal] {
        assert_eq!(parse_mode(&mode.name().as_bytes().to_vec()), Some(mode));
    }
    assert_eq!(GridMode::Horizontal.name(), "Horizontal");
    assert_eq!(parse_mode(&b"horizontal".to_vec()), None);
    assert_eq!(BITS.as_flags(GridMode::Horizontal), 2);
}

#[test]
fn flags_tell_the_shaders_what_they_were_made_of() {
    let flags = imposter_flags(&BITS, GridMode::Hemispherical, true, true);
    assert_eq!(flags, 1 + RENDER_MULTISAMPLE_FLAG + INDEXED_FLAG);
    assert_eq!(
        specialize(&BITS, flags),
        Some((
            vec![ShaderFlag::GridHemispherical],
            vec![
                ShaderFlag::MaterialMultisample,
                ShaderFlag::GridHemispherical,
                ShaderFlag::IndexedPixels,
            ]
        ))
    );
    assert_eq!(imposter_flags(&BITS, GridMode::Spherical, false, false), 0);
    assert_eq!(specialize(&BITS, 3), None);
}

#[test]
fn layouts_of_the_second_format() {
    let cases: [(u32, &[ShaderFlag]); 7] = [
        (0, &[]),
        (V2_HAS_HIGH_NIBBLE_FLAG, &[ShaderFlag::IndexedV2Idx12]),
        (V2_HAS_HIGH_BYTE_FLAG, &[ShaderFlag::IndexedV2Idx14]),
        (V2_IDX10S_FLAG, &[ShaderFlag::IndexedV2Idx10s]),
        (V2_V3_FLAG, &[ShaderFlag::IndexedV3]),
        (
            V2_V3_FLAG | V2_HAS_HIGH_NIBBLE_FLAG,
            &[ShaderFlag::IndexedV3, ShaderFlag::IndexedV3Idx12],
        ),
        (V2_IDX10S_FLAG | V2_HAS_HIGH_BYTE_FLAG, &[ShaderFlag::IndexedV2Idx10s]),
    ];
    for (layout, told) in cases {
        let flags = layout_flags(&BITS, GridMode::Spherical, false, INDEXED_V2_FLAG | layout);
        let (vertex, fragment) = specialize(&BITS, flags).unwrap();
        assert_eq!(vertex, vec![ShaderFlag::GridSpherical]);
        let mut expected = vec![ShaderFlag::GridSpherical, ShaderFlag::IndexedV2];
        expected.extend_from_slice(told);
        assert_eq!(fragment, expected);
    }
    assert_eq!(ShaderFlag::IndexedV2Idx10s.name(), "INDEXED_V2_10S");
    assert_eq!(ShaderFlag::IndexedV3Idx12.name(), "INDEXED_V3_12");
    // Layout flags say nothing without the flag of the second format.
    assert_eq!(specialize(&BITS, V2_V3_FLAG).unwrap().1, vec![ShaderFlag::GridSpherical]);
}

/// A raster with these texels, given by column and row, set.
fn raster(width: u32, height: u32, set: &[(u32, u32, u8)]) -> Raster {
    let mut data = vec![0; (width * height * 8) as usize];
    for &(x, y, v) in set {
        data[((y * width + x) * 8) as usize] = v;
    }
    Raster { width, height, data }
}

#[test]
fn unused_edges_of_the_tiles_are_cut_off() {
    // Two tiles of 4 texels to a side; they use columns 1 to 2 and rows 2 to 3.
    let image = raster(8, 8, &[(1, 2, 10), (6, 3, 20), (5, 6, 30)]);
    let (packed, offset, size) = pack_asset(2, &image);
    assert_eq!(offset, (1, 2));
    assert_eq!(size, (2, 2));
    assert_eq!((packed.width, packed.height), (4, 4));
    let expected = raster(4, 4, &[(0, 0, 10), (3, 1, 20), (2, 2, 30)]);
    assert_eq!(packed.data, expected.data);
}

#[test]
fn a_tile_that_uses_its_edges_stays() {
    let image = raster(4, 4, &[(0, 0, 1), (3, 3, 2)]);
    let (packed, offset, size) = pack_asset(1, &image);
    assert_eq!((offset, size), ((0, 0), (4, 4)));
    assert_eq!(packed.data, image.data);
}

#[test]
fn of_an_unused_image_one_texel_stays() {
    let mut image = raster(4, 4, &[]);
    // A normal or a depth alone is no use.
    image.data[4] = 9;
    let (packed, offset, size) = pack_asset(2, &image);
    assert_eq!((offset, size), ((0, 0), (1, 1)));
    assert_eq!((packed.width, packed.height), (2, 2));
    assert_eq!(packed.data[4], 9);
}

#[test]
fn palettes_as_bytes() {
    assert_eq!(
        wide_palette_bytes(&vec![[1, 2, 3, 4, 5, 6, 7, 8]], 2),
        vec![1, 2, 3, 4, 5, 6, 7, 8, 0, 0, 0, 0, 0, 0, 0, 0]
    );
    // What there is no place for is left out.
    assert_eq!(wide_palette_bytes(&vec![[1; 8], [2; 8]], 1), vec![1; 8]);
    assert_eq!(flat_palette_bytes(&vec![0x0403_0201], 2), vec![1, 2, 3, 4, 0, 0, 0, 0]);
}

#[test]
fn nearly_square_palettes() {
    assert_eq!(near_square(0), (1, 1));
    assert_eq!(near_square(1), (1, 1));
    assert_eq!(near_square(2), (2, 1));
    assert_eq!(near_square(5), (3, 2));
    assert_eq!(near_square(256), (16, 16));
    assert_eq!(near_square(257), (17, 16));
    assert_eq!(near_square(1024), (32, 32));
    for n in 1..5000u32 {
        let x = (n as f32).sqrt().ceil() as u32;
        assert_eq!(near_square(n), (x, n.div_ceil(x)));
    }
}

#[test]
fn tiles_of_pixels() {
    assert_eq!(
        tile_indices(4, 3, 2, (2, 2)),
        vec![0, 0, 1, 1, 0, 0, 1, 1, 2, 2, 3, 3]
    );
    // The numbers go on beside and below the grid, and have 16 bits.
    assert_eq!(tile_indices(3, 1, 1, (2, 2)), vec![0, 0, 1]);
    assert_eq!(tile_indices(1, 3, 0x8000, (1, 1)), vec![0, 0x8000, 0]);
    assert!(tile_indices(0, 3, 1, (0, 0)).is_empty());
}

#[test]
fn texels_by_number() {
    let data = vec![2, 0, 0, 0, 0, 0, 0, 0, 1, 0, 0, 0, 0, 0, 0, 9, 2, 0, 0, 0, 0, 0, 0, 0, 5];
    let packs = split_packs(&data);
    assert_eq!(packs.len(), 3);
    let (distinct, numbers) = number_texels(&packs);
    // In the order of their bytes.
    assert_eq!(distinct, vec![[1, 0, 0, 0, 0, 0, 0, 9], [2, 0, 0, 0, 0, 0, 0, 0]]);
    assert_eq!(numbers, vec![1, 0, 1]);
    for i in 0..3 {
        assert_eq!(distinct[numbers[i]], packs[i]);
    }
}

#[test]
fn numbers_as_bytes() {
    let numbers = vec![1, 0x203, 4, 5, 6, 7];
    // Rows of an odd number of short numbers are filled up.
    assert_eq!(
        number_bytes(&numbers, 3, 2, true),
        vec![1, 0, 3, 2, 4, 0, 0, 0, 5, 0, 6, 0, 7, 0, 0, 0]
    );
    assert_eq!(number_bytes(&vec![0x0403_0201], 1, 1, false), vec![1, 2, 3, 4]);
}
