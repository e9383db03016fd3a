use std::io::{Cursor, Read, Write};

use boimp::asset_loader::load::{assemble, make_dummy_plane, make_plans};
use boimp::asset_loader::save::{
    index_images, texel_square, write_asset_v2_idx10s, write_asset_v2_v3, write_files, write_flat,
    write_quantized, Choices, FlatResult, Header, ImageFile, Verdict,
};
use boimp::asset_loader::{
    parse_variant, write_asset, write_asset_v2, AssetError, Failure, ImposterLoader,
    LoadedImposter, PlaneFormat, Variant,
};
use boimp::archive::File;
use boimp::grid::{GridBits, GridMode};
use boimp::quantize::cut::{Metric, Point};
use boimp::quantize::group::Centroid;
use boimp::quantize::QuantResult;
use boimp::raster::Raster;
use boimp::render::{INDEXED_FLAG, INDEXED_V2_FLAG, RENDER_MULTISAMPLE_FLAG, V2_IDX10S_FLAG};
use boimp::settings::{Settings, SettingsError};

const BITS: GridBits = GridBits { mask: 3, spherical: 0, hemispherical: 1, horizontal: 2 };

fn shape(n: usize) -> (u32, u32) {
    let x = (n as f32).sqrt().ceil() as u32;
    (x, (n as f32 / x as f32).ceil() as u32)
}

fn byte_shape(n: usize) -> (u32, u32) {
    let x = (n as f32 / 8.0).sqrt().ceil() as u32;
    (x, (n as f32 / (8 * x) as f32).ceil() as u32)
}

fn load(bytes: Vec<u8>) -> Result<LoadedImposter, AssetError> {
    ImposterLoader.load(bytes, false, &BITS, byte_shape)
}

fn failure(r: Result<LoadedImposter, AssetError>) -> Failure {
    match r {
        Ok(_) => panic!("loaded"),
        Err(e) => e.kind(),
    }
}

fn unpack(r: Result<Vec<u8>, AssetError>) -> Vec<u8> {
    match r {
        Ok(bytes) => bytes,
        Err(e) => panic!("{:?}", e.kind()),
    }
}

/// What a file of an archive holds.
fn file(bytes: &[u8], name: &str) -> Option<Vec<u8>> {
    let mut archive = zip::ZipArchive::new(Cursor::new(bytes)).unwrap();
    let mut out = Vec::new();
    let found = match archive.by_name(name) {
        Ok(mut f) => {
            f.read_to_end(&mut out).unwrap();
            true
        }
        Err(_) => false,
    };
    found.then_some(out)
}

/// The kind of pixels that an image in an archive has.
fn colour(bytes: &[u8], name: &str) -> image::ColorType {
    let png = file(bytes, name).unwrap();
    image::load_from_memory_with_format(&png, image::ImageFormat::Png).unwrap().color()
}

/// The names of the files in an archive.
fn names(bytes: &[u8]) -> Vec<String> {
    let archive = zip::ZipArchive::new(Cursor::new(bytes)).unwrap();
    let mut names: Vec<String> = archive.file_names().map(|n| n.to_string()).collect();
    names.sort();
    names
}

/// The samples of an image in an archive, and its size.
fn samples(bytes: &[u8], name: &str) -> (u32, u32, Vec<u8>) {
    let png = file(bytes, name).unwrap();
    let decoded = image::load_from_memory_with_format(&png, image::ImageFormat::Png).unwrap();
    (decoded.width(), decoded.height(), decoded.into_bytes())
}

fn archive(files: &[(&str, &[u8])]) -> Vec<u8> {
    let mut writer = zip::ZipWriter::new(Cursor::new(Vec::new()));
    for (name, data) in files {
        writer
            .start_file(
                *name,
                zip::write::SimpleFileOptions::default()
                    .compression_method(zip::CompressionMethod::Stored),
            )
            .unwrap();
        writer.write_all(data).unwrap();
    }
    writer.finish().unwrap().into_inner()
}

fn luma_png(w: u32, h: u32, data: Vec<u8>) -> Vec<u8> {
    let buffer = image::ImageBuffer::from_raw(w, h, data).unwrap();
    let mut cursor = Cursor::new(Vec::new());
    image::DynamicImage::ImageLuma8(buffer)
        .write_to(&mut cursor, image::ImageFormat::Png)
        .unwrap();
    cursor.into_inner()
}

fn rgba_png(w: u32, h: u32, data: Vec<u8>) -> Vec<u8> {
    let buffer = image::ImageBuffer::from_raw(w, h, data).unwrap();
    let mut cursor = Cursor::new(Vec::new());
    image::DynamicImage::ImageRgba8(buffer)
        .write_to(&mut cursor, image::ImageFormat::Png)
        .unwrap();
    cursor.into_inner()
}

/// An image whose texels take `n` values, all visible.
fn image_of(w: u32, h: u32, n: u32) -> Raster {
    let mut data = Vec::new();
    for i in 0..w * h {
        let v = i % n;
        let lo = v % 32 | (v / 32 % 32) << 5 | 31 << 15;
        data.extend(lo.to_le_bytes());
        data.extend((v << 24 | v).to_le_bytes());
    }
    Raster { width: w, height: h, data }
}

fn header(grid_size: u32, size: (u32, u32)) -> Header {
    Header {
        scale: b"2.5".to_vec(),
        grid_size,
        tile_size: 16,
        mode: GridMode::Hemispherical,
        packed_offset: (1, 2),
        packed_size: size,
    }
}

struct Levels;

impl Metric for Levels {
    fn score(&self, _dim: usize, lo: u32, hi: u32) -> u32 {
        hi - lo
    }

    fn half(&self, _points: &Vec<Point>, order: &Vec<usize>) -> usize {
        (order.len() - 1) / 2
    }

    fn centroid(&self, points: &Vec<Point>, members: &Vec<usize>) -> [u32; 9] {
        points[members[0]].levels
    }
}

#[derive(Clone, Copy)]
struct Word(u32);

impl Centroid for Word {
    fn seed(levels: &[u32; 9]) -> Self {
        Word(levels[0])
    }

    fn with_pixel(&self, _alpha: u32) -> Self {
        *self
    }

    fn score(&self, _other: &Self, saved: u32) -> u64 {
        saved as u64
    }

    fn outweighs(&self, _other: &Self) -> bool {
        false
    }

    fn absorb(&self, _other: &Self) -> Self {
        *self
    }

    fn levels(&self) -> [u32; 8] {
        [self.0 % 16, self.0 / 16, 0, 0, 0, 0, 0, 0]
    }
}

fn flatten(packs: &Vec<[u8; 8]>) -> FlatResult {
    FlatResult {
        palette: vec![0, 0x0403_0201],
        indices: vec![1; packs.len()],
        depths: packs.iter().map(|p| p[7] / 16).collect(),
    }
}

const PLAIN: Choices = Choices { allow_v3: true, emit_idx10s: false, no_idx14: false };

#[test]
fn variants_by_name() {
    for v in [
        Variant::Idx8,
        Variant::Idx12,
        Variant::Idx14,
        Variant::Idx10s,
        Variant::V3Idx8,
        Variant::V3Idx12,
    ] {
        assert_eq!(parse_variant(&v.name().as_bytes().to_vec()), Some(v));
        assert_eq!(v.flags() & INDEXED_V2_FLAG, INDEXED_V2_FLAG);
    }
    assert_eq!(parse_variant(&b"idx9".to_vec()), None);
    assert_eq!(Variant::Idx10s.flags(), INDEXED_V2_FLAG + V2_IDX10S_FLAG);
}

#[test]
fn a_texture_comes_back() {
    let image = image_of(4, 4, 16);
    let data = image.data.clone();
    let bytes = unpack(write_asset(
        b"1.5".to_vec(),
        2,
        2,
        GridMode::Spherical,
        image,
        false,
        false,
        shape,
    ));
    assert_eq!(file(&bytes, "settings.txt").unwrap(), b"2 1.5 spherical 2 0 0 2 2");
    assert_eq!(samples(&bytes, "texture.png"), (8, 4, data.clone()));
    let loaded = match ImposterLoader.load(bytes, true, &BITS, byte_shape) {
        Ok(loaded) => loaded,
        Err(e) => panic!("{:?}", e.kind()),
    };
    assert_eq!(loaded.grid_size, 2);
    assert_eq!(loaded.scale, b"1.5");
    assert_eq!(loaded.base_tile_size, 2);
    assert_eq!(loaded.packed_tile_offset, (0, 0));
    assert_eq!(loaded.packed_tile_size, (2, 2));
    assert_eq!(loaded.flags, RENDER_MULTISAMPLE_FLAG);
    assert_eq!(loaded.pixels.label, "texture");
    assert_eq!((loaded.pixels.width, loaded.pixels.height), (4, 4));
    assert_eq!(loaded.pixels.format, PlaneFormat::Rg32Uint);
    assert_eq!(loaded.pixels.data, data);
    assert_eq!(loaded.indices.label, "dummy_indices");
    assert_eq!(loaded.indices.format, PlaneFormat::R32Uint);
    assert_eq!(loaded.indices.data, vec![0; 4]);
    assert_eq!(loaded.indices_hi.data, vec![0]);
    assert_eq!(loaded.depth_palette.label, "v1_dummy_depth_palette");
    assert_eq!(loaded.vram_bytes, 128);
}

#[test]
fn a_numbered_imposter_comes_back() {
    let image = image_of(15, 15, 4);
    let data = image.data.clone();
    let bytes = unpack(write_asset(
        b"1".to_vec(),
        3,
        5,
        GridMode::Horizontal,
        image,
        false,
        true,
        shape,
    ));
    assert!(file(&bytes, "texture.png").is_none());
    let (w, h, texels) = samples(&bytes, "pixels.png");
    assert_eq!((w, h), (4, 2));
    let (w, h, numbers) = samples(&bytes, "indices.png");
    assert_eq!((w, h), (8, 15));
    for y in 0..15 {
        for x in 0..15 {
            let n = numbers[y * 32 + 2 * x] as usize + 256 * numbers[y * 32 + 2 * x + 1] as usize;
            let i = y * 15 + x;
            assert_eq!(texels[8 * n..8 * n + 8], data[8 * i..8 * i + 8]);
        }
        assert_eq!(numbers[y * 32 + 30..y * 32 + 32], [0, 0]);
    }
    let loaded = load(bytes).ok().unwrap();
    assert_eq!(loaded.flags, 2 + INDEXED_FLAG);
    assert_eq!(loaded.pixels.label, "pixels");
    assert_eq!((loaded.pixels.width, loaded.pixels.height), (2, 2));
    assert_eq!(loaded.pixels.data, texels);
    assert_eq!(loaded.indices.format, PlaneFormat::R32Uint);
    assert_eq!((loaded.indices.width, loaded.indices.height), (8, 15));
    assert_eq!(loaded.indices.data, numbers);
    assert_eq!(loaded.vram_bytes, 2 * 2 * 8 + 8 * 15 * 4);
}

#[test]
fn rows_of_odd_length_are_padded() {
    let mut image = Raster { width: 3, height: 3, data: vec![0; 72] };
    image.data[(3 + 2) * 8] = 1;
    let bytes = unpack(write_asset(
        b"1".to_vec(),
        1,
        3,
        GridMode::Horizontal,
        image,
        false,
        true,
        shape,
    ));
    assert_eq!(names(&bytes), ["indices.png", "pixels.png", "settings.txt"]);
    assert_eq!(file(&bytes, "settings.txt").unwrap(), b"1 1 Horizontal 3 0 0 3 3");
    let mut texels = vec![0; 16];
    texels[8] = 1;
    assert_eq!(samples(&bytes, "pixels.png"), (4, 1, texels));
    assert_eq!(colour(&bytes, "pixels.png"), image::ColorType::Rgba8);
    let mut numbers = vec![0; 24];
    numbers[12] = 1;
    assert_eq!(samples(&bytes, "indices.png"), (2, 3, numbers));
    assert_eq!(colour(&bytes, "indices.png"), image::ColorType::Rgba8);
}

/// The texel that an imposter of the first format shows.
fn shown(loaded: &LoadedImposter, w: usize, y: usize, x: usize) -> Vec<u8> {
    let texels = loaded.pixels.width * loaded.pixels.height;
    let at = if loaded.flags & INDEXED_FLAG == 0 {
        y * w + x
    } else if texels < 65536 {
        let row = w.div_ceil(2) * 4;
        let d = &loaded.indices.data[y * row + 2 * x..];
        d[0] as usize + 256 * d[1] as usize
    } else {
        let d = &loaded.indices.data[4 * (y * w + x)..];
        d[0] as usize + 256 * d[1] as usize + 65536 * d[2] as usize
    };
    loaded.pixels.data[8 * at..8 * at + 8].to_vec()
}

#[test]
fn every_texel_comes_back() {
    for (grid, tile, n, index) in [
        (2, 3, 36, false),
        (2, 3, 36, true),
        (3, 5, 4, true),
        (3, 5, 7, true),
        (1, 9, 1, true),
        (3, 100, 66000, true),
    ] {
        let side = grid * tile;
        let image = image_of(side, side, n);
        let data = image.data.clone();
        let bytes = unpack(write_asset(
            b"0.25".to_vec(),
            grid,
            tile,
            GridMode::Hemispherical,
            image,
            false,
            index,
            |_| panic!("few texels"),
        ));
        let numbered = file(&bytes, "pixels.png").is_some();
        let loaded = match ImposterLoader.load(bytes, false, &BITS, |_| panic!("few bytes")) {
            Ok(loaded) => loaded,
            Err(e) => panic!("{:?}", e.kind()),
        };
        assert_eq!(loaded.flags, 1 + if numbered { INDEXED_FLAG } else { 0 });
        assert_eq!((loaded.grid_size, loaded.base_tile_size), (grid, tile));
        assert_eq!(loaded.packed_tile_size, (tile, tile));
        assert_eq!(loaded.scale, b"0.25");
        let w = side as usize;
        for i in 0..w * w {
            assert_eq!(shown(&loaded, w, i / w, i % w), data[8 * i..8 * i + 8]);
        }
    }
}

#[test]
fn columns_and_rows_of_texels() {
    for n in (1..5000).chain(1_040_000..1_048_577) {
        assert_eq!(texel_square(n), shape(n), "{n}");
    }
    for n in (1..40_000).chain(8_380_000..8_388_609) {
        assert_eq!(texel_square((n + 7) / 8), byte_shape(n), "{n}");
    }
    assert_eq!(texel_square(0), shape(0));
}

#[test]
fn numbers_that_save_nothing_are_not_written() {
    let bytes = unpack(write_asset(
        b"1".to_vec(),
        1,
        4,
        GridMode::Spherical,
        image_of(4, 4, 16),
        false,
        true,
        shape,
    ));
    assert!(file(&bytes, "texture.png").is_some());
    assert!(file(&bytes, "pixels.png").is_none());
}

#[test]
fn trimming_is_noted_in_the_settings() {
    let mut image = Raster { width: 8, height: 8, data: vec![0; 512] };
    image.data[(2 * 8 + 1) * 8] = 7;
    image.data[(7 * 8 + 6) * 8] = 9;
    let bytes = unpack(write_asset(
        b"1".to_vec(),
        2,
        4,
        GridMode::Spherical,
        image,
        true,
        false,
        shape,
    ));
    assert_eq!(file(&bytes, "settings.txt").unwrap(), b"2 1 spherical 4 1 2 2 2");
    let loaded = load(bytes).ok().unwrap();
    assert_eq!(loaded.packed_tile_offset, (1, 2));
    assert_eq!(loaded.packed_tile_size, (2, 2));
    assert_eq!((loaded.pixels.width, loaded.pixels.height), (4, 4));
    assert_eq!(loaded.pixels.data[0], 7);
    assert_eq!(loaded.pixels.data[(3 * 4 + 3) * 8], 9);
}

fn indices_of(variant: Variant, loaded: &LoadedImposter, w: usize, h: usize) -> Vec<u16> {
    let mut out = Vec::new();
    for y in 0..h {
        for x in 0..w {
            let low = loaded.indices.data[y * w + x] as u16;
            let hi = &loaded.indices_hi.data;
            let high = match variant {
                Variant::Idx8 | Variant::V3Idx8 => 0,
                Variant::Idx12 | Variant::V3Idx12 => {
                    hi[y * w.div_ceil(2) + x / 2] as u16 >> (4 * (x % 2)) & 15
                }
                Variant::Idx14 => hi[y * w + x] as u16,
                Variant::Idx10s => hi[y * w.div_ceil(4) + x / 4] as u16 >> (2 * (x % 4)) & 3,
            };
            out.push(low + 256 * high);
        }
    }
    out
}

#[test]
fn a_quantized_imposter_comes_back() {
    for (variant, count) in
        [(Variant::Idx8, 200u32), (Variant::Idx12, 4000), (Variant::Idx14, 16000)]
    {
        let palette: Vec<[u8; 8]> =
            (0..count as u64).map(|i| (i * 0x0101_0101).to_le_bytes()).collect();
        let indices: Vec<u16> = (0..15u32).map(|i| (i * 7919 % count) as u16).collect();
        let q = QuantResult { palette, indices: indices.clone() };
        let bytes = unpack(write_quantized(&header(1, (5, 3)), variant, &q, 5, 3));
        let loaded = load(bytes).ok().unwrap();
        assert_eq!(loaded.flags, 1 + variant.flags());
        assert_eq!(loaded.scale, b"2.5");
        assert_eq!(loaded.packed_tile_offset, (1, 2));
        assert_eq!(loaded.base_tile_size, 16);
        assert_eq!(loaded.pixels.format, PlaneFormat::Rg32Uint);
        assert_eq!(indices_of(variant, &loaded, 5, 3), indices);
        for i in 0..15 {
            let at = 8 * indices[i] as usize;
            assert_eq!(loaded.pixels.data[at..at + 8], q.palette[indices[i] as usize]);
        }
        let palette_bytes = (loaded.pixels.width * loaded.pixels.height * 8) as usize;
        assert_eq!(loaded.pixels.data.len(), palette_bytes);
        let hi = match variant {
            Variant::Idx8 => 0,
            Variant::Idx12 => 9,
            _ => 15,
        };
        assert_eq!(loaded.vram_bytes, palette_bytes + 15 + hi);
    }
}

#[test]
fn quantized_settings() {
    let q = QuantResult { palette: vec![[1; 8]; 5], indices: vec![4, 0] };
    let bytes = unpack(write_quantized(&header(1, (2, 1)), Variant::Idx8, &q, 2, 1));
    assert_eq!(
        file(&bytes, "settings.txt").unwrap(),
        b"1 2.5 hemispherical 16 1 2 2 1 v2 idx8 5 3 2"
    );
    assert_eq!(samples(&bytes, "palette.png").0, 6);
    assert_eq!(samples(&bytes, "idx.png"), (2, 1, vec![4, 0]));
}

#[test]
fn a_flat_imposter_comes_back() {
    for count in [256usize, 257] {
        let q = FlatResult {
            palette: (0..count as u32).collect(),
            indices: vec![0, 255, (count - 1) as u16, 7, 8, 9],
            depths: vec![0, 15, 16, 3, 4, 5],
        };
        let bytes = unpack(write_asset_v2_v3(&header(1, (3, 2)), &q, 3, 2));
        let loaded = load(bytes).ok().unwrap();
        let variant = if count == 256 { Variant::V3Idx8 } else { Variant::V3Idx12 };
        assert_eq!(loaded.flags, 1 + variant.flags());
        assert_eq!(loaded.pixels.format, PlaneFormat::R32Uint);
        assert_eq!(indices_of(variant, &loaded, 3, 2), q.indices);
        assert_eq!(loaded.depth_palette.label, "depth");
        assert_eq!(loaded.depth_palette.width, 2);
        assert_eq!(loaded.depth_palette.data, vec![0xf0, 0x00, 0x43, 0x05]);
        for i in 0..count {
            assert_eq!(loaded.pixels.data[4 * i..4 * i + 4], (i as u32).to_le_bytes());
        }
    }
}

#[test]
fn an_imposter_with_a_depth_table_comes_back() {
    let image = image_of(4, 4, 6);
    let packs: Vec<[u8; 8]> =
        image.data.chunks_exact(8).map(|c| c.try_into().unwrap()).collect();
    let bytes = unpack(write_asset_v2_idx10s::<Word>(&header(2, (2, 2)), &packs, 4, 4));
    let loaded = load(bytes).ok().unwrap();
    assert_eq!(loaded.flags, 1 + Variant::Idx10s.flags());
    assert_eq!((loaded.pixels.width, loaded.pixels.height), (32, 32));
    assert_eq!((loaded.depth_palette.width, loaded.depth_palette.height), (512, 4));
    let indices = indices_of(Variant::Idx10s, &loaded, 4, 4);
    for i in 0..16 {
        let at = 4 * indices[i] as usize;
        let red = (packs[i][0] % 32) as u32;
        let entry = red % 16 | red / 16 << 4;
        assert_eq!(loaded.pixels.data[at..at + 4], entry.to_le_bytes());
    }
    assert_eq!(loaded.vram_bytes, 1024 * 4 + 16 + 4 + 512 * 4);
}

#[test]
fn groups_that_cannot_share_slots_overflow_the_palette() {
    // 1024 colours, no two of which are at the same depth in both tiles.
    let mut packs = Vec::new();
    for y in 0..32u32 {
        for x in 0..64u32 {
            let id = y * 32 + x % 32;
            let bucket = if x < 32 { id % 64 } else { id / 64 };
            let depth = (bucket * 255 + 31) / 63;
            let mut p = [0u8; 8];
            p[..4].copy_from_slice(&(id | 31 << 15).to_le_bytes());
            p[4..].copy_from_slice(&(depth << 24).to_le_bytes());
            packs.push(p);
        }
    }
    match write_asset_v2_idx10s::<Word>(&header(2, (32, 32)), &packs, 64, 32) {
        Ok(_) => panic!("written"),
        Err(e) => assert_eq!(e.kind(), Failure::PaletteOverflow),
    }
}

/// Writes an image of 600 texels and names the variant that was written.
fn variant_written(verdicts: fn(&QuantResult) -> Verdict, choices: Choices) -> String {
    let bytes = unpack(write_asset_v2::<Levels, Word, _, _>(
        b"1".to_vec(),
        2,
        15,
        GridMode::Spherical,
        image_of(30, 30, 600),
        false,
        &Levels,
        |_packs: &Vec<[u8; 8]>, q: &QuantResult| verdicts(q),
        flatten,
        choices,
    ));
    let line = String::from_utf8(file(&bytes, "settings.txt").unwrap()).unwrap();
    assert!(load(bytes).is_ok());
    line.split(' ').nth(9).unwrap().to_string()
}

#[test]
fn a_small_palette_is_laid_out() {
    let a = [0, 0x80, 0x0f, 0, 0xff, 0xff, 0xff, 0];
    let b = [0x1f, 0x80, 0x0f, 0, 0xff, 0xff, 0xff, 0];
    let mut image = Raster { width: 3, height: 3, data: vec![0; 72] };
    image.data[8..16].copy_from_slice(&a);
    image.data[7 * 8..8 * 8].copy_from_slice(&b);
    let bytes = unpack(write_asset_v2::<Levels, Word, _, _>(
        b"1.5".to_vec(),
        1,
        3,
        GridMode::Spherical,
        image,
        true,
        &Levels,
        |_: &Vec<[u8; 8]>, _: &QuantResult| Verdict::Within,
        flatten,
        PLAIN,
    ));
    assert_eq!(names(&bytes), ["idx.png", "palette.png", "settings.txt"]);
    assert_eq!(
        file(&bytes, "settings.txt").unwrap(),
        b"1 1.5 spherical 3 1 0 1 3 v2 idx8 3 2 2"
    );
    assert_eq!(samples(&bytes, "idx.png"), (1, 3, vec![1, 0, 2]));
    assert_eq!(colour(&bytes, "idx.png"), image::ColorType::L8);
    let palette = [[0; 8], a, b, [0; 8]].concat();
    assert_eq!(samples(&bytes, "palette.png"), (4, 2, palette));
    assert_eq!(colour(&bytes, "palette.png"), image::ColorType::Rgba8);
}

/// Writes an image that is wider than its tiles, with a table of depths where that
/// is called for.
fn write_misfit(verdict: Verdict, choices: Choices) -> Result<Vec<u8>, AssetError> {
    write_asset_v2::<Levels, Word, _, _>(
        b"1".to_vec(),
        2,
        3,
        GridMode::Spherical,
        image_of(8, 4, 6),
        false,
        &Levels,
        |_: &Vec<[u8; 8]>, _: &QuantResult| verdict,
        flatten,
        choices,
    )
}

#[test]
fn a_table_of_depths_needs_tiles_that_fit() {
    let table = Choices { emit_idx10s: true, ..PLAIN };
    match write_misfit(Verdict::Beyond, table) {
        Ok(_) => panic!("written"),
        Err(e) => assert_eq!(e.kind(), Failure::SizeMismatch),
    }
    assert!(write_misfit(Verdict::Within, table).is_ok());
    // What is not seen may be in any tile.
    let bytes = unpack(write_asset_v2::<Levels, Word, _, _>(
        b"1".to_vec(),
        1,
        2,
        GridMode::Spherical,
        Raster { width: 3, height: 1, data: vec![0; 24] },
        false,
        &Levels,
        |_: &Vec<[u8; 8]>, _: &QuantResult| Verdict::Beyond,
        flatten,
        table,
    ));
    assert_eq!(samples(&bytes, "idx_lo.png"), (3, 1, vec![0; 3]));
    assert_eq!(samples(&bytes, "depth_palette.png"), (512, 1, vec![0; 512]));
    assert!(write_misfit(Verdict::Beyond, Choices { allow_v3: false, ..table }).is_ok());
}

#[test]
fn the_error_of_the_palette_decides_the_variant() {
    let within = |_: &QuantResult| Verdict::Within;
    let beyond = |_: &QuantResult| Verdict::Beyond;
    let larger = |q: &QuantResult| {
        if q.palette.len() > 256 {
            Verdict::Within
        } else {
            Verdict::Beyond
        }
    };
    assert_eq!(variant_written(within, PLAIN), "idx8");
    assert_eq!(variant_written(beyond, PLAIN), "v3idx8");
    assert_eq!(variant_written(beyond, Choices { emit_idx10s: true, ..PLAIN }), "idx10s");
    let old = Choices { allow_v3: false, ..PLAIN };
    assert_eq!(variant_written(within, old), "idx8");
    assert_eq!(variant_written(larger, old), "idx12");
    assert_eq!(variant_written(beyond, old), "idx14");
    assert_eq!(variant_written(beyond, Choices { no_idx14: true, ..old }), "idx12");
    // An error that is no number is neither below nor above the threshold.
    let unordered = |_: &QuantResult| Verdict::Unordered;
    assert_eq!(variant_written(unordered, PLAIN), "idx14");
}

#[test]
fn data_that_is_no_archive() {
    assert_eq!(failure(load(vec![1, 2, 3])), Failure::Archive);
    assert_eq!(failure(load(archive(&[]))), Failure::Archive);
    // The settings name a file that is not there.
    let bytes = archive(&[("settings.txt", b"1 1 spherical 1 0 0 1 1")]);
    assert_eq!(failure(load(bytes)), Failure::Archive);
}

#[test]
fn data_that_is_no_image() {
    let bytes =
        archive(&[("settings.txt", b"1 1 spherical 1 0 0 1 1"), ("texture.png", b"no image")]);
    assert_eq!(failure(load(bytes)), Failure::Image);
}

#[test]
fn settings_that_name_nothing() {
    let settings = |line: &str| {
        archive(&[
            ("settings.txt", line.as_bytes()),
            ("texture.png", &rgba_png(2, 1, vec![1; 8])),
            ("palette.png", &rgba_png(2, 1, vec![1; 8])),
            ("idx.png", &luma_png(1, 1, vec![0])),
        ])
    };
    assert_eq!(failure(load(settings("1 1 cubic 1 0 0 1 1"))), Failure::BadMode);
    assert_eq!(failure(load(settings("1 1 cubic 1 0 0 1 1 v2 idx8 1 1 1"))), Failure::BadMode);
    assert_eq!(
        failure(load(settings("1 1 spherical 1 0 0 1 1 v2 idx9 1 1 1"))),
        Failure::UnknownVariant
    );
    assert_eq!(
        failure(load(settings("1 1 spherical"))),
        Failure::Settings(SettingsError::TooFewFields)
    );
    assert!(load(settings("1 1 spherical 1 0 0 1 1")).is_ok());
    assert!(load(settings("1 1 spherical 1 0 0 1 1 v2 idx8 1 1 1")).is_ok());
}

#[test]
fn sizes_that_do_not_fit() {
    let line = b"65536 1 spherical 1 0 0 65536 1";
    let bytes = archive(&[
        ("settings.txt", line as &[u8]),
        ("texture.png", &rgba_png(2, 1, vec![1; 8])),
    ]);
    assert_eq!(failure(load(bytes)), Failure::TooLarge);
}

#[test]
fn results_that_do_not_match_the_image() {
    let q = FlatResult { palette: vec![0], indices: vec![0], depths: vec![0, 0] };
    match write_asset_v2_v3(&header(1, (2, 1)), &q, 2, 1) {
        Ok(_) => panic!("written"),
        Err(e) => assert_eq!(e.kind(), Failure::SizeMismatch),
    }
}

#[test]
fn empty_images_cannot_be_written() {
    let s = Settings {
        grid_size: 1,
        scale: b"1".to_vec(),
        mode: b"spherical".to_vec(),
        base_tile_size: 1,
        offset: (0, 0),
        size: (1, 1),
        v2: None,
    };
    let empty =
        ImageFile { file: File::Texture, rgba: true, width: 0, height: 0, data: vec![] };
    match write_files(vec![empty], &s) {
        Ok(_) => panic!("written"),
        Err(e) => assert_eq!(e.kind(), Failure::Image),
    }
    let bytes = unpack(write_files(vec![], &s));
    assert_eq!(file(&bytes, "settings.txt").unwrap(), b"1 1 spherical 1 0 0 1 1");
}

#[test]
fn a_file_is_not_written_twice() {
    let s = Settings {
        grid_size: 1,
        scale: b"1".to_vec(),
        mode: b"spherical".to_vec(),
        base_tile_size: 1,
        offset: (0, 0),
        size: (1, 1),
        v2: None,
    };
    let one = |f: File| ImageFile { file: f, rgba: false, width: 1, height: 1, data: vec![7] };
    for images in [vec![one(File::Depth), one(File::Depth)], vec![one(File::Settings)]] {
        match write_files(images, &s) {
            Ok(_) => panic!("written"),
            Err(e) => assert_eq!(e.kind(), Failure::Archive),
        }
    }
    let bytes = unpack(write_files(vec![one(File::Depth), one(File::Idx)], &s));
    assert_eq!(samples(&bytes, "depth.png"), (1, 1, vec![7]));
    assert_eq!(samples(&bytes, "idx.png"), (1, 1, vec![7]));
}

#[test]
fn index_planes_of_the_variants() {
    let indices: Vec<u16> = vec![0x001, 0x102, 0x203, 0x304, 0x105];
    let names = |v: Variant| -> Vec<(&'static str, u32, Vec<u8>)> {
        index_images(v, 5, 1, &indices)
            .into_iter()
            .map(|i| (i.file.name(), i.width, i.data))
            .collect()
    };
    let low = vec![1, 2, 3, 4, 5];
    assert_eq!(names(Variant::Idx8), vec![("idx.png", 5, low.clone())]);
    assert_eq!(
        names(Variant::Idx12),
        vec![("idx_lo.png", 5, low.clone()), ("idx_hi.png", 3, vec![0x10, 0x32, 0x01])]
    );
    assert_eq!(
        names(Variant::Idx14),
        vec![("idx_lo.png", 5, low.clone()), ("idx_hi.png", 5, vec![0, 1, 2, 3, 1])]
    );
    assert_eq!(
        names(Variant::Idx10s),
        vec![("idx_lo.png", 5, low), ("idx_hi.png", 2, vec![0b11_10_01_00, 0b01])]
    );
}

#[test]
fn planes_that_a_variant_reads() {
    let (low, high, depth) = make_plans(Variant::Idx10s, 10, 7, 1024, 4);
    assert_eq!((low.label, low.width, low.height), ("idx_lo", 10, 7));
    assert_eq!((high.label, high.width, high.height), ("idx_hi", 3, 7));
    assert_eq!((depth.label, depth.width, depth.height), ("depth_palette", 512, 4));
    let (low, high, depth) = make_plans(Variant::V3Idx8, 9, 7, 16, 4);
    assert_eq!(low.label, "idx_lo");
    assert!(low.file.is_some() && high.file.is_none() && depth.file.is_some());
    assert_eq!((depth.label, depth.width), ("depth", 5));
}

#[test]
fn an_imposter_is_put_together() {
    let s = Settings {
        grid_size: 4,
        scale: b"3".to_vec(),
        mode: b"Horizontal".to_vec(),
        base_tile_size: 8,
        offset: (1, 2),
        size: (5, 6),
        v2: None,
    };
    let planes = || {
        (
            make_dummy_plane("a"),
            make_dummy_plane("b"),
            make_dummy_plane("c"),
            make_dummy_plane("d"),
        )
    };
    let put = assemble(&s, planes(), 77, true, &BITS, INDEXED_FLAG).ok().unwrap();
    assert_eq!(put.flags, 2 + RENDER_MULTISAMPLE_FLAG + INDEXED_FLAG);
    assert_eq!((put.pixels.label, put.depth_palette.label), ("a", "d"));
    assert_eq!(put.vram_bytes, 77);
    assert_eq!((put.packed_tile_offset, put.packed_tile_size), ((1, 2), (5, 6)));
    let bad = Settings { mode: b"flat".to_vec(), ..s };
    assert!(assemble(&bad, planes(), 77, true, &BITS, INDEXED_FLAG).is_err());
}

#[test]
fn depth_planes_go_with_flat_palettes() {
    let depth = ImageFile { file: File::Depth, rgba: false, width: 1, height: 1, data: vec![5] };
    let bytes =
        unpack(write_flat(&header(1, (1, 1)), Variant::V3Idx8, &vec![9], &vec![0], depth, 1, 1));
    assert_eq!(samples(&bytes, "depth.png"), (1, 1, vec![5]));
    assert_eq!(samples(&bytes, "palette.png"), (1, 1, vec![9, 0, 0, 0]));
}
