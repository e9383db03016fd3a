//! Reading imposters.

use std::io::Cursor;

use vstd::prelude::*;
use vstd::string::*;

use zip::ZipArchive;

use crate::archive;
use crate::archive::File;
use crate::asset_loader::save;
use crate::asset_loader::{
    parse_variant, AssetError, Failure, ImposterLoader, LoadedImposter, LoadedView, Plane,
    PlaneFormat, PlaneView, Variant,
};
use crate::grid;
use crate::grid::{parse_mode, GridBits, GridMode};
use crate::png;
use crate::render;
use crate::render::{layout_flags, ShaderFlag};
use crate::settings;
use crate::settings::{parse_settings, Settings, SettingsView, V2Settings, V2SettingsView};

verus! {

/// What a file holds.
pub open spec fn file_bytes(files: Map<Seq<char>, Option<Seq<u8>>>, file: File) -> Result<
    Seq<u8>,
    Failure,
> {
    let name = file.name_spec()@;
    if files.contains_key(name) && files[name] is Some {
        Ok(files[name]->0)
    } else {
        Err(Failure::Archive)
    }
}

/// The samples of the image that a file holds.
pub open spec fn file_samples(files: Map<Seq<char>, Option<Seq<u8>>>, file: File) -> Result<
    Seq<u8>,
    Failure,
> {
    match file_bytes(files, file) {
        Err(e) => Err(e),
        Ok(bytes) => match png::png_samples(bytes) {
            Some(samples) => Ok(samples),
            None => Err(Failure::Image),
        },
    }
}

/// Where a plane comes from: a file, or nowhere, and it stands in for none.
pub struct PlanePlan {
    pub file: Option<File>,
    pub label: &'static str,
    pub width: u32,
    pub height: u32,
}

/// A plane of a single zero byte.
pub open spec fn dummy(label: Seq<char>) -> PlaneView {
    PlaneView { label, width: 1, height: 1, format: PlaneFormat::R8Uint, data: seq![0u8] }
}

/// The plane that a plan makes of the files.
pub open spec fn planned(files: Map<Seq<char>, Option<Seq<u8>>>, plan: PlanePlan) -> Result<
    PlaneView,
    Failure,
> {
    match plan.file {
        None => Ok(dummy(plan.label@)),
        Some(file) => match file_samples(files, file) {
            Err(e) => Err(e),
            Ok(data) => Ok(
                PlaneView {
                    label: plan.label@,
                    width: plan.width,
                    height: plan.height,
                    format: PlaneFormat::R8Uint,
                    data,
                },
            ),
        },
    }
}

/// The bytes that a plane takes on the device.
pub open spec fn plan_bytes(plan: PlanePlan) -> int {
    match plan.file {
        None => 0,
        Some(_) => plan.width * plan.height,
    }
}

/// A plane of one byte per pixel.
pub open spec fn full(file: File, label: &'static str, x: u32, y: u32) -> PlanePlan {
    PlanePlan { file: Some(file), label, width: x, height: y }
}

/// No plane.
pub open spec fn absent(label: &'static str) -> PlanePlan {
    PlanePlan { file: None, label, width: 1, height: 1 }
}

/// Half of `x`, rounded up.
pub open spec fn half(x: u32) -> u32 {
    ((x + 1) / 2) as u32
}

/// A quarter of `x`, rounded up.
pub open spec fn quarter(x: u32) -> u32 {
    ((x + 3) / 4) as u32
}

/// The planes of indices, high indices and depths of a layout, for `x` by `y`
/// pixels, `slots` palette entries and `tiles` tiles.
pub open spec fn plans(variant: Variant, x: u32, y: u32, slots: u32, tiles: u32) -> (
    PlanePlan,
    PlanePlan,
    PlanePlan,
) {
    match variant {
        Variant::Idx8 => (
            full(File::Idx, "idx", x, y),
            absent("idx8_dummy_hi"),
            absent("idx8_dummy_depth"),
        ),
        Variant::Idx12 => (
            full(File::IdxLo, "idx_lo", x, y),
            full(File::IdxHi, "idx_hi", half(x), y),
            absent("idx12_dummy_depth"),
        ),
        Variant::Idx14 => (
            full(File::IdxLo, "idx_lo", x, y),
            full(File::IdxHi, "idx_hi", x, y),
            absent("idx14_dummy_depth"),
        ),
        Variant::Idx10s => (
            full(File::IdxLo, "idx_lo", x, y),
            full(File::IdxHi, "idx_hi", quarter(x), y),
            full(File::DepthPalette, "depth_palette", (slots / 2) as u32, tiles),
        ),
        Variant::V3Idx8 => (
            full(File::Idx, "idx_lo", x, y),
            absent("v3idx8_dummy_hi"),
            full(File::Depth, "depth", half(x), y),
        ),
        Variant::V3Idx12 => (
            full(File::IdxLo, "idx_lo", x, y),
            full(File::IdxHi, "idx_hi", half(x), y),
            full(File::Depth, "depth", half(x), y),
        ),
    }
}

/// The bytes of a palette entry.
pub open spec fn entry_bytes(variant: Variant) -> int {
    if variant.flat_palette() {
        4
    } else {
        8
    }
}

/// The bytes that palette and planes take on the device.
pub open spec fn v2_bytes(variant: Variant, v2: V2SettingsView, x: u32, y: u32, tiles: u32) -> int {
    let slots = (v2.palette_x * v2.palette_y) as u32;
    let (a, b, c) = plans(variant, x, y, slots, tiles);
    slots * entry_bytes(variant) + plan_bytes(a) + plan_bytes(b) + plan_bytes(c)
}

/// The pixels along each side are counted in 32 bits.
pub open spec fn sides_fit(s: SettingsView) -> bool {
    &&& s.size.0 * s.grid_size <= u32::MAX
    &&& s.size.1 * s.grid_size <= u32::MAX
}

/// Pixels, palette entries and, where they matter, tiles are counted in 32 bits.
pub open spec fn sizes_fit(s: SettingsView, v2: V2SettingsView, variant: Variant) -> bool {
    &&& sides_fit(s)
    &&& v2.palette_x * v2.palette_y <= u32::MAX
    &&& variant == Variant::Idx10s ==> s.grid_size * s.grid_size <= u32::MAX
}

/// What reading files in the second format comes to.
pub open spec fn v2_outcome(
    files: Map<Seq<char>, Option<Seq<u8>>>,
    s: SettingsView,
    v2: V2SettingsView,
    multisample: bool,
    bits: GridBits,
) -> Result<LoadedView, Failure> {
    let x = (s.size.0 * s.grid_size) as u32;
    let y = (s.size.1 * s.grid_size) as u32;
    let slots = (v2.palette_x * v2.palette_y) as u32;
    let tiles = (s.grid_size * s.grid_size) as u32;
    match (file_samples(files, File::Palette), variant_outcome(v2.variant)) {
        (Err(e), _) => Err(e),
        (Ok(_), Err(e)) => Err(e),
        (Ok(palette), Ok(variant)) => {
            let (lo, hi, depth) = plans(variant, x, y, slots, tiles);
            if !sizes_fit(s, v2, variant) || v2_bytes(variant, v2, x, y, tiles) > u32::MAX {
                Err(Failure::TooLarge)
            } else {
                match (planned(files, lo), planned(files, hi), planned(files, depth)) {
                    (Err(e), _, _) => Err(e),
                    (Ok(_), Err(e), _) => Err(e),
                    (Ok(_), Ok(_), Err(e)) => Err(e),
                    (Ok(indices), Ok(indices_hi), Ok(depth_palette)) => {
                        let pixels = PlaneView {
                            label: "palette"@,
                            width: v2.palette_x,
                            height: v2.palette_y,
                            format: if variant.flat_palette() {
                                PlaneFormat::R32Uint
                            } else {
                                PlaneFormat::Rg32Uint
                            },
                            data: palette,
                        };
                        assembled(
                            s,
                            (pixels, indices, indices_hi, depth_palette),
                            v2_bytes(variant, v2, x, y, tiles),
                            multisample,
                            bits,
                            variant.flags_spec(),
                        )
                    },
                }
            }
        },
    }
}

/// The layout that settings name, or that there is none.
pub open spec fn variant_outcome(name: Seq<u8>) -> Result<Variant, Failure> {
    match crate::asset_loader::variant_named(name) {
        Some(variant) => Ok(variant),
        None => Err(Failure::UnknownVariant),
    }
}

/// `r` is the outcome, its error without the cause.
pub open spec fn comes_to<T: View>(
    r: Result<T, AssetError>,
    outcome: Result<T::V, Failure>,
) -> bool {
    match r {
        Ok(v) => outcome == Ok::<T::V, Failure>(v@),
        Err(e) => outcome == Err::<T::V, Failure>(e.kind_spec()),
    }
}

fn read_file(files: &mut ZipArchive<Cursor<Vec<u8>>>, file: File) -> (r: Result<
    Vec<u8>,
    AssetError,
>)
    ensures
        archive::files(*final(files)) == archive::files(*old(files)),
        comes_to(r, file_bytes(archive::files(*old(files)), file)),
{
    match archive::read(files, file.name()) {
        Ok(bytes) => Ok(bytes),
        Err(e) => Err(AssetError::Archive(e)),
    }
}

fn read_samples(files: &mut ZipArchive<Cursor<Vec<u8>>>, file: File) -> (r: Result<
    Vec<u8>,
    AssetError,
>)
    ensures
        archive::files(*final(files)) == archive::files(*old(files)),
        comes_to(r, file_samples(archive::files(*old(files)), file)),
{
    let bytes: Vec<u8> = match read_file(files, file) {
        Ok(bytes) => bytes,
        Err(e) => {
            return Err(e);
        },
    };
    match png::decode(bytes) {
        Ok(samples) => Ok(samples),
        Err(e) => Err(AssetError::Image(e)),
    }
}

/// A plane of a single zero byte, for where there is none.
pub fn make_dummy_plane(label: &'static str) -> (plane: Plane)
    ensures
        plane@ == dummy(label@),
{
    let mut data: Vec<u8> = Vec::new();
    data.push(0);
    let plane: Plane = Plane { label, width: 1, height: 1, format: PlaneFormat::R8Uint, data };
    assert(plane.data@ =~= seq![0u8]);
    plane
}

fn read_plane(files: &mut ZipArchive<Cursor<Vec<u8>>>, plan: PlanePlan) -> (r: Result<
    Plane,
    AssetError,
>)
    ensures
        archive::files(*final(files)) == archive::files(*old(files)),
        comes_to(r, planned(archive::files(*old(files)), plan)),
{
    match plan.file {
        None => Ok(make_dummy_plane(plan.label)),
        Some(file) => match read_samples(files, file) {
            Err(e) => Err(e),
            Ok(data) => Ok(
                Plane {
                    label: plan.label,
                    width: plan.width,
                    height: plan.height,
                    format: PlaneFormat::R8Uint,
                    data,
                },
            ),
        },
    }
}

fn plan_full(file: File, label: &'static str, x: u32, y: u32) -> (plan: PlanePlan)
    ensures
        plan == full(file, label, x, y),
{
    PlanePlan { file: Some(file), label, width: x, height: y }
}

fn plan_absent(label: &'static str) -> (plan: PlanePlan)
    ensures
        plan == absent(label),
{
    PlanePlan { file: None, label, width: 1, height: 1 }
}

/// The planes of a layout.
pub fn make_plans(variant: Variant, x: u32, y: u32, slots: u32, tiles: u32) -> (r: (
    PlanePlan,
    PlanePlan,
    PlanePlan,
))
    ensures
        r == plans(variant, x, y, slots, tiles),
{
    let half_x: u32 = x / 2 + x % 2;
    let quarter_x: u32 = if x % 4 == 0 {
        x / 4
    } else {
        x / 4 + 1
    };
    assert(half_x == half(x) && quarter_x == quarter(x));
    match variant {
        Variant::Idx8 => (
            plan_full(File::Idx, "idx", x, y),
            plan_absent("idx8_dummy_hi"),
            plan_absent("idx8_dummy_depth"),
        ),
        Variant::Idx12 => (
            plan_full(File::IdxLo, "idx_lo", x, y),
            plan_full(File::IdxHi, "idx_hi", half_x, y),
            plan_absent("idx12_dummy_depth"),
        ),
        Variant::Idx14 => (
            plan_full(File::IdxLo, "idx_lo", x, y),
            plan_full(File::IdxHi, "idx_hi", x, y),
            plan_absent("idx14_dummy_depth"),
        ),
        Variant::Idx10s => (
            plan_full(File::IdxLo, "idx_lo", x, y),
            plan_full(File::IdxHi, "idx_hi", quarter_x, y),
            plan_full(File::DepthPalette, "depth_palette", slots / 2, tiles),
        ),
        Variant::V3Idx8 => (
            plan_full(File::Idx, "idx_lo", x, y),
            plan_absent("v3idx8_dummy_hi"),
            plan_full(File::Depth, "depth", half_x, y),
        ),
        Variant::V3Idx12 => (
            plan_full(File::IdxLo, "idx_lo", x, y),
            plan_full(File::IdxHi, "idx_hi", half_x, y),
            plan_full(File::Depth, "depth", half_x, y),
        ),
    }
}

fn count_bytes(plan: &PlanePlan) -> (n: u64)
    ensures
        n == plan_bytes(*plan),
{
    match plan.file {
        None => 0,
        Some(_) => {
            assert(plan.width * plan.height <= u32::MAX * u32::MAX) by (nonlinear_arith)
                requires
                    plan.width <= u32::MAX,
                    plan.height <= u32::MAX,
            ;
            plan.width as u64 * plan.height as u64
        },
    }
}

/// The product of two counts.
pub(crate) fn times(a: u32, b: u32) -> (n: u64)
    ensures
        n == a * b,
        n <= 0xffff_fffe_0000_0001,
{
    assert(a * b <= u32::MAX * u32::MAX) by (nonlinear_arith)
        requires
            a <= u32::MAX,
            b <= u32::MAX,
    ;
    a as u64 * b as u64
}

fn copied(bytes: &Vec<u8>) -> (copy: Vec<u8>)
    ensures
        copy@ == bytes@,
{
    vstd::slice::slice_to_vec(bytes.as_slice())
}

/// The bytes that palette and planes take on the device, where they are counted
/// in 32 bits.
fn count_v2_bytes(
    variant: Variant,
    plans: &(PlanePlan, PlanePlan, PlanePlan),
    slots: u32,
) -> (n: Option<u32>)
    ensures
        ({
            let total = slots * entry_bytes(variant) + plan_bytes(plans.0) + plan_bytes(plans.1)
                + plan_bytes(plans.2);
            n == if total <= u32::MAX {
                Some(total as u32)
            } else {
                None
            }
        }),
{
    let unit: u128 = match variant {
        Variant::Idx10s => 4,
        Variant::V3Idx8 => 4,
        Variant::V3Idx12 => 4,
        _ => 8,
    };
    let a: u128 = count_bytes(&plans.0) as u128;
    let b: u128 = count_bytes(&plans.1) as u128;
    let c: u128 = count_bytes(&plans.2) as u128;
    let total: u128 = slots as u128 * unit + a + b + c;
    if total <= u32::MAX as u128 {
        Some(total as u32)
    } else {
        None
    }
}

/// Reads an imposter in the second format.
fn load_v2(
    files: &mut ZipArchive<Cursor<Vec<u8>>>,
    s: &Settings,
    v2: &V2Settings,
    multisample: bool,
    bits: &GridBits,
) -> (r: Result<LoadedImposter, AssetError>)
    requires
        bits.wf(),
    ensures
        comes_to(r, v2_outcome(archive::files(*old(files)), s@, v2@, multisample, *bits)),
{
    let palette: Vec<u8> = match read_samples(files, File::Palette) {
        Ok(palette) => palette,
        Err(e) => {
            return Err(e);
        },
    };
    let variant: Variant = match parse_variant(&v2.variant) {
        Some(variant) => variant,
        None => {
            return Err(AssetError::UnknownVariant);
        },
    };
    let x: u64 = times(s.size.0, s.grid_size);
    let y: u64 = times(s.size.1, s.grid_size);
    let slots: u64 = times(v2.palette_x, v2.palette_y);
    let tiles: u64 = times(s.grid_size, s.grid_size);
    let tiled: bool = match variant {
        Variant::Idx10s => true,
        _ => false,
    };
    if x > u32::MAX as u64 || y > u32::MAX as u64 || slots > u32::MAX as u64 || (tiled && tiles
        > u32::MAX as u64) {
        return Err(AssetError::TooLarge);
    }
    let tiles: u32 = if tiled {
        tiles as u32
    } else {
        0
    };
    let plans: (PlanePlan, PlanePlan, PlanePlan) = make_plans(
        variant,
        x as u32,
        y as u32,
        slots as u32,
        tiles,
    );
    let vram_bytes: u32 = match count_v2_bytes(variant, &plans, slots as u32) {
        Some(n) => n,
        None => {
            return Err(AssetError::TooLarge);
        },
    };
    let indices: Plane = match read_plane(files, plans.0) {
        Ok(plane) => plane,
        Err(e) => {
            return Err(e);
        },
    };
    let indices_hi: Plane = match read_plane(files, plans.1) {
        Ok(plane) => plane,
        Err(e) => {
            return Err(e);
        },
    };
    let depth_palette: Plane = match read_plane(files, plans.2) {
        Ok(plane) => plane,
        Err(e) => {
            return Err(e);
        },
    };
    let format: PlaneFormat = match variant {
        Variant::Idx10s => PlaneFormat::R32Uint,
        Variant::V3Idx8 => PlaneFormat::R32Uint,
        Variant::V3Idx12 => PlaneFormat::R32Uint,
        _ => PlaneFormat::Rg32Uint,
    };
    let pixels: Plane = Plane {
        label: "palette",
        width: v2.palette_x,
        height: v2.palette_y,
        format,
        data: palette,
    };
    let planes: (Plane, Plane, Plane, Plane) = (pixels, indices, indices_hi, depth_palette);
    assemble(s, planes, vram_bytes, multisample, bits, variant.flags())
}

/// What settings and planes make, where the settings name a mode.
pub open spec fn assembled(
    s: SettingsView,
    planes: (PlaneView, PlaneView, PlaneView, PlaneView),
    vram_bytes: int,
    multisample: bool,
    bits: GridBits,
    layout: u32,
) -> Result<LoadedView, Failure> {
    match grid::mode_named(s.mode) {
        None => Err(Failure::BadMode),
        Some(mode) => Ok(
            LoadedView {
                grid_size: s.grid_size,
                scale: s.scale,
                base_tile_size: s.base_tile_size,
                packed_tile_offset: s.offset,
                packed_tile_size: s.size,
                flags: render::flags_of(bits, mode, multisample, layout) as u32,
                pixels: planes.0,
                indices: planes.1,
                indices_hi: planes.2,
                depth_palette: planes.3,
                vram_bytes,
            },
        ),
    }
}

/// Makes an imposter of its settings, its planes of texels, indices, high
/// indices and depths, and the flags of its layout.
pub fn assemble(
    s: &Settings,
    planes: (Plane, Plane, Plane, Plane),
    vram_bytes: u32,
    multisample: bool,
    bits: &GridBits,
    layout: u32,
) -> (r: Result<LoadedImposter, AssetError>)
    requires
        bits.wf(),
        layout < 0x8000_0000,
    ensures
        comes_to(
            r,
            assembled(
                s@,
                (planes.0@, planes.1@, planes.2@, planes.3@),
                vram_bytes as int,
                multisample,
                *bits,
                layout,
            ),
        ),
{
    let flags: u32 = match parse_mode(&s.mode) {
        Some(mode) => layout_flags(bits, mode, multisample, layout),
        None => {
            return Err(AssetError::BadMode);
        },
    };
    let (pixels, indices, indices_hi, depth_palette): (Plane, Plane, Plane, Plane) = planes;
    Ok(
        LoadedImposter {
            grid_size: s.grid_size,
            scale: copied(&s.scale),
            base_tile_size: s.base_tile_size,
            packed_tile_offset: s.offset,
            packed_tile_size: s.size,
            flags,
            pixels,
            indices,
            indices_hi,
            depth_palette,
            vram_bytes: vram_bytes as usize,
        },
    )
}

/// The texels are looked up by index in files of the first format.
pub open spec fn is_indexed(files: Map<Seq<char>, Option<Seq<u8>>>) -> bool {
    files.contains_key(File::Pixels.name_spec()@)
}

/// Indices of two bytes are enough for `dims.0` by `dims.1` texels.
pub open spec fn short_indices(dims: (u32, u32)) -> bool {
    dims.0 * dims.1 < 65536
}

/// The words in a row of `x` indices.
pub open spec fn index_words(dims: (u32, u32), x: u32) -> u32 {
    if short_indices(dims) {
        half(x)
    } else {
        x
    }
}

/// The bytes that texels and indices take on the device.
pub open spec fn v1_bytes(indexed: bool, dims: (u32, u32), x: u32, y: u32) -> int {
    if indexed {
        dims.0 * dims.1 * 8 + index_words(dims, x) * y * 4
    } else {
        x * y * 8
    }
}

/// The planes of texels and of indices in files of the first format.
pub open spec fn v1_planes(
    files: Map<Seq<char>, Option<Seq<u8>>>,
    dims: (u32, u32),
    x: u32,
    y: u32,
) -> Result<(PlaneView, PlaneView), Failure> {
    if is_indexed(files) {
        match (file_samples(files, File::Pixels), file_samples(files, File::Indices)) {
            (Err(e), _) => Err(e),
            (Ok(_), Err(e)) => Err(e),
            (Ok(pixels), Ok(indices)) => Ok(
                (
                    PlaneView {
                        label: "pixels"@,
                        width: dims.0,
                        height: dims.1,
                        format: PlaneFormat::Rg32Uint,
                        data: pixels,
                    },
                    PlaneView {
                        label: "indices"@,
                        width: index_words(dims, x),
                        height: y,
                        format: PlaneFormat::R32Uint,
                        data: indices,
                    },
                ),
            ),
        }
    } else {
        match file_samples(files, File::Texture) {
            Err(e) => Err(e),
            Ok(texture) => Ok(
                (
                    PlaneView {
                        label: "texture"@,
                        width: x,
                        height: y,
                        format: PlaneFormat::Rg32Uint,
                        data: texture,
                    },
                    PlaneView {
                        label: "dummy_indices"@,
                        width: 1,
                        height: 1,
                        format: PlaneFormat::R32Uint,
                        data: seq![0u8, 0u8, 0u8, 0u8],
                    },
                ),
            ),
        }
    }
}

/// What reading files in the first format comes to, where the texels that are
/// looked up stand in `dims.0` columns and `dims.1` rows.
pub open spec fn v1_outcome(
    files: Map<Seq<char>, Option<Seq<u8>>>,
    s: SettingsView,
    multisample: bool,
    bits: GridBits,
    dims: (u32, u32),
) -> Result<LoadedView, Failure> {
    let x = (s.size.0 * s.grid_size) as u32;
    let y = (s.size.1 * s.grid_size) as u32;
    let indexed = is_indexed(files);
    match v1_planes(files, dims, x, y) {
        Err(e) => Err(e),
        Ok((pixels, indices)) => if !sides_fit(s) || v1_bytes(indexed, dims, x, y) > u32::MAX {
            Err(Failure::TooLarge)
        } else {
            assembled(
                s,
                (
                    pixels,
                    indices,
                    dummy("v1_dummy_indices_hi"@),
                    dummy("v1_dummy_depth_palette"@),
                ),
                v1_bytes(indexed, dims, x, y),
                multisample,
                bits,
                if indexed {
                    render::INDEXED_FLAG
                } else {
                    0
                },
            )
        },
    }
}

/// So many bytes of texels that are looked up stand in `dims.0` columns and
/// `dims.1` rows: close to a square, and as `shape` says where they are so many that
/// the rounding of a root matters.
pub open spec fn is_read_shape<F: Fn(usize) -> (u32, u32)>(
    shape: F,
    bytes: int,
    dims: (u32, u32),
) -> bool {
    if bytes <= 8 * save::SQUARE_TEXELS {
        save::is_texel_square((bytes + 7) / 8, dims)
    } else {
        call_ensures(shape, (bytes as usize,), dims)
    }
}

/// `dims` are the columns and rows of the texels that are looked up, where there
/// are any.
pub open spec fn is_shape<F: Fn(usize) -> (u32, u32)>(
    files: Map<Seq<char>, Option<Seq<u8>>>,
    shape: F,
    dims: (u32, u32),
) -> bool {
    is_indexed(files) ==> (file_samples(files, File::Pixels) matches Ok(pixels) ==> is_read_shape(
        shape,
        pixels.len() as int,
        dims,
    ))
}

/// Reads an imposter in the first format.
fn load_v1<F: Fn(usize) -> (u32, u32)>(
    files: &mut ZipArchive<Cursor<Vec<u8>>>,
    s: &Settings,
    multisample: bool,
    bits: &GridBits,
    shape: F,
) -> (r: Result<LoadedImposter, AssetError>)
    requires
        bits.wf(),
        forall|n: usize| call_requires(shape, (n,)),
    ensures
        exists|dims: (u32, u32)| #[trigger]
            is_shape(archive::files(*old(files)), shape, dims) && comes_to(
                r,
                v1_outcome(archive::files(*old(files)), s@, multisample, *bits, dims),
            ),
{
    let ghost fs = archive::files(*files);
    let x: u64 = times(s.size.0, s.grid_size);
    let y: u64 = times(s.size.1, s.grid_size);
    let fits: bool = x <= u32::MAX as u64 && y <= u32::MAX as u64;
    let indexed: bool = archive::holds(files, File::Pixels.name());
    let pixels: Plane;
    let indices: Plane;
    let total: u128;
    let ghost mut dims: (u32, u32) = (0, 0);
    if indexed {
        let texels: Vec<u8> = match read_samples(files, File::Pixels) {
            Ok(texels) => texels,
            Err(e) => {
                assert(is_shape(fs, shape, dims));
                return Err(e);
            },
        };
        let size: (u32, u32) = if texels.len() <= 8 * save::SQUARE_TEXELS {
            save::texel_square((texels.len() + 7) / 8)
        } else {
            shape(texels.len())
        };
        proof {
            dims = size;
            assert(texels.len() == texels@.len());
            assert(is_shape(fs, shape, dims));
        }
        let data: Vec<u8> = match read_samples(files, File::Indices) {
            Ok(data) => data,
            Err(e) => {
                return Err(e);
            },
        };
        if !fits {
            return Err(AssetError::TooLarge);
        }
        let count: u64 = times(size.0, size.1);
        let wx: u32 = x as u32;
        let width: u32 = if count < 65536 {
            wx / 2 + wx % 2
        } else {
            wx
        };
        total = count as u128 * 8 + times(width, y as u32) as u128 * 4;
        pixels =
        Plane {
            label: "pixels",
            width: size.0,
            height: size.1,
            format: PlaneFormat::Rg32Uint,
            data: texels,
        };
        indices =
        Plane { label: "indices", width, height: y as u32, format: PlaneFormat::R32Uint, data };
    } else {
        assert(is_shape(fs, shape, dims));
        let texels: Vec<u8> = match read_samples(files, File::Texture) {
            Ok(texels) => texels,
            Err(e) => {
                return Err(e);
            },
        };
        if !fits {
            return Err(AssetError::TooLarge);
        }
        total = times(x as u32, y as u32) as u128 * 8;
        pixels =
        Plane {
            label: "texture",
            width: x as u32,
            height: y as u32,
            format: PlaneFormat::Rg32Uint,
            data: texels,
        };
        indices =
        Plane {
            label: "dummy_indices",
            width: 1,
            height: 1,
            format: PlaneFormat::R32Uint,
            data: vec![0, 0, 0, 0],
        };
        assert(indices.data@ =~= seq![0u8, 0u8, 0u8, 0u8]);
    }
    assert(v1_planes(fs, dims, x as u32, y as u32) == Ok::<_, Failure>((pixels@, indices@)));
    assert(total == v1_bytes(indexed, dims, x as u32, y as u32));
    if total > u32::MAX as u128 {
        return Err(AssetError::TooLarge);
    }
    let layout: u32 = if indexed {
        render::INDEXED_FLAG
    } else {
        0
    };
    let planes: (Plane, Plane, Plane, Plane) = (
        pixels,
        indices,
        make_dummy_plane("v1_dummy_indices_hi"),
        make_dummy_plane("v1_dummy_depth_palette"),
    );
    assemble(s, planes, total as u32, multisample, bits, layout)
}

/// What reading the files of an imposter comes to.
pub open spec fn files_outcome(
    files: Map<Seq<char>, Option<Seq<u8>>>,
    multisample: bool,
    bits: GridBits,
    dims: (u32, u32),
) -> Result<LoadedView, Failure> {
    match file_bytes(files, File::Settings) {
        Err(e) => Err(e),
        Ok(line) => match settings::parsed(line) {
            Err(e) => Err(Failure::Settings(e)),
            Ok(s) => match s.v2 {
                Some(v2) => v2_outcome(files, s, v2, multisample, bits),
                None => v1_outcome(files, s, multisample, bits, dims),
            },
        },
    }
}

/// What reading an imposter comes to.
pub open spec fn load_outcome(
    bytes: Seq<u8>,
    multisample: bool,
    bits: GridBits,
    dims: (u32, u32),
) -> Result<LoadedView, Failure> {
    match archive::zip_contents(bytes) {
        None => Err(Failure::Archive),
        Some(files) => files_outcome(files, multisample, bits, dims),
    }
}

impl ImposterLoader {
    /// Reads an imposter. `shape` gives the columns and rows in which so many
    /// bytes of texels stand, where a file of the first format holds texels that
    /// are looked up by index and are more than stand close to a square.
    pub fn load<F: Fn(usize) -> (u32, u32)>(
        &self,
        bytes: Vec<u8>,
        multisample: bool,
        bits: &GridBits,
        shape: F,
    ) -> (r: Result<LoadedImposter, AssetError>)
        requires
            bits.wf(),
            forall|n: usize| call_requires(shape, (n,)),
        ensures
            exists|dims: (u32, u32)| #[trigger]
                fits_shape(bytes@, shape, dims) && comes_to(
                    r,
                    load_outcome(bytes@, multisample, *bits, dims),
                ),
    {
        let ghost raw = bytes@;
        let mut files: ZipArchive<Cursor<Vec<u8>>> = match archive::open(bytes) {
            Ok(files) => files,
            Err(e) => {
                assert(fits_shape(raw, shape, (0, 0)));
                return Err(AssetError::Archive(e));
            },
        };
        let ghost fs = archive::files(files);
        let line: Vec<u8> = match read_file(&mut files, File::Settings) {
            Ok(line) => line,
            Err(e) => {
                assert(fits_shape(raw, shape, (0, 0)));
                return Err(e);
            },
        };
        let s: Settings = match parse_settings(&line) {
            Ok(s) => s,
            Err(e) => {
                assert(fits_shape(raw, shape, (0, 0)));
                return Err(AssetError::Settings(e));
            },
        };
        match &s.v2 {
            Some(v2) => {
                assert(fits_shape(raw, shape, (0, 0)));
                load_v2(&mut files, &s, v2, multisample, bits)
            },
            None => {
                let r: Result<LoadedImposter, AssetError> = load_v1(
                    &mut files,
                    &s,
                    multisample,
                    bits,
                    shape,
                );
                proof {
                    let dims = choose|dims: (u32, u32)| #[trigger]
                        is_shape(fs, shape, dims) && comes_to(
                            r,
                            v1_outcome(fs, s@, multisample, *bits, dims),
                        );
                    assert(fits_shape(raw, shape, dims));
                }
                r
            },
        }
    }
}

/// The settings can be read and are those of the first format.
pub open spec fn settings_name_v1(files: Map<Seq<char>, Option<Seq<u8>>>) -> bool {
    &&& file_bytes(files, File::Settings) matches Ok(line)
    &&& settings::parsed(line) matches Ok(s)
    &&& s.v2 is None
}

/// `dims` are the columns and rows of the texels that are looked up, where reading
/// the bytes asks for them.
pub open spec fn fits_shape<F: Fn(usize) -> (u32, u32)>(
    bytes: Seq<u8>,
    shape: F,
    dims: (u32, u32),
) -> bool {
    archive::zip_contents(bytes) matches Some(files) ==> (settings_name_v1(files) ==> is_shape(
        files,
        shape,
        dims,
    ))
}

/// A row of `x` pixels, `per` of them to a byte, takes `bytes` bytes: as many as
/// hold them, and no more.
pub open spec fn holds_row(bytes: int, per: int, x: int) -> bool {
    x <= bytes * per < x + per
}

/// The planes that a layout has are those that its flags name. The indices have a
/// byte for each pixel. A plane of high nibbles has two pixels to a byte, one of high
/// bytes one, and the two high bits that go with a table of depths are four to a
/// byte. The table has a row of one nibble per slot for each tile; a plane of depths
/// has two pixels to a byte.
pub proof fn law_flags_go_with_the_planes(
    variant: Variant,
    x: u32,
    y: u32,
    slots: u32,
    tiles: u32,
    flags: u32,
    planes: (PlanePlan, PlanePlan, PlanePlan),
)
    requires
        call_ensures(Variant::flags, (variant,), flags),
        call_ensures(make_plans, (variant, x, y, slots, tiles), planes),
    ensures
        planes.0.file is Some && planes.0.width == x && planes.0.height == y,
        planes.1.file is Some <==> flags & 128 != 0 || flags & 256 != 0 || flags & 512 != 0,
        planes.1.file is Some ==> planes.1.height == y,
        flags & 128 != 0 ==> holds_row(planes.1.width as int, 2, x as int),
        flags & 256 != 0 ==> holds_row(planes.1.width as int, 1, x as int),
        flags & 512 != 0 ==> holds_row(planes.1.width as int, 4, x as int),
        planes.2.file is Some <==> flags & 512 != 0 || flags & 1024 != 0,
        flags & 512 != 0 ==> planes.2.height == tiles && planes.2.width == slots / 2,
        flags & 1024 != 0 ==> planes.2.height == y && holds_row(
            planes.2.width as int,
            2,
            x as int,
        ),
        planes.1.file is None ==> planes.1.width == 1 && planes.1.height == 1,
        planes.2.file is None ==> planes.2.width == 1 && planes.2.height == 1,
{
    crate::asset_loader::law_flags_name_the_planes(variant, flags);
}

/// A plane is read from the file of its own name: the indices from `idx.png` where
/// nothing goes with them and from `idx_lo.png` where high bits do, the high bits from
/// `idx_hi.png`, the depths from `depth_palette.png` or `depth.png`. A plane that is
/// not there is labelled with the name of the layout.
pub proof fn law_planes_are_read_by_name(
    variant: Variant,
    x: u32,
    y: u32,
    slots: u32,
    tiles: u32,
    planes: (PlanePlan, PlanePlan, PlanePlan),
)
    requires
        call_ensures(make_plans, (variant, x, y, slots, tiles), planes),
    ensures
        planes.0.file matches Some(file) && file.name_spec()@ == if planes.1.file is Some {
            "idx_lo.png"@
        } else {
            "idx.png"@
        },
        planes.0.label@ == if variant == Variant::Idx8 {
            "idx"@
        } else {
            "idx_lo"@
        },
        planes.1.file matches Some(file) ==> file.name_spec()@ == "idx_hi.png"@
            && planes.1.label@ == "idx_hi"@,
        planes.2.file matches Some(file) ==> file.name_spec()@ == planes.2.label@ + ".png"@,
        planes.2.file is Some ==> planes.2.label@ == if variant == Variant::Idx10s {
            "depth_palette"@
        } else {
            "depth"@
        },
        planes.1.file is None ==> planes.1.label@ == variant.name_spec()@ + "_dummy_hi"@,
        planes.2.file is None ==> planes.2.label@ == variant.name_spec()@ + "_dummy_depth"@,
{
    reveal_strlit(".png");
    reveal_strlit("depth");
    reveal_strlit("depth.png");
    reveal_strlit("depth_palette");
    reveal_strlit("depth_palette.png");
    reveal_strlit("_dummy_hi");
    reveal_strlit("_dummy_depth");
    reveal_strlit("idx8");
    reveal_strlit("idx12");
    reveal_strlit("idx14");
    reveal_strlit("v3idx8");
    reveal_strlit("idx8_dummy_hi");
    reveal_strlit("v3idx8_dummy_hi");
    reveal_strlit("idx8_dummy_depth");
    reveal_strlit("idx12_dummy_depth");
    reveal_strlit("idx14_dummy_depth");
    assert("depth.png"@ =~= "depth"@ + ".png"@);
    assert("depth_palette.png"@ =~= "depth_palette"@ + ".png"@);
    assert("idx8_dummy_hi"@ =~= "idx8"@ + "_dummy_hi"@);
    assert("v3idx8_dummy_hi"@ =~= "v3idx8"@ + "_dummy_hi"@);
    assert("idx8_dummy_depth"@ =~= "idx8"@ + "_dummy_depth"@);
    assert("idx12_dummy_depth"@ =~= "idx12"@ + "_dummy_depth"@);
    assert("idx14_dummy_depth"@ =~= "idx14"@ + "_dummy_depth"@);
}

/// The bytes of a texel.
pub open spec fn texel_size(format: PlaneFormat) -> int {
    match format {
        PlaneFormat::R8Uint => 1,
        PlaneFormat::R32Uint => 4,
        PlaneFormat::Rg32Uint => 8,
    }
}

/// The bytes that the texels of a plane take.
pub open spec fn plane_size(plane: PlaneView) -> int {
    plane.width * plane.height * texel_size(plane.format)
}

/// What a plane adds to the bytes on the device: the size of its texels, and nothing
/// where it stands in for none.
pub open spec fn plane_cost(plane: PlaneView, plan: PlanePlan) -> int {
    if plan.file is Some {
        plane_size(plane)
    } else {
        0
    }
}

/// The bytes that are counted for an imposter in the second format are those of the
/// texels of its planes, without the planes that stand in for none. A palette entry
/// is one word where the layout keeps the depths elsewhere, and two where it does not.
pub proof fn law_v2_bytes_are_those_of_the_planes(
    files: Map<Seq<char>, Option<Seq<u8>>>,
    s: SettingsView,
    v2: V2SettingsView,
    variant: Variant,
    multisample: bool,
    bits: GridBits,
    v: LoadedView,
)
    requires
        v2_outcome(files, s, v2, multisample, bits) == Ok::<_, Failure>(v),
        crate::asset_loader::variant_named(v2.variant) == Some(variant),
    ensures
        ({
            let p = plans(
                variant,
                (s.size.0 * s.grid_size) as u32,
                (s.size.1 * s.grid_size) as u32,
                (v2.palette_x * v2.palette_y) as u32,
                (s.grid_size * s.grid_size) as u32,
            );
            &&& v.vram_bytes == plane_size(v.pixels) + plane_cost(v.indices, p.0) + plane_cost(
                v.indices_hi,
                p.1,
            ) + plane_cost(v.depth_palette, p.2)
            &&& v.indices.width == s.size.0 * s.grid_size
            &&& v.indices.height == s.size.1 * s.grid_size
            &&& v.pixels.width == v2.palette_x && v.pixels.height == v2.palette_y
            &&& v.pixels.label == "palette"@
            &&& v.pixels.format == if p.2.file is Some {
                PlaneFormat::R32Uint
            } else {
                PlaneFormat::Rg32Uint
            }
            &&& v.indices.format == PlaneFormat::R8Uint
            &&& v.indices_hi.format == PlaneFormat::R8Uint
            &&& v.depth_palette.format == PlaneFormat::R8Uint
        }),
{
    let x = (s.size.0 * s.grid_size) as u32;
    let y = (s.size.1 * s.grid_size) as u32;
    let slots = (v2.palette_x * v2.palette_y) as u32;
    let tiles = (s.grid_size * s.grid_size) as u32;
    let p = plans(variant, x, y, slots, tiles);
    assert(plan_bytes(p.0) == plane_cost(v.indices, p.0));
    assert(plan_bytes(p.1) == plane_cost(v.indices_hi, p.1));
    assert(plan_bytes(p.2) == plane_cost(v.depth_palette, p.2));
}

/// The bytes that are counted for an imposter in the first format are those of its
/// texels, and of its indices where it has any. The texels are as many as the pixels, or
/// as there are places for those that are looked up; an index takes half a word where that
/// is enough to name every place, and a word otherwise.
pub proof fn law_v1_bytes_are_those_of_the_planes(
    files: Map<Seq<char>, Option<Seq<u8>>>,
    s: SettingsView,
    multisample: bool,
    bits: GridBits,
    dims: (u32, u32),
    v: LoadedView,
)
    requires
        v1_outcome(files, s, multisample, bits, dims) == Ok::<_, Failure>(v),
    ensures
        is_indexed(files) <==> files.contains_key("pixels.png"@),
        is_indexed(files) ==> {
            &&& v.vram_bytes == plane_size(v.pixels) + plane_size(v.indices)
            &&& v.pixels.label == "pixels"@ && v.indices.label == "indices"@
            &&& v.pixels.width == dims.0 && v.pixels.height == dims.1
            &&& v.indices.height == s.size.1 * s.grid_size
            &&& dims.0 * dims.1 <= 0xffff ==> holds_row(
                v.indices.width as int,
                2,
                s.size.0 * s.grid_size,
            )
            &&& dims.0 * dims.1 > 0xffff ==> v.indices.width == s.size.0 * s.grid_size
        },
        !is_indexed(files) ==> {
            &&& v.vram_bytes == plane_size(v.pixels)
            &&& v.pixels.label == "texture"@ && v.indices.label == "dummy_indices"@
            &&& v.pixels.width == s.size.0 * s.grid_size
            &&& v.pixels.height == s.size.1 * s.grid_size
            &&& v.indices.width == 1 && v.indices.height == 1
            &&& v.indices.data == Seq::new(4, |i: int| 0u8)
        },
        v.pixels.format == PlaneFormat::Rg32Uint,
        v.indices.format == PlaneFormat::R32Uint,
        v.indices_hi == dummy("v1_dummy_indices_hi"@),
        v.depth_palette == dummy("v1_dummy_depth_palette"@),
{
    archive::law_files_by_name(File::Pixels);
    if !is_indexed(files) {
        assert(v.indices.data =~= Seq::new(4, |i: int| 0u8));
    }
}

/// A plane that stands in for none is a single texel of zero.
pub proof fn law_stand_ins_are_blank(label: &'static str, plane: Plane)
    requires
        call_ensures(make_dummy_plane, (label,), plane),
    ensures
        plane.label@ == label@,
        plane.width == 1 && plane.height == 1,
        plane.format == PlaneFormat::R8Uint,
        plane.data@.len() == 1 && plane.data@[0] == 0,
{
}

/// For an imposter that was read in the second format, the shaders are told the mode and
/// the layout that its settings name.
pub proof fn law_shaders_are_told_what_was_read(
    files: Map<Seq<char>, Option<Seq<u8>>>,
    s: SettingsView,
    v2: V2SettingsView,
    mode: GridMode,
    variant: Variant,
    multisample: bool,
    bits: GridBits,
    v: LoadedView,
    defs: Option<(Vec<ShaderFlag>, Vec<ShaderFlag>)>,
)
    requires
        bits.wf(),
        v2_outcome(files, s, v2, multisample, bits) == Ok::<_, Failure>(v),
        s.mode == mode.name_spec().spec_bytes(),
        v2.variant == variant.name_spec().spec_bytes(),
        call_ensures(render::specialize, (&bits, v.flags), defs),
    ensures
        defs matches Some(told) && {
            &&& render::names(told.0@) == seq![render::grid_name(mode)]
            &&& render::names(told.1@) == render::opening(mode, multisample)
                + crate::asset_loader::variant_names(variant)
        },
        v.grid_size == s.grid_size,
        v.scale == s.scale,
        v.base_tile_size == s.base_tile_size,
        v.packed_tile_offset == s.offset,
        v.packed_tile_size == s.size,
{
    grid::lemma_mode_names(mode);
    crate::asset_loader::lemma_variant_names(variant);
    render::lemma_layouts();
    render::lemma_flags_told(bits, mode, multisample, variant.flags_spec(), v.flags, defs);
}

/// For an imposter that was read in the first format, the shaders are told the mode that
/// its settings name, and whether its texels are looked up by index.
pub proof fn law_shaders_are_told_of_indices_read(
    files: Map<Seq<char>, Option<Seq<u8>>>,
    s: SettingsView,
    mode: GridMode,
    multisample: bool,
    bits: GridBits,
    dims: (u32, u32),
    v: LoadedView,
    defs: Option<(Vec<ShaderFlag>, Vec<ShaderFlag>)>,
)
    requires
        bits.wf(),
        v1_outcome(files, s, multisample, bits, dims) == Ok::<_, Failure>(v),
        s.mode == mode.name_spec().spec_bytes(),
        call_ensures(render::specialize, (&bits, v.flags), defs),
    ensures
        defs matches Some(told) && {
            &&& render::names(told.0@) == seq![render::grid_name(mode)]
            &&& render::names(told.1@) == render::opening(mode, multisample)
                + if files.contains_key("pixels.png"@) {
                seq!["INDEXED_PIXELS"@]
            } else {
                seq![]
            }
        },
        v.grid_size == s.grid_size,
        v.scale == s.scale,
        v.base_tile_size == s.base_tile_size,
        v.packed_tile_offset == s.offset,
        v.packed_tile_size == s.size,
{
    grid::lemma_mode_names(mode);
    archive::law_files_by_name(File::Pixels);
    render::lemma_index_told(bits, mode, multisample, is_indexed(files), v.flags, defs);
}

/// An imposter is read only where its settings name a mode, and in the second format a
/// layout; where the palette can be read and the layout has no name, that is why it is
/// refused. Its bytes are counted in 32 bits.
pub proof fn law_only_what_is_named_is_read(
    files: Map<Seq<char>, Option<Seq<u8>>>,
    s: SettingsView,
    v2: V2SettingsView,
    multisample: bool,
    bits: GridBits,
    dims: (u32, u32),
)
    ensures
        v2_outcome(files, s, v2, multisample, bits) matches Ok(v) ==> {
            &&& grid::mode_named(s.mode) is Some
            &&& crate::asset_loader::variant_named(v2.variant) is Some
            &&& 0 <= v.vram_bytes <= 0xffff_ffff
        },
        v1_outcome(files, s, multisample, bits, dims) matches Ok(v) ==> {
            &&& grid::mode_named(s.mode) is Some
            &&& 0 <= v.vram_bytes <= 0xffff_ffff
        },
        file_samples(files, File::Palette) is Ok && crate::asset_loader::variant_named(v2.variant)
            is None ==> v2_outcome(files, s, v2, multisample, bits) == Err::<LoadedView, _>(
            Failure::UnknownVariant,
        ),
{
    let (x, y) = ((s.size.0 * s.grid_size) as u32, (s.size.1 * s.grid_size) as u32);
    let words = index_words(dims, x);
    assert(0 <= dims.0 * dims.1 && 0 <= words * y && 0 <= x * y) by (nonlinear_arith);
    if v2_outcome(files, s, v2, multisample, bits) is Ok {
        let variant = crate::asset_loader::variant_named(v2.variant)->0;
        let slots = (v2.palette_x * v2.palette_y) as u32;
        let tiles = (s.grid_size * s.grid_size) as u32;
        let p = plans(variant, x, y, slots, tiles);
        lemma_plan_bytes(p.0);
        lemma_plan_bytes(p.1);
        lemma_plan_bytes(p.2);
    }
}

proof fn lemma_plan_bytes(plan: PlanePlan)
    ensures
        0 <= plan_bytes(plan),
{
    assert(0 <= plan.width * plan.height) by (nonlinear_arith);
}

/// The columns and rows in which texels that are looked up are taken to stand have room for
/// all their bytes, up to so many that they stand close to a square.
pub proof fn law_texels_that_are_read_have_room<F: Fn(usize) -> (u32, u32)>(
    shape: F,
    bytes: int,
    dims: (u32, u32),
)
    requires
        0 <= bytes <= 8 * 0x10_0000,
        is_read_shape(shape, bytes, dims),
    ensures
        bytes <= 8 * (dims.0 * dims.1),
        bytes > 0 ==> 8 * (dims.0 * dims.1) < bytes + 8 * dims.0 + 8,
{
    let n = (bytes + 7) / 8;
    let (x, y) = (dims.0 as int, dims.1 as int);
    if n > 0 {
        assert(n <= x * y && x * y < n + x) by (nonlinear_arith)
            requires
                y == (n + x - 1) / x,
                x >= 1,
                n > 0,
        ;
    }
}

} // verus!
