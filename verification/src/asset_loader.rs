//! Reading and writing imposters as archives.

pub mod load;
pub mod round_trip;
pub mod save;
pub mod texels;

use vstd::prelude::*;
use vstd::string::*;

use image::ImageError;
use zip::result::ZipError;

pub use crate::asset_loader::save::{write_asset, write_asset_v2};
pub use crate::raster::pack_asset;
use crate::grid::{GridBits, GridMode};
use crate::render::{self, ShaderFlag};
use crate::settings::{same_bytes, SettingsError};

verus! {

/// Reads imposters.
pub struct ImposterLoader;

/// What a texel of a plane is.
#[derive(Clone, Copy, PartialEq, Eq, Structural, Debug)]
pub enum PlaneFormat {
    /// One byte.
    R8Uint,
    /// One word.
    R32Uint,
    /// Two words.
    Rg32Uint,
}

/// A texture of an imposter.
pub struct Plane {
    /// The name that it is known by beside the imposter.
    pub label: &'static str,
    pub width: u32,
    pub height: u32,
    pub format: PlaneFormat,
    pub data: Vec<u8>,
}

/// `Plane` with sequences for strings and vectors.
#[verifier::ext_equal]
pub struct PlaneView {
    pub label: Seq<char>,
    pub width: u32,
    pub height: u32,
    pub format: PlaneFormat,
    pub data: Seq<u8>,
}

impl View for Plane {
    type V = PlaneView;

    open spec fn view(&self) -> PlaneView {
        PlaneView {
            label: self.label@,
            width: self.width,
            height: self.height,
            format: self.format,
            data: self.data@,
        }
    }
}

/// An imposter as it was read.
pub struct LoadedImposter {
    pub grid_size: u32,
    /// The scale, as it is written.
    pub scale: Vec<u8>,
    pub base_tile_size: u32,
    pub packed_tile_offset: (u32, u32),
    pub packed_tile_size: (u32, u32),
    pub flags: u32,
    pub pixels: Plane,
    pub indices: Plane,
    pub indices_hi: Plane,
    pub depth_palette: Plane,
    /// The bytes that the planes take on the device.
    pub vram_bytes: usize,
}

/// `LoadedImposter` with sequences for strings and vectors.
#[verifier::ext_equal]
pub struct LoadedView {
    pub grid_size: u32,
    pub scale: Seq<u8>,
    pub base_tile_size: u32,
    pub packed_tile_offset: (u32, u32),
    pub packed_tile_size: (u32, u32),
    pub flags: u32,
    pub pixels: PlaneView,
    pub indices: PlaneView,
    pub indices_hi: PlaneView,
    pub depth_palette: PlaneView,
    pub vram_bytes: int,
}

impl View for LoadedImposter {
    type V = LoadedView;

    open spec fn view(&self) -> LoadedView {
        LoadedView {
            grid_size: self.grid_size,
            scale: self.scale@,
            base_tile_size: self.base_tile_size,
            packed_tile_offset: self.packed_tile_offset,
            packed_tile_size: self.packed_tile_size,
            flags: self.flags,
            pixels: self.pixels@,
            indices: self.indices@,
            indices_hi: self.indices_hi@,
            depth_palette: self.depth_palette@,
            vram_bytes: self.vram_bytes as int,
        }
    }
}

/// Why an imposter could not be read or written.
pub enum AssetError {
    /// The bytes are no archive, or a file is missing, unreadable or refused.
    Archive(ZipError),
    /// A file is no image, or no image could be made.
    Image(ImageError),
    /// The settings cannot be read.
    Settings(SettingsError),
    /// The settings name no grid mode.
    BadMode,
    /// The settings name no layout.
    UnknownVariant,
    /// A size does not fit in 32 bits.
    TooLarge,
    /// The texels are not as many as the sizes say, or not those of the tiles.
    SizeMismatch,
    /// The groups take more slots than the palette has.
    PaletteOverflow,
}

/// `AssetError` without its cause.
#[derive(Clone, Copy, PartialEq, Eq, Structural, Debug)]
pub enum Failure {
    Archive,
    Image,
    Settings(SettingsError),
    BadMode,
    UnknownVariant,
    TooLarge,
    SizeMismatch,
    PaletteOverflow,
}

impl AssetError {
    /// The error without its cause.
    pub open spec fn kind_spec(self) -> Failure {
        match self {
            AssetError::Archive(_) => Failure::Archive,
            AssetError::Image(_) => Failure::Image,
            AssetError::Settings(e) => Failure::Settings(e),
            AssetError::BadMode => Failure::BadMode,
            AssetError::UnknownVariant => Failure::UnknownVariant,
            AssetError::TooLarge => Failure::TooLarge,
            AssetError::SizeMismatch => Failure::SizeMismatch,
            AssetError::PaletteOverflow => Failure::PaletteOverflow,
        }
    }

    /// The error without its cause.
    pub fn kind(&self) -> (kind: Failure)
        ensures
            kind == self.kind_spec(),
    {
        match self {
            AssetError::Archive(_) => Failure::Archive,
            AssetError::Image(_) => Failure::Image,
            AssetError::Settings(e) => Failure::Settings(*e),
            AssetError::BadMode => Failure::BadMode,
            AssetError::UnknownVariant => Failure::UnknownVariant,
            AssetError::TooLarge => Failure::TooLarge,
            AssetError::SizeMismatch => Failure::SizeMismatch,
            AssetError::PaletteOverflow => Failure::PaletteOverflow,
        }
    }
}

/// The layouts of the second format.
#[derive(Clone, Copy, PartialEq, Eq, Structural, Debug)]
pub enum Variant {
    /// Indices of 8 bits.
    Idx8,
    /// Indices of 12 bits: bytes and nibbles.
    Idx12,
    /// Indices of 14 bits: bytes and bytes.
    Idx14,
    /// Indices of 10 bits, and a table of depths.
    Idx10s,
    /// Indices of 8 bits, and depths.
    V3Idx8,
    /// Indices of 12 bits, and depths.
    V3Idx12,
}

impl Variant {
    /// How settings name it.
    pub open spec fn name_spec(self) -> &'static str {
        match self {
            Variant::Idx8 => "idx8",
            Variant::Idx12 => "idx12",
            Variant::Idx14 => "idx14",
            Variant::Idx10s => "idx10s",
            Variant::V3Idx8 => "v3idx8",
            Variant::V3Idx12 => "v3idx12",
        }
    }

    /// How settings name it.
    pub fn name(self) -> (name: &'static str)
        ensures
            name == self.name_spec(),
    {
        match self {
            Variant::Idx8 => "idx8",
            Variant::Idx12 => "idx12",
            Variant::Idx14 => "idx14",
            Variant::Idx10s => "idx10s",
            Variant::V3Idx8 => "v3idx8",
            Variant::V3Idx12 => "v3idx12",
        }
    }

    /// The flags of the layout.
    pub open spec fn flags_spec(self) -> u32 {
        match self {
            Variant::Idx8 => render::INDEXED_V2_FLAG,
            Variant::Idx12 => (render::INDEXED_V2_FLAG + render::V2_HAS_HIGH_NIBBLE_FLAG) as u32,
            Variant::Idx14 => (render::INDEXED_V2_FLAG + render::V2_HAS_HIGH_BYTE_FLAG) as u32,
            Variant::Idx10s => (render::INDEXED_V2_FLAG + render::V2_IDX10S_FLAG) as u32,
            Variant::V3Idx8 => (render::INDEXED_V2_FLAG + render::V2_V3_FLAG) as u32,
            Variant::V3Idx12 => (render::INDEXED_V2_FLAG + render::V2_V3_FLAG
                + render::V2_HAS_HIGH_NIBBLE_FLAG) as u32,
        }
    }

    /// The flags of the layout.
    pub fn flags(self) -> (flags: u32)
        ensures
            flags == self.flags_spec(),
            flags < 0x800,
    {
        match self {
            Variant::Idx8 => render::INDEXED_V2_FLAG,
            Variant::Idx12 => render::INDEXED_V2_FLAG + render::V2_HAS_HIGH_NIBBLE_FLAG,
            Variant::Idx14 => render::INDEXED_V2_FLAG + render::V2_HAS_HIGH_BYTE_FLAG,
            Variant::Idx10s => render::INDEXED_V2_FLAG + render::V2_IDX10S_FLAG,
            Variant::V3Idx8 => render::INDEXED_V2_FLAG + render::V2_V3_FLAG,
            Variant::V3Idx12 => render::INDEXED_V2_FLAG + render::V2_V3_FLAG
                + render::V2_HAS_HIGH_NIBBLE_FLAG,
        }
    }

    /// The palette holds no depth: an entry is one word.
    pub open spec fn flat_palette(self) -> bool {
        self == Variant::Idx10s || self == Variant::V3Idx8 || self == Variant::V3Idx12
    }
}

/// The layout that settings name so.
pub open spec fn variant_named(name: Seq<u8>) -> Option<Variant> {
    if name == "idx8".spec_bytes() {
        Some(Variant::Idx8)
    } else if name == "idx12".spec_bytes() {
        Some(Variant::Idx12)
    } else if name == "idx14".spec_bytes() {
        Some(Variant::Idx14)
    } else if name == "idx10s".spec_bytes() {
        Some(Variant::Idx10s)
    } else if name == "v3idx8".spec_bytes() {
        Some(Variant::V3Idx8)
    } else if name == "v3idx12".spec_bytes() {
        Some(Variant::V3Idx12)
    } else {
        None
    }
}

/// The layout that settings name so.
pub fn parse_variant(name: &Vec<u8>) -> (variant: Option<Variant>)
    ensures
        variant == variant_named(name@),
{
    if same_bytes(name.as_slice(), "idx8".as_bytes()) {
        Some(Variant::Idx8)
    } else if same_bytes(name.as_slice(), "idx12".as_bytes()) {
        Some(Variant::Idx12)
    } else if same_bytes(name.as_slice(), "idx14".as_bytes()) {
        Some(Variant::Idx14)
    } else if same_bytes(name.as_slice(), "idx10s".as_bytes()) {
        Some(Variant::Idx10s)
    } else if same_bytes(name.as_slice(), "v3idx8".as_bytes()) {
        Some(Variant::V3Idx8)
    } else if same_bytes(name.as_slice(), "v3idx12".as_bytes()) {
        Some(Variant::V3Idx12)
    } else {
        None
    }
}

/// The names differ, are ASCII and hold no space.
pub proof fn lemma_variant_names(variant: Variant)
    ensures
        crate::settings::plain(variant.name_spec().spec_bytes()),
        variant_named(variant.name_spec().spec_bytes()) == Some(variant),
{
    reveal_strlit("idx8");
    reveal_strlit("idx12");
    reveal_strlit("idx14");
    reveal_strlit("idx10s");
    reveal_strlit("v3idx8");
    reveal_strlit("v3idx12");
    is_ascii_spec_bytes("idx8");
    is_ascii_spec_bytes("idx12");
    is_ascii_spec_bytes("idx14");
    is_ascii_spec_bytes("idx10s");
    is_ascii_spec_bytes("v3idx8");
    is_ascii_spec_bytes("v3idx12");
    let a = "idx8".spec_bytes();
    let b = "idx12".spec_bytes();
    let c = "idx14".spec_bytes();
    let d = "idx10s".spec_bytes();
    let e = "v3idx8".spec_bytes();
    let f = "v3idx12".spec_bytes();
    assert(a.len() == 4 && b.len() == 5 && c.len() == 5 && d.len() == 6 && e.len() == 6 && f.len()
        == 7);
    assert(b[4] != c[4]);
    assert(d[0] != e[0]);
}

/// The settings have these names for the layouts, and no others.
pub proof fn law_variants_by_name(name: Seq<u8>)
    ensures
        variant_named(name) == Some(Variant::Idx8) <==> name == "idx8".spec_bytes(),
        variant_named(name) == Some(Variant::Idx12) <==> name == "idx12".spec_bytes(),
        variant_named(name) == Some(Variant::Idx14) <==> name == "idx14".spec_bytes(),
        variant_named(name) == Some(Variant::Idx10s) <==> name == "idx10s".spec_bytes(),
        variant_named(name) == Some(Variant::V3Idx8) <==> name == "v3idx8".spec_bytes(),
        variant_named(name) == Some(Variant::V3Idx12) <==> name == "v3idx12".spec_bytes(),
{
    lemma_variant_names(Variant::Idx8);
    lemma_variant_names(Variant::Idx12);
    lemma_variant_names(Variant::Idx14);
    lemma_variant_names(Variant::Idx10s);
    lemma_variant_names(Variant::V3Idx8);
    lemma_variant_names(Variant::V3Idx12);
}

/// The flags of a layout say that it is one of the second format. They have the bit
/// for high nibbles where a plane of nibbles goes with the indices, that for high
/// bytes where a plane of bytes does, that for a table of depths where there is such
/// a table, and that for a plane of depths where there is one; and no other bit.
pub proof fn law_flags_name_the_planes(variant: Variant, flags: u32)
    requires
        call_ensures(Variant::flags, (variant,), flags),
    ensures
        flags & 64 != 0,
        flags & 32 == 0,
        flags & 31 == 0,
        flags < 0x800,
        flags & 128 != 0 <==> variant == Variant::Idx12 || variant == Variant::V3Idx12,
        flags & 256 != 0 <==> variant == Variant::Idx14,
        flags & 512 != 0 <==> variant == Variant::Idx10s,
        flags & 1024 != 0 <==> variant == Variant::V3Idx8 || variant == Variant::V3Idx12,
{
    render::lemma_layouts();
}

/// Two layouts never have the same flags.
pub proof fn law_variants_have_flags_of_their_own(
    a: Variant,
    b: Variant,
    flags_a: u32,
    flags_b: u32,
)
    requires
        a != b,
        call_ensures(Variant::flags, (a,), flags_a),
        call_ensures(Variant::flags, (b,), flags_b),
    ensures
        flags_a != flags_b,
{
}

/// What the fragment shader is told of a layout.
pub open spec fn variant_names(variant: Variant) -> Seq<Seq<char>> {
    match variant {
        Variant::Idx8 => seq!["INDEXED_V2"@],
        Variant::Idx12 => seq!["INDEXED_V2"@, "INDEXED_V2_12"@],
        Variant::Idx14 => seq!["INDEXED_V2"@, "INDEXED_V2_14"@],
        Variant::Idx10s => seq!["INDEXED_V2"@, "INDEXED_V2_10S"@],
        Variant::V3Idx8 => seq!["INDEXED_V2"@, "INDEXED_V3"@],
        Variant::V3Idx12 => seq!["INDEXED_V2"@, "INDEXED_V3"@, "INDEXED_V3_12"@],
    }
}

/// For the flags of an imposter with a layout, the fragment shader is told how to
/// sample, the mode, and that layout; the vertex shader is told the mode.
pub proof fn law_shaders_are_told_the_variant(
    bits: GridBits,
    mode: GridMode,
    multisample: bool,
    variant: Variant,
    layout: u32,
    flags: u32,
    defs: Option<(Vec<ShaderFlag>, Vec<ShaderFlag>)>,
)
    requires
        bits.wf(),
        call_ensures(Variant::flags, (variant,), layout),
        call_ensures(render::layout_flags, (&bits, mode, multisample, layout), flags),
        call_ensures(render::specialize, (&bits, flags), defs),
    ensures
        defs matches Some(told) && {
            &&& render::names(told.0@) == seq![render::grid_name(mode)]
            &&& render::names(told.1@) == render::opening(mode, multisample) + variant_names(
                variant,
            )
        },
{
    render::law_shaders_are_told_the_layout(bits, mode, multisample, layout, flags, defs);
}

/// What the fragment shader is told of a layout, it is told of no other.
pub proof fn law_variants_are_told_apart(
    bits: GridBits,
    mode: GridMode,
    multisample: bool,
    a: Variant,
    b: Variant,
    layouts: (u32, u32),
    flags: (u32, u32),
    told_a: (Vec<ShaderFlag>, Vec<ShaderFlag>),
    told_b: (Vec<ShaderFlag>, Vec<ShaderFlag>),
)
    requires
        bits.wf(),
        a != b,
        call_ensures(Variant::flags, (a,), layouts.0),
        call_ensures(Variant::flags, (b,), layouts.1),
        call_ensures(render::layout_flags, (&bits, mode, multisample, layouts.0), flags.0),
        call_ensures(render::layout_flags, (&bits, mode, multisample, layouts.1), flags.1),
        call_ensures(render::specialize, (&bits, flags.0), Some(told_a)),
        call_ensures(render::specialize, (&bits, flags.1), Some(told_b)),
    ensures
        flags.0 != flags.1,
        render::names(told_a.1@) != render::names(told_b.1@),
{
    law_shaders_are_told_the_variant(
        bits,
        mode,
        multisample,
        a,
        layouts.0,
        flags.0,
        Some(told_a),
    );
    law_shaders_are_told_the_variant(
        bits,
        mode,
        multisample,
        b,
        layouts.1,
        flags.1,
        Some(told_b),
    );
    let n = render::opening(mode, multisample).len() as int;
    let x = variant_names(a);
    let y = variant_names(b);
    if render::names(told_a.1@) == render::names(told_b.1@) {
        assert(x =~= render::names(told_a.1@).skip(n));
        assert(y =~= render::names(told_b.1@).skip(n));
        assert(x.len() == y.len());
        reveal_strlit("INDEXED_V2_12");
        reveal_strlit("INDEXED_V2_14");
        reveal_strlit("INDEXED_V2_10S");
        reveal_strlit("INDEXED_V3");
        assert(x[1] == y[1]);
        assert("INDEXED_V2_12"@[12] != "INDEXED_V2_14"@[12]);
        assert("INDEXED_V2_12"@.len() == 13 && "INDEXED_V2_10S"@.len() == 14 && "INDEXED_V3"@.len()
            == 10);
    }
}

/// An error keeps its kind when its cause is left out.
pub proof fn law_errors_keep_their_kind(e: AssetError, kind: Failure)
    requires
        call_ensures(AssetError::kind, (&e,), kind),
    ensures
        e is Archive <==> kind is Archive,
        e is Image <==> kind is Image,
        e matches AssetError::Settings(cause) ==> kind == Failure::Settings(cause),
        e is Settings <==> kind is Settings,
        e is BadMode <==> kind is BadMode,
        e is UnknownVariant <==> kind is UnknownVariant,
        e is TooLarge <==> kind is TooLarge,
        e is SizeMismatch <==> kind is SizeMismatch,
        e is PaletteOverflow <==> kind is PaletteOverflow,
{
}

} // verus!
