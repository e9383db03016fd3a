//! What the flags of an imposter say to its shaders.

use vstd::prelude::*;

use crate::grid::{GridBits, GridMode};

verus! {

/// The material texture is sampled smoothly.
pub const RENDER_MULTISAMPLE_FLAG: u32 = 16;

/// The texels are looked up by index.
pub const INDEXED_FLAG: u32 = 32;

/// The texels are looked up in the second format: a palette and indices of a
/// byte. Never together with `INDEXED_FLAG`.
pub const INDEXED_V2_FLAG: u32 = 64;

/// Together with `INDEXED_V2_FLAG`: a plane of high nibbles goes with the bytes.
pub const V2_HAS_HIGH_NIBBLE_FLAG: u32 = 128;

/// Together with `INDEXED_V2_FLAG`: a plane of high bytes goes with the bytes.
pub const V2_HAS_HIGH_BYTE_FLAG: u32 = 256;

/// Together with `INDEXED_V2_FLAG`: two high bits per pixel go with the bytes,
/// the palette holds no depth, and a table gives the depth by tile and index.
pub const V2_IDX10S_FLAG: u32 = 512;

/// Together with `INDEXED_V2_FLAG`: the palette holds no depth, and a plane
/// gives the depth by pixel. With `V2_HAS_HIGH_NIBBLE_FLAG` the indices have 12
/// bits. Goes before the other layouts.
pub const V2_V3_FLAG: u32 = 1024;

/// What a shader is told.
#[derive(Clone, Copy, PartialEq, Eq, Structural, Debug)]
pub enum ShaderFlag {
    MaterialMultisample,
    GridHemispherical,
    GridSpherical,
    GridHorizontal,
    IndexedPixels,
    IndexedV2,
    IndexedV3,
    IndexedV3Idx12,
    IndexedV2Idx10s,
    IndexedV2Idx12,
    IndexedV2Idx14,
}

impl ShaderFlag {
    /// How shaders name it.
    pub open spec fn name_spec(self) -> &'static str {
        match self {
            ShaderFlag::MaterialMultisample => "MATERIAL_MULTISAMPLE",
            ShaderFlag::GridHemispherical => "GRID_HEMISPHERICAL",
            ShaderFlag::GridSpherical => "GRID_SPHERICAL",
            ShaderFlag::GridHorizontal => "GRID_HORIZONTAL",
            ShaderFlag::IndexedPixels => "INDEXED_PIXELS",
            ShaderFlag::IndexedV2 => "INDEXED_V2",
            ShaderFlag::IndexedV3 => "INDEXED_V3",
            ShaderFlag::IndexedV3Idx12 => "INDEXED_V3_12",
            ShaderFlag::IndexedV2Idx10s => "INDEXED_V2_10S",
            ShaderFlag::IndexedV2Idx12 => "INDEXED_V2_12",
            ShaderFlag::IndexedV2Idx14 => "INDEXED_V2_14",
        }
    }

    /// How shaders name it.
    pub fn name(self) -> (name: &'static str)
        ensures
            name == self.name_spec(),
    {
        match self {
            ShaderFlag::MaterialMultisample => "MATERIAL_MULTISAMPLE",
            ShaderFlag::GridHemispherical => "GRID_HEMISPHERICAL",
            ShaderFlag::GridSpherical => "GRID_SPHERICAL",
            ShaderFlag::GridHorizontal => "GRID_HORIZONTAL",
            ShaderFlag::IndexedPixels => "INDEXED_PIXELS",
            ShaderFlag::IndexedV2 => "INDEXED_V2",
            ShaderFlag::IndexedV3 => "INDEXED_V3",
            ShaderFlag::IndexedV3Idx12 => "INDEXED_V3_12",
            ShaderFlag::IndexedV2Idx10s => "INDEXED_V2_10S",
            ShaderFlag::IndexedV2Idx12 => "INDEXED_V2_12",
            ShaderFlag::IndexedV2Idx14 => "INDEXED_V2_14",
        }
    }
}

/// Whether a flag is set.
pub open spec fn is_set(flags: u32, flag: u32) -> bool {
    flags & flag != 0
}

/// The mode that flags name.
pub open spec fn mode_of(bits: GridBits, flags: u32) -> Option<GridMode> {
    let named = flags & bits.mask;
    if named == bits.hemispherical {
        Some(GridMode::Hemispherical)
    } else if named == bits.spherical {
        Some(GridMode::Spherical)
    } else if named == bits.horizontal {
        Some(GridMode::Horizontal)
    } else {
        None
    }
}

/// What shaders are told of a mode.
pub open spec fn mode_flag(mode: GridMode) -> ShaderFlag {
    match mode {
        GridMode::Hemispherical => ShaderFlag::GridHemispherical,
        GridMode::Spherical => ShaderFlag::GridSpherical,
        GridMode::Horizontal => ShaderFlag::GridHorizontal,
    }
}

/// What the fragment shader is told of the second format.
pub open spec fn v2_flags(flags: u32) -> Seq<ShaderFlag> {
    if !is_set(flags, INDEXED_V2_FLAG) {
        seq![]
    } else if is_set(flags, V2_V3_FLAG) {
        if is_set(flags, V2_HAS_HIGH_NIBBLE_FLAG) {
            seq![ShaderFlag::IndexedV2, ShaderFlag::IndexedV3, ShaderFlag::IndexedV3Idx12]
        } else {
            seq![ShaderFlag::IndexedV2, ShaderFlag::IndexedV3]
        }
    } else if is_set(flags, V2_IDX10S_FLAG) {
        seq![ShaderFlag::IndexedV2, ShaderFlag::IndexedV2Idx10s]
    } else if is_set(flags, V2_HAS_HIGH_NIBBLE_FLAG) {
        seq![ShaderFlag::IndexedV2, ShaderFlag::IndexedV2Idx12]
    } else if is_set(flags, V2_HAS_HIGH_BYTE_FLAG) {
        seq![ShaderFlag::IndexedV2, ShaderFlag::IndexedV2Idx14]
    } else {
        seq![ShaderFlag::IndexedV2]
    }
}

/// What the fragment shader is told.
pub open spec fn fragment_flags(flags: u32, mode: GridMode) -> Seq<ShaderFlag> {
    let smooth = if is_set(flags, RENDER_MULTISAMPLE_FLAG) {
        seq![ShaderFlag::MaterialMultisample]
    } else {
        seq![]
    };
    let indexed = if is_set(flags, INDEXED_FLAG) {
        seq![ShaderFlag::IndexedPixels]
    } else {
        seq![]
    };
    smooth + seq![mode_flag(mode)] + indexed + v2_flags(flags)
}

/// What the shaders are told, the vertex shader first; nothing where the flags
/// name no mode.
pub fn specialize(bits: &GridBits, flags: u32) -> (r: Option<(Vec<ShaderFlag>, Vec<ShaderFlag>)>)
    ensures
        r is Some <==> mode_of(*bits, flags) is Some,
        r matches Some(defs) ==> {
            &&& defs.0@ == seq![mode_flag(mode_of(*bits, flags)->0)]
            &&& defs.1@ == fragment_flags(flags, mode_of(*bits, flags)->0)
        },
{
    let mut vertex: Vec<ShaderFlag> = Vec::new();
    let mut fragment: Vec<ShaderFlag> = Vec::new();
    if flags & RENDER_MULTISAMPLE_FLAG != 0 {
        fragment.push(ShaderFlag::MaterialMultisample);
    }
    let named: u32 = flags & bits.mask;
    let mode: ShaderFlag = if named == bits.hemispherical {
        ShaderFlag::GridHemispherical
    } else if named == bits.spherical {
        ShaderFlag::GridSpherical
    } else if named == bits.horizontal {
        ShaderFlag::GridHorizontal
    } else {
        return None;
    };
    vertex.push(mode);
    fragment.push(mode);
    if flags & INDEXED_FLAG != 0 {
        fragment.push(ShaderFlag::IndexedPixels);
    }
    if flags & INDEXED_V2_FLAG != 0 {
        fragment.push(ShaderFlag::IndexedV2);
        if flags & V2_V3_FLAG != 0 {
            fragment.push(ShaderFlag::IndexedV3);
            if flags & V2_HAS_HIGH_NIBBLE_FLAG != 0 {
                fragment.push(ShaderFlag::IndexedV3Idx12);
            }
        } else if flags & V2_IDX10S_FLAG != 0 {
            fragment.push(ShaderFlag::IndexedV2Idx10s);
        } else if flags & V2_HAS_HIGH_NIBBLE_FLAG != 0 {
            fragment.push(ShaderFlag::IndexedV2Idx12);
        } else if flags & V2_HAS_HIGH_BYTE_FLAG != 0 {
            fragment.push(ShaderFlag::IndexedV2Idx14);
        }
    }
    proof {
        assert(vertex@ =~= seq![mode_flag(mode_of(*bits, flags)->0)]);
        assert(fragment@ =~= fragment_flags(flags, mode_of(*bits, flags)->0));
    }
    Some((vertex, fragment))
}

/// The flags of an imposter: its mode, whether it is sampled smoothly, and the
/// flags of its layout.
pub open spec fn flags_of(bits: GridBits, mode: GridMode, multisample: bool, layout: u32) -> int {
    bits.of(mode) + layout + if multisample {
        RENDER_MULTISAMPLE_FLAG as int
    } else {
        0
    }
}

/// The flags of an imposter whose texels are looked up by index where `indexed`
/// says so.
pub fn imposter_flags(bits: &GridBits, mode: GridMode, multisample: bool, indexed: bool) -> (flags:
    u32)
    requires
        bits.wf(),
    ensures
        flags == flags_of(
            *bits,
            mode,
            multisample,
            if indexed {
                INDEXED_FLAG
            } else {
                0
            },
        ),
{
    layout_flags(
        bits,
        mode,
        multisample,
        if indexed {
            INDEXED_FLAG
        } else {
            0
        },
    )
}

/// The flags of an imposter with the flags `layout` of its layout.
pub fn layout_flags(bits: &GridBits, mode: GridMode, multisample: bool, layout: u32) -> (flags: u32)
    requires
        bits.wf(),
        layout < 0x8000_0000,
    ensures
        flags == flags_of(*bits, mode, multisample, layout),
{
    let smooth: u32 = if multisample {
        RENDER_MULTISAMPLE_FLAG
    } else {
        0
    };
    smooth + bits.as_flags(mode) + layout
}

/// Shaders are told the mode that flags were made with, whether to sample
/// smoothly, and the layout.
pub proof fn law_flags_keep_what_they_were_made_of(
    bits: GridBits,
    mode: GridMode,
    multisample: bool,
    layout: u32,
    flags: u32,
)
    requires
        bits.wf(),
        layout < 0x8000_0000,
        layout & 31 == 0,
        flags == flags_of(bits, mode, multisample, layout),
    ensures
        mode_of(bits, flags) == Some(mode),
        is_set(flags, RENDER_MULTISAMPLE_FLAG) == multisample,
        flags & !31u32 == layout,
{
    let m = bits.of(mode);
    let mask = bits.mask;
    let smooth: u32 = if multisample {
        16
    } else {
        0
    };
    assert(m < 16 && (flags & mask) == m && (flags & 16 != 0) == (smooth == 16) && (flags & !31u32)
        == layout) by (bit_vector)
        requires
            m & mask == m,
            mask < 16,
            layout & 31 == 0,
            layout < 0x8000_0000,
            smooth == 0 || smooth == 16,
            flags == m + layout + smooth,
    ;
}

/// A small letter as a capital; any other character as it is.
pub open spec fn capital(c: char) -> char {
    if 'a' <= c && c <= 'z' {
        (c as u32 - 32) as char
    } else {
        c
    }
}

/// The name of a mode as shaders know it: `GRID_`, and in capitals the name that
/// settings have for it.
pub open spec fn grid_name(mode: GridMode) -> Seq<char> {
    "GRID_"@ + mode.name_spec()@.map_values(|c: char| capital(c))
}

/// The names of what a shader is told.
pub open spec fn names(defs: Seq<ShaderFlag>) -> Seq<Seq<char>> {
    Seq::new(defs.len(), |i: int| defs[i].name_spec()@)
}

/// What the fragment shader is told before it is told the layout: to sample
/// smoothly where that was asked for, and the mode.
pub open spec fn opening(mode: GridMode, multisample: bool) -> Seq<Seq<char>> {
    (if multisample {
        seq!["MATERIAL_MULTISAMPLE"@]
    } else {
        seq![]
    }) + seq![grid_name(mode)]
}

/// The modes have the names that shaders test for.
pub proof fn law_grid_names()
    ensures
        grid_name(GridMode::Spherical) == "GRID_SPHERICAL"@,
        grid_name(GridMode::Hemispherical) == "GRID_HEMISPHERICAL"@,
        grid_name(GridMode::Horizontal) == "GRID_HORIZONTAL"@,
        forall|a: GridMode, b: GridMode| #[trigger]
            grid_name(a) == #[trigger] grid_name(b) ==> a == b,
{
    reveal_strlit("GRID_");
    reveal_strlit("spherical");
    reveal_strlit("hemispherical");
    reveal_strlit("Horizontal");
    reveal_strlit("GRID_SPHERICAL");
    reveal_strlit("GRID_HEMISPHERICAL");
    reveal_strlit("GRID_HORIZONTAL");
    assert(grid_name(GridMode::Spherical) =~= "GRID_SPHERICAL"@);
    assert(grid_name(GridMode::Hemispherical) =~= "GRID_HEMISPHERICAL"@);
    assert(grid_name(GridMode::Horizontal) =~= "GRID_HORIZONTAL"@);
    assert(grid_name(GridMode::Spherical).len() == 14);
    assert(grid_name(GridMode::Hemispherical).len() == 18);
    assert(grid_name(GridMode::Horizontal).len() == 15);
}

/// For flags made with a mode, the one thing that the vertex shader is told is the
/// name of that mode. The fragment shader is told the same name, after whether to
/// sample smoothly and before anything else.
pub proof fn law_shaders_are_told_the_mode(
    bits: GridBits,
    mode: GridMode,
    multisample: bool,
    layout: u32,
    flags: u32,
    defs: Option<(Vec<ShaderFlag>, Vec<ShaderFlag>)>,
)
    requires
        bits.wf(),
        layout < 0x8000_0000,
        layout & 31 == 0,
        call_ensures(layout_flags, (&bits, mode, multisample, layout), flags),
        call_ensures(specialize, (&bits, flags), defs),
    ensures
        defs matches Some(told) && {
            &&& names(told.0@) == seq![grid_name(mode)]
            &&& opening(mode, multisample).is_prefix_of(names(told.1@))
        },
{
    law_flags_keep_what_they_were_made_of(bits, mode, multisample, layout, flags);
    law_grid_names();
    let d = defs->0;
    assert(names(d.0@) =~= seq![grid_name(mode)]);
    let told = names(d.1@);
    let head = opening(mode, multisample);
    assert forall|i: int| 0 <= i < head.len() implies #[trigger] head[i] == told[i] by {}
    assert(head =~= told.subrange(0, head.len() as int));
}

/// Two modes are never told alike: neither shader is told the same for both.
pub proof fn law_modes_are_told_apart(
    bits: GridBits,
    a: GridMode,
    b: GridMode,
    multisample: bool,
    layout: u32,
    flags: (u32, u32),
    told_a: (Vec<ShaderFlag>, Vec<ShaderFlag>),
    told_b: (Vec<ShaderFlag>, Vec<ShaderFlag>),
)
    requires
        bits.wf(),
        a != b,
        layout < 0x8000_0000,
        layout & 31 == 0,
        call_ensures(layout_flags, (&bits, a, multisample, layout), flags.0),
        call_ensures(layout_flags, (&bits, b, multisample, layout), flags.1),
        call_ensures(specialize, (&bits, flags.0), Some(told_a)),
        call_ensures(specialize, (&bits, flags.1), Some(told_b)),
    ensures
        flags.0 != flags.1,
        names(told_a.0@) != names(told_b.0@),
        names(told_a.1@) != names(told_b.1@),
{
    law_shaders_are_told_the_mode(bits, a, multisample, layout, flags.0, Some(told_a));
    law_shaders_are_told_the_mode(bits, b, multisample, layout, flags.1, Some(told_b));
    law_flags_keep_what_they_were_made_of(bits, a, multisample, layout, flags.0);
    law_flags_keep_what_they_were_made_of(bits, b, multisample, layout, flags.1);
    law_grid_names();
    let at: int = if multisample {
        1
    } else {
        0
    };
    assert(names(told_a.0@)[0] == grid_name(a));
    assert(names(told_b.0@)[0] == grid_name(b));
    assert(opening(a, multisample)[at] == names(told_a.1@)[at]);
    assert(opening(b, multisample)[at] == names(told_b.1@)[at]);
}

/// The flags of an imposter fit in a word.
proof fn lemma_flags_fit(bits: GridBits, mode: GridMode, multisample: bool, layout: u32)
    requires
        bits.wf(),
        layout < 0x8000_0000,
    ensures
        0 <= flags_of(bits, mode, multisample, layout) <= u32::MAX,
{
    let m = bits.of(mode);
    let mask = bits.mask;
    assert(m < 16) by (bit_vector)
        requires
            m & mask == m,
            mask < 16,
    ;
}

/// The bits of a mode are those among the flags that the modes use, bit 4 says whether to
/// sample smoothly, and the bits above it are those of the layout.
pub proof fn law_flags_hold_their_parts(
    bits: GridBits,
    mode: GridMode,
    multisample: bool,
    layout: u32,
    flags: u32,
)
    requires
        bits.wf(),
        layout < 0x8000_0000,
        layout & 31 == 0,
        call_ensures(layout_flags, (&bits, mode, multisample, layout), flags),
    ensures
        flags & bits.mask == match mode {
            GridMode::Spherical => bits.spherical,
            GridMode::Hemispherical => bits.hemispherical,
            GridMode::Horizontal => bits.horizontal,
        },
        flags & 16 != 0 <==> multisample,
        flags & !31u32 == layout,
{
    law_flags_keep_what_they_were_made_of(bits, mode, multisample, layout, flags);
}

/// Where the render flags are among the flags of an imposter with one of the
/// layouts that there are.
proof fn lemma_layout_bits(flags: u32, layout: u32)
    by (bit_vector)
    requires
        flags & !31u32 == layout,
    ensures
        layout == 0 ==> flags & 32 == 0 && flags & 64 == 0,
        layout == 32 ==> flags & 32 != 0 && flags & 64 == 0,
        layout == 64 || layout == 192 || layout == 320 || layout == 576 || layout == 1088 || layout
            == 1216 ==> flags & 32 == 0 && flags & 64 != 0,
        (flags & 128 != 0) == (layout & 128 != 0),
        (flags & 256 != 0) == (layout & 256 != 0),
        (flags & 512 != 0) == (layout & 512 != 0),
        (flags & 1024 != 0) == (layout & 1024 != 0),
{
}

/// The bits of the layouts that there are.
pub proof fn lemma_layouts()
    by (bit_vector)
    ensures
        0u32 & 31 == 0 && 32u32 & 31 == 0 && 64u32 & 31 == 0 && 192u32 & 31 == 0 && 320u32 & 31 == 0
            && 576u32 & 31 == 0 && 1088u32 & 31 == 0 && 1216u32 & 31 == 0,
        64u32 & 64 != 0 && 192u32 & 64 != 0 && 320u32 & 64 != 0 && 576u32 & 64 != 0 && 1088u32 & 64
            != 0 && 1216u32 & 64 != 0,
        64u32 & 32 == 0 && 192u32 & 32 == 0 && 320u32 & 32 == 0 && 576u32 & 32 == 0 && 1088u32 & 32
            == 0 && 1216u32 & 32 == 0,
        64u32 & 128 == 0 && 192u32 & 128 != 0 && 320u32 & 128 == 0 && 576u32 & 128 == 0 && 1088u32
            & 128 == 0 && 1216u32 & 128 != 0,
        64u32 & 256 == 0 && 192u32 & 256 == 0 && 320u32 & 256 != 0 && 576u32 & 256 == 0 && 1088u32
            & 256 == 0 && 1216u32 & 256 == 0,
        64u32 & 512 == 0 && 192u32 & 512 == 0 && 320u32 & 512 == 0 && 576u32 & 512 != 0 && 1088u32
            & 512 == 0 && 1216u32 & 512 == 0,
        64u32 & 1024 == 0 && 192u32 & 1024 == 0 && 320u32 & 1024 == 0 && 576u32 & 1024 == 0
            && 1088u32 & 1024 != 0 && 1216u32 & 1024 != 0,
{
}

/// For the flags of an imposter whose texels are, or are not, looked up by index,
/// the fragment shader is told that much, the mode and how to sample, and nothing
/// else.
pub proof fn law_shaders_are_told_of_indices(
    bits: GridBits,
    mode: GridMode,
    multisample: bool,
    indexed: bool,
    flags: u32,
    defs: Option<(Vec<ShaderFlag>, Vec<ShaderFlag>)>,
)
    requires
        bits.wf(),
        call_ensures(imposter_flags, (&bits, mode, multisample, indexed), flags),
        call_ensures(specialize, (&bits, flags), defs),
    ensures
        defs matches Some(told) && {
            &&& names(told.0@) == seq![grid_name(mode)]
            &&& names(told.1@) == opening(mode, multisample) + if indexed {
                seq!["INDEXED_PIXELS"@]
            } else {
                seq![]
            }
        },
{
    lemma_index_told(bits, mode, multisample, indexed, flags, defs);
}

pub proof fn lemma_index_told(
    bits: GridBits,
    mode: GridMode,
    multisample: bool,
    indexed: bool,
    flags: u32,
    defs: Option<(Vec<ShaderFlag>, Vec<ShaderFlag>)>,
)
    requires
        bits.wf(),
        flags == flags_of(
            bits,
            mode,
            multisample,
            if indexed {
                INDEXED_FLAG
            } else {
                0
            },
        ) as u32,
        call_ensures(specialize, (&bits, flags), defs),
    ensures
        defs matches Some(told) && {
            &&& names(told.0@) == seq![grid_name(mode)]
            &&& names(told.1@) == opening(mode, multisample) + if indexed {
                seq!["INDEXED_PIXELS"@]
            } else {
                seq![]
            }
        },
{
    let layout: u32 = if indexed {
        32
    } else {
        0
    };
    lemma_layouts();
    lemma_flags_fit(bits, mode, multisample, layout);
    law_flags_keep_what_they_were_made_of(bits, mode, multisample, layout, flags);
    lemma_layout_bits(flags, layout);
    law_grid_names();
    let told = defs->0;
    assert(names(told.0@) =~= seq![grid_name(mode)]);
    assert(names(told.1@) =~= opening(mode, multisample) + if indexed {
        seq!["INDEXED_PIXELS"@]
    } else {
        seq![]
    });
}

/// What the fragment shader is told of the second format for one of its layouts:
/// that of indices alone (64), or with high nibbles (192), high bytes (320) or a
/// table of depths (576), or that of a plane of depths, without (1088) or with high
/// nibbles (1216).
pub open spec fn layout_names(layout: u32) -> Seq<Seq<char>> {
    if layout == 64 {
        seq!["INDEXED_V2"@]
    } else if layout == 192 {
        seq!["INDEXED_V2"@, "INDEXED_V2_12"@]
    } else if layout == 320 {
        seq!["INDEXED_V2"@, "INDEXED_V2_14"@]
    } else if layout == 576 {
        seq!["INDEXED_V2"@, "INDEXED_V2_10S"@]
    } else if layout == 1088 {
        seq!["INDEXED_V2"@, "INDEXED_V3"@]
    } else {
        seq!["INDEXED_V2"@, "INDEXED_V3"@, "INDEXED_V3_12"@]
    }
}

/// For flags made with a layout of the second format, the fragment shader is told
/// that layout after the mode, and nothing else.
pub proof fn law_shaders_are_told_the_layout(
    bits: GridBits,
    mode: GridMode,
    multisample: bool,
    layout: u32,
    flags: u32,
    defs: Option<(Vec<ShaderFlag>, Vec<ShaderFlag>)>,
)
    requires
        bits.wf(),
        layout == 64 || layout == 192 || layout == 320 || layout == 576 || layout == 1088 || layout
            == 1216,
        call_ensures(layout_flags, (&bits, mode, multisample, layout), flags),
        call_ensures(specialize, (&bits, flags), defs),
    ensures
        defs matches Some(told) && {
            &&& names(told.0@) == seq![grid_name(mode)]
            &&& names(told.1@) == opening(mode, multisample) + layout_names(layout)
        },
{
    lemma_flags_told(bits, mode, multisample, layout, flags, defs);
}

pub proof fn lemma_flags_told(
    bits: GridBits,
    mode: GridMode,
    multisample: bool,
    layout: u32,
    flags: u32,
    defs: Option<(Vec<ShaderFlag>, Vec<ShaderFlag>)>,
)
    requires
        bits.wf(),
        layout == 64 || layout == 192 || layout == 320 || layout == 576 || layout == 1088 || layout
            == 1216,
        flags == flags_of(bits, mode, multisample, layout) as u32,
        call_ensures(specialize, (&bits, flags), defs),
    ensures
        defs matches Some(told) && {
            &&& names(told.0@) == seq![grid_name(mode)]
            &&& names(told.1@) == opening(mode, multisample) + layout_names(layout)
        },
{
    lemma_layouts();
    lemma_flags_fit(bits, mode, multisample, layout);
    law_flags_keep_what_they_were_made_of(bits, mode, multisample, layout, flags);
    lemma_layout_bits(flags, layout);
    law_grid_names();
    let told = defs->0;
    assert(names(told.0@) =~= seq![grid_name(mode)]);
    assert(names(told.1@) =~= opening(mode, multisample) + layout_names(layout));
}

/// Whatever the flags, the fragment shader is told of the second format only where bit 6
/// is set. Of its layouts that of a plane of depths (bit 10) goes before that of a table of
/// depths (bit 9), that before high nibbles (bit 7), and these before high bytes (bit 8).
pub proof fn law_layouts_go_in_order(
    bits: GridBits,
    flags: u32,
    vertex: Vec<ShaderFlag>,
    fragment: Vec<ShaderFlag>,
)
    requires
        call_ensures(specialize, (&bits, flags), Some((vertex, fragment))),
    ensures
        ({
            let v2 = flags & 64 != 0;
            let v3 = flags & 1024 != 0;
            let table = flags & 512 != 0;
            let nibbles = flags & 128 != 0;
            let bytes = flags & 256 != 0;
            &&& fragment@.contains(ShaderFlag::MaterialMultisample) <==> flags & 16 != 0
            &&& fragment@.contains(ShaderFlag::IndexedPixels) <==> flags & 32 != 0
            &&& fragment@.contains(ShaderFlag::IndexedV2) <==> v2
            &&& fragment@.contains(ShaderFlag::IndexedV3) <==> v2 && v3
            &&& fragment@.contains(ShaderFlag::IndexedV3Idx12) <==> v2 && v3 && nibbles
            &&& fragment@.contains(ShaderFlag::IndexedV2Idx10s) <==> v2 && !v3 && table
            &&& fragment@.contains(ShaderFlag::IndexedV2Idx12) <==> v2 && !v3 && !table && nibbles
            &&& fragment@.contains(ShaderFlag::IndexedV2Idx14) <==> v2 && !v3 && !table && !nibbles
                && bytes
        }),
{
    let mode = mode_of(bits, flags)->0;
    let smooth = if is_set(flags, RENDER_MULTISAMPLE_FLAG) {
        seq![ShaderFlag::MaterialMultisample]
    } else {
        seq![]
    };
    let indexed = if is_set(flags, INDEXED_FLAG) {
        seq![ShaderFlag::IndexedPixels]
    } else {
        seq![]
    };
    let layout = v2_flags(flags);
    assert forall|f: ShaderFlag| #[trigger] fragment@.contains(f) <==> smooth.contains(f) || f
        == mode_flag(mode) || indexed.contains(f) || layout.contains(f) by {
        lemma_parts_contain(smooth, mode_flag(mode), indexed, layout, f);
    }
    lemma_flag_found(smooth, ShaderFlag::MaterialMultisample);
    lemma_flag_found(indexed, ShaderFlag::IndexedPixels);
    assert(layout.len() > 0 ==> layout[0] == ShaderFlag::IndexedV2);
    assert(layout.len() > 2 ==> layout[2] == ShaderFlag::IndexedV3Idx12);
    if layout.len() > 1 {
        assert(layout.contains(layout[1]));
    }
    if layout.len() > 0 {
        assert(layout.contains(layout[0]));
    }
    if layout.len() > 2 {
        assert(layout.contains(layout[2]));
    }
}

proof fn lemma_flag_found(part: Seq<ShaderFlag>, f: ShaderFlag)
    requires
        part.len() <= 1,
        part.len() == 1 ==> part[0] == f,
    ensures
        part.contains(f) <==> part.len() == 1,
{
    if part.len() == 1 {
        assert(part.contains(part[0]));
    }
}

proof fn lemma_parts_contain(
    a: Seq<ShaderFlag>,
    m: ShaderFlag,
    b: Seq<ShaderFlag>,
    c: Seq<ShaderFlag>,
    f: ShaderFlag,
)
    ensures
        (a + seq![m] + b + c).contains(f) <==> a.contains(f) || f == m || b.contains(f)
            || c.contains(f),
{
    let all = a + seq![m] + b + c;
    let x = a.len() as int;
    let y = x + 1;
    let z = y + b.len();
    if a.contains(f) {
        let i = choose|i: int| 0 <= i < a.len() && a[i] == f;
        assert(all[i] == f);
    }
    if f == m {
        assert(all[x] == f);
    }
    if b.contains(f) {
        let i = choose|i: int| 0 <= i < b.len() && b[i] == f;
        assert(all[y + i] == f);
    }
    if c.contains(f) {
        let i = choose|i: int| 0 <= i < c.len() && c[i] == f;
        assert(all[z + i] == f);
    }
    if all.contains(f) {
        let i = choose|i: int| 0 <= i < all.len() && all[i] == f;
        if i < x {
            assert(a[i] == f);
        } else if i == x {
        } else if i < z {
            assert(b[i - y] == f);
        } else {
            assert(c[i - z] == f);
        }
    }
}

} // verus!
