//! What is written is read back, for archives whose sizes fit in 32 bits.

use vstd::prelude::*;
use vstd::string::*;

use crate::archive;
use crate::archive::File;
use crate::asset_loader;
use crate::asset_loader::load;
use crate::asset_loader::texels;
use crate::asset_loader::save;
use crate::asset_loader::save::{Choices, FlatResult, Header, ImageFile, Verdict};
use crate::asset_loader::{Failure, LoadedView, PlaneFormat, Variant};
use crate::grid;
use crate::grid::{GridBits, GridMode};
use crate::planes;
use crate::quantize;
use crate::quantize::cut::Metric;
use crate::quantize::group::Centroid;
use crate::quantize::idx10s;
use crate::quantize::idx10s::QuantResult10s;
use crate::quantize::QuantResult;
use crate::raster;
use crate::raster::Raster;
use crate::render;
use crate::settings;
use crate::settings::{SettingsError, V2SettingsView};

verus! {

/// The imposter says of itself what the header said, and has the flags of its layout.
pub open spec fn keeps_header(
    header: Header,
    layout: u32,
    multisample: bool,
    bits: GridBits,
    v: LoadedView,
) -> bool {
    &&& v.grid_size == header.grid_size
    &&& v.scale == header.scale@
    &&& v.base_tile_size == header.tile_size
    &&& v.packed_tile_offset == header.packed_offset
    &&& v.packed_tile_size == header.packed_size
    &&& v.flags == render::flags_of(bits, header.mode, multisample, layout) as u32
}

/// The sides of the image are those of the grid.
pub open spec fn is_whole(header: Header, w: u32, h: u32) -> bool {
    &&& w == header.packed_size.0 * header.grid_size
    &&& h == header.packed_size.1 * header.grid_size
}

/// The settings of an archive are read as they were written.
proof fn lemma_settings_read(
    header: Header,
    v2: Option<V2SettingsView>,
    files: Map<Seq<char>, Option<Seq<u8>>>,
    images: Seq<ImageFile>,
)
    requires
        settings::plain(header.scale@),
        v2 matches Some(v) ==> settings::plain(v.variant),
        save::is_archive_of(files, images, save::header_settings(header, v2)),
    ensures
        ({
            let s = save::header_settings(header, v2);
            &&& load::file_bytes(files, File::Settings) matches Ok(line)
            &&& settings::parsed(line) == Ok::<_, SettingsError>(s)
            &&& grid::mode_named(s.mode) == Some(header.mode)
        }),
{
    grid::lemma_mode_names(header.mode);
    settings::law_settings_come_back(save::header_settings(header, v2));
}

/// What reading an archive of the second format comes to.
proof fn lemma_v2_read(
    header: Header,
    variant: Variant,
    count: u32,
    dims: (u32, u32),
    images: Seq<ImageFile>,
    bytes: Vec<u8>,
    multisample: bool,
    bits: GridBits,
    shape: (u32, u32),
)
    requires
        settings::plain(header.scale@),
        save::is_v2_write(header, variant, count, dims, images, Ok(bytes)),
        bytes@.len() < archive::file_limit(),
    ensures
        ({
            let v2 = save::v2_settings(variant, count, dims);
            let s = save::header_settings(header, Some(v2));
            &&& archive::zip_contents(bytes@) matches Some(files)
            &&& save::is_archive_of(files, images, s)
            &&& load::variant_outcome(v2.variant) == Ok::<_, Failure>(variant)
            &&& grid::mode_named(s.mode) == Some(header.mode)
            &&& load::load_outcome(bytes@, multisample, bits, shape) == load::v2_outcome(
                files,
                s,
                v2,
                multisample,
                bits,
            )
        }),
{
    let v2 = save::v2_settings(variant, count, dims);
    asset_loader::lemma_variant_names(variant);
    let files = archive::zip_contents(bytes@)->0;
    lemma_settings_read(header, Some(v2), files, images);
}

/// `v` holds the palette, and the indices of the pixels in the planes of the layout.
pub open spec fn holds_indices(
    variant: Variant,
    w: u32,
    h: u32,
    indices: Seq<u16>,
    v: LoadedView,
) -> bool {
    &&& v.indices.data == planes::low_bytes(indices)
    &&& v.indices.width == w
    &&& v.indices.height == h
    &&& match variant {
        Variant::Idx8 | Variant::V3Idx8 => true,
        Variant::Idx14 => v.indices_hi.data == planes::high_parts(indices, 64),
        Variant::Idx10s => planes::is_quarter_plane(
            planes::high_parts(indices, 4),
            w as int,
            h as int,
            v.indices_hi.data,
        ),
        _ => planes::is_nibble_plane(
            planes::high_parts(indices, 16),
            w as int,
            h as int,
            v.indices_hi.data,
        ),
    }
}

/// `v` has the palette in `dims.0` columns and `dims.1` rows.
pub open spec fn holds_palette(
    format: PlaneFormat,
    dims: (u32, u32),
    data: Seq<u8>,
    v: LoadedView,
) -> bool {
    &&& v.pixels.format == format
    &&& v.pixels.width == dims.0
    &&& v.pixels.height == dims.1
    &&& v.pixels.data == data
}

/// An imposter that was written with a palette with depths is read back: the
/// palette, the indices of all pixels, and what the header said. Where its
/// bytes are too many to count, reading fails.
pub proof fn law_quantized_imposter_comes_back(
    header: Header,
    variant: Variant,
    q: QuantResult,
    w: u32,
    h: u32,
    bytes: Vec<u8>,
    multisample: bool,
    bits: GridBits,
    shape: (u32, u32),
)
    requires
        settings::plain(header.scale@),
        is_whole(header, w, h),
        q.palette@.len() <= 0x1_0000,
        variant == Variant::Idx8 || variant == Variant::Idx12 || variant == Variant::Idx14,
        save::is_quantized_write(header, variant, q, w, h, Ok(bytes)),
        bytes@.len() < archive::file_limit(),
    ensures
        exists|dims: (u32, u32)|
            {
                &&& #[trigger] save::is_near_square(
                    q.palette@.len() as int,
                    dims.0 as int,
                    dims.1 as int,
                )
                &&& if load::v2_bytes(
                    variant,
                    save::v2_settings(variant, q.palette@.len() as u32, dims),
                    w,
                    h,
                    0,
                ) <= u32::MAX {
                    &&& load::load_outcome(bytes@, multisample, bits, shape) matches Ok(v)
                    &&& keeps_header(header, variant.flags_spec(), multisample, bits, v)
                    &&& holds_palette(
                        PlaneFormat::Rg32Uint,
                        dims,
                        save::wide_palette(q.palette@, (dims.0 * dims.1) as nat),
                        v,
                    )
                    &&& holds_indices(variant, w, h, q.indices@, v)
                } else {
                    load::load_outcome(bytes@, multisample, bits, shape) == Err::<LoadedView, _>(
                        Failure::TooLarge,
                    )
                }
            },
{
    let count = q.palette@.len() as u32;
    let r = Ok::<Vec<u8>, asset_loader::AssetError>(bytes);
    let (dims, images) = choose|dims: (u32, u32), images: Seq<ImageFile>|
        {
            &&& #[trigger] save::is_v2_write(header, variant, count, dims, images, r)
            &&& images.len() > 0
            &&& save::is_palette(
                images[0],
                dims,
                2,
                save::wide_palette(q.palette@, (dims.0 * dims.1) as nat),
            )
            &&& save::are_index_images(variant, w, h, q.indices@, images.skip(1))
        };
    lemma_v2_read(header, variant, count, dims, images, bytes, multisample, bits, shape);
    lemma_square_fits(count, dims);
    let files = archive::zip_contents(bytes@)->0;
    let rest = images.skip(1);
    assert(rest[0] == images[1]);
    assert(load::file_samples(files, images[0].file) == Ok::<_, Failure>(images[0].data@));
    assert(load::file_samples(files, images[1].file) == Ok::<_, Failure>(images[1].data@));
    if variant != Variant::Idx8 {
        assert(rest[1] == images[2]);
        assert(load::file_samples(files, images[2].file) == Ok::<_, Failure>(images[2].data@));
    }
    assert(save::is_near_square(count as int, dims.0 as int, dims.1 as int));
}

proof fn lemma_square_fits(count: u32, dims: (u32, u32))
    requires
        count <= 0x1_0000,
        save::is_near_square(count as int, dims.0 as int, dims.1 as int),
    ensures
        dims.0 * dims.1 <= 0x2_0000,
{
    let x = dims.0 as int;
    let y = dims.1 as int;
    let n = count as int;
    assert(x <= 0x100) by (nonlinear_arith)
        requires
            x == 1 || (x - 1) * (x - 1) < n,
            n <= 0x1_0000,
            x >= 1,
    ;
    if n > 0 {
        assert(x * y <= n + x) by (nonlinear_arith)
            requires
                y == (n + x - 1) / x,
                x >= 1,
                n > 0,
        ;
    } else {
        assert(x * y == x) by (nonlinear_arith)
            requires
                y == 1,
        ;
    }
}

/// An imposter that was written with a palette without depths is read back: the
/// palette, the indices of all pixels, the depths, and what the header said.
/// Where its bytes are too many to count, reading fails.
pub proof fn law_flat_imposter_comes_back(
    header: Header,
    variant: Variant,
    palette: Seq<u32>,
    indices: Seq<u16>,
    depth: ImageFile,
    w: u32,
    h: u32,
    bytes: Vec<u8>,
    multisample: bool,
    bits: GridBits,
    shape: (u32, u32),
)
    requires
        settings::plain(header.scale@),
        is_whole(header, w, h),
        palette.len() <= 0x1_0000,
        variant.flat_palette(),
        depth.file == if variant == Variant::Idx10s {
            File::DepthPalette
        } else {
            File::Depth
        },
        variant == Variant::Idx10s ==> header.grid_size * header.grid_size <= u32::MAX,
        save::is_flat_write(header, variant, palette, indices, depth, w, h, Ok(bytes)),
        bytes@.len() < archive::file_limit(),
    ensures
        exists|dims: (u32, u32)|
            {
                &&& #[trigger] save::is_near_square(
                    palette.len() as int,
                    dims.0 as int,
                    dims.1 as int,
                )
                &&& if load::v2_bytes(
                    variant,
                    save::v2_settings(variant, palette.len() as u32, dims),
                    w,
                    h,
                    (header.grid_size * header.grid_size) as u32,
                ) <= u32::MAX {
                    &&& load::load_outcome(bytes@, multisample, bits, shape) matches Ok(v)
                    &&& keeps_header(header, variant.flags_spec(), multisample, bits, v)
                    &&& holds_palette(
                        PlaneFormat::R32Uint,
                        dims,
                        save::flat_palette(palette, (dims.0 * dims.1) as nat),
                        v,
                    )
                    &&& holds_indices(variant, w, h, indices, v)
                    &&& v.depth_palette.data == depth.data@
                } else {
                    load::load_outcome(bytes@, multisample, bits, shape) == Err::<LoadedView, _>(
                        Failure::TooLarge,
                    )
                }
            },
{
    let count = palette.len() as u32;
    let r = Ok::<Vec<u8>, asset_loader::AssetError>(bytes);
    let (dims, images) = choose|dims: (u32, u32), images: Seq<ImageFile>|
        {
            &&& #[trigger] save::is_v2_write(header, variant, count, dims, images, r)
            &&& images.len() > 1
            &&& save::is_palette(
                images[0],
                dims,
                1,
                save::flat_palette(palette, (dims.0 * dims.1) as nat),
            )
            &&& save::are_index_images(
                variant,
                w,
                h,
                indices,
                images.subrange(1, images.len() - 1),
            )
            &&& images.last() == depth
        };
    lemma_v2_read(header, variant, count, dims, images, bytes, multisample, bits, shape);
    lemma_square_fits(count, dims);
    let files = archive::zip_contents(bytes@)->0;
    let rest = images.subrange(1, images.len() - 1);
    assert(rest[0] == images[1]);
    assert(load::file_samples(files, images[0].file) == Ok::<_, Failure>(images[0].data@));
    assert(load::file_samples(files, images[1].file) == Ok::<_, Failure>(images[1].data@));
    let last = images.len() - 1;
    assert(load::file_samples(files, images[last].file) == Ok::<_, Failure>(images[last].data@));
    if variant != Variant::V3Idx8 {
        assert(rest[1] == images[2]);
        assert(load::file_samples(files, images[2].file) == Ok::<_, Failure>(images[2].data@));
    }
    assert(save::is_near_square(palette.len() as int, dims.0 as int, dims.1 as int));
}

/// The names of the files of the first format differ.
proof fn lemma_v1_names()
    ensures
        File::Pixels.name_spec()@ != File::Texture.name_spec()@,
        File::Pixels.name_spec()@ != File::Settings.name_spec()@,
{
    reveal_strlit("pixels.png");
    reveal_strlit("texture.png");
    reveal_strlit("settings.txt");
    assert("pixels.png"@.len() == 10);
    assert("texture.png"@.len() == 11);
    assert("settings.txt"@.len() == 12);
}

/// An imposter whose texels were written as they are is read back, where its
/// bytes can be counted.
pub proof fn law_texture_comes_back(
    header: Header,
    image: Raster,
    bytes: Vec<u8>,
    multisample: bool,
    bits: GridBits,
    shape: (u32, u32),
)
    requires
        settings::plain(header.scale@),
        is_whole(header, image.width, image.height),
        image.width * image.height * 8 <= u32::MAX,
        save::is_texture_write(header, image, Ok(bytes)),
        bytes@.len() < archive::file_limit(),
    ensures
        load::load_outcome(bytes@, multisample, bits, shape) matches Ok(v) && {
            &&& keeps_header(header, 0, multisample, bits, v)
            &&& holds_palette(
                PlaneFormat::Rg32Uint,
                (image.width, image.height),
                image.data@,
                v,
            )
        },
{
    let r = Ok::<Vec<u8>, asset_loader::AssetError>(bytes);
    let images = choose|images: Seq<ImageFile>|
        {
            &&& images.len() == 1
            &&& save::is_wide(images[0], File::Texture, image.width, image.height, image.data@)
            &&& #[trigger] save::is_write_of(images, save::header_settings(header, None), r)
        };
    let files = archive::zip_contents(bytes@)->0;
    lemma_settings_read(header, None, files, images);
    lemma_v1_names();
    assert(load::file_samples(files, images[0].file) == Ok::<_, Failure>(images[0].data@));
    assert(!load::is_indexed(files)) by {
        let name = File::Pixels.name_spec()@;
        if files.contains_key(name) {
            assert(save::is_named(images, name));
        }
    }
}

/// An imposter whose texels were numbered is read back where the texels are
/// taken to stand in the columns and rows that they were written in, and its
/// bytes can be counted.
pub proof fn law_numbered_imposter_comes_back(
    header: Header,
    image: Raster,
    distinct: Seq<[u8; 8]>,
    numbers: Seq<usize>,
    dims: (u32, u32),
    bytes: Vec<u8>,
    multisample: bool,
    bits: GridBits,
)
    requires
        settings::plain(header.scale@),
        is_whole(header, image.width, image.height),
        load::v1_bytes(true, dims, image.width, image.height) <= u32::MAX,
        save::is_numbered_write(header, image, distinct, numbers, dims, Ok(bytes)),
        bytes@.len() < archive::file_limit(),
    ensures
        load::load_outcome(bytes@, multisample, bits, dims) matches Ok(v) && {
            &&& keeps_header(header, render::INDEXED_FLAG, multisample, bits, v)
            &&& holds_palette(
                PlaneFormat::Rg32Uint,
                dims,
                save::wide_palette(distinct, (dims.0 * dims.1) as nat),
                v,
            )
            &&& texels::is_number_data(
                numbers,
                image.width as int,
                image.height as int,
                load::short_indices(dims),
                v.indices.data,
            )
        },
{
    let r = Ok::<Vec<u8>, asset_loader::AssetError>(bytes);
    let images = choose|images: Seq<ImageFile>|
        {
            &&& images.len() == 2
            &&& save::is_wide(
                images[0],
                File::Pixels,
                dims.0,
                dims.1,
                save::wide_palette(distinct, (dims.0 * dims.1) as nat),
            )
            &&& images[1].file == File::Indices
            &&& images[1].rgba
            &&& images[1].width == load::index_words(dims, image.width)
            &&& images[1].height == image.height
            &&& images[1].wf()
            &&& texels::is_number_data(
                numbers,
                image.width as int,
                image.height as int,
                load::short_indices(dims),
                images[1].data@,
            )
            &&& #[trigger] save::is_write_of(images, save::header_settings(header, None), r)
        };
    let files = archive::zip_contents(bytes@)->0;
    lemma_settings_read(header, None, files, images);
    assert(load::file_samples(files, images[0].file) == Ok::<_, Failure>(images[0].data@));
    assert(load::file_samples(files, images[1].file) == Ok::<_, Failure>(images[1].data@));
}

/// The files of an imposter whose texels were numbered.
proof fn lemma_numbered_files(
    header: Header,
    image: Raster,
    distinct: Seq<[u8; 8]>,
    numbers: Seq<usize>,
    dims: (u32, u32),
    bytes: Vec<u8>,
)
    requires
        settings::plain(header.scale@),
        save::is_numbered_write(header, image, distinct, numbers, dims, Ok(bytes)),
        bytes@.len() < archive::file_limit(),
    ensures
        archive::zip_contents(bytes@) matches Some(files) && {
            &&& load::settings_name_v1(files)
            &&& load::is_indexed(files)
            &&& load::file_samples(files, File::Pixels) == Ok::<_, Failure>(
                save::wide_palette(distinct, (dims.0 * dims.1) as nat),
            )
        },
{
    let r = Ok::<Vec<u8>, asset_loader::AssetError>(bytes);
    let images = choose|images: Seq<ImageFile>|
        {
            &&& images.len() == 2
            &&& save::is_wide(
                images[0],
                File::Pixels,
                dims.0,
                dims.1,
                save::wide_palette(distinct, (dims.0 * dims.1) as nat),
            )
            &&& images[1].file == File::Indices
            &&& images[1].rgba
            &&& images[1].width == load::index_words(dims, image.width)
            &&& images[1].height == image.height
            &&& images[1].wf()
            &&& texels::is_number_data(
                numbers,
                image.width as int,
                image.height as int,
                load::short_indices(dims),
                images[1].data@,
            )
            &&& #[trigger] save::is_write_of(images, save::header_settings(header, None), r)
        };
    let files = archive::zip_contents(bytes@)->0;
    lemma_settings_read(header, None, files, images);
    assert(load::file_samples(files, images[0].file) == Ok::<_, Failure>(images[0].data@));
}

/// The files of an imposter whose texels were written as they are.
proof fn lemma_texture_files(header: Header, image: Raster, bytes: Vec<u8>)
    requires
        settings::plain(header.scale@),
        save::is_texture_write(header, image, Ok(bytes)),
        bytes@.len() < archive::file_limit(),
    ensures
        archive::zip_contents(bytes@) matches Some(files) && !load::is_indexed(files),
{
    let r = Ok::<Vec<u8>, asset_loader::AssetError>(bytes);
    let images = choose|images: Seq<ImageFile>|
        {
            &&& images.len() == 1
            &&& save::is_wide(images[0], File::Texture, image.width, image.height, image.data@)
            &&& #[trigger] save::is_write_of(images, save::header_settings(header, None), r)
        };
    let files = archive::zip_contents(bytes@)->0;
    lemma_v1_names();
    let name = File::Pixels.name_spec()@;
    if files.contains_key(name) {
        assert(save::is_named(images, name));
    }
}

/// Up to `save::SQUARE_TEXELS` texels, the columns and rows that texels are read in
/// are those that they were written in: the bytes written, the spare places among
/// them, give the same columns and rows again.
pub proof fn law_columns_and_rows_are_found_again<
    W: Fn(usize) -> (u32, u32),
    R: Fn(usize) -> (u32, u32),
>(shape: W, n: int, dims: (u32, u32), read_shape: R, again: (u32, u32))
    requires
        0 < n <= save::SQUARE_TEXELS,
        save::is_written_shape(shape, n, dims),
        load::is_read_shape(read_shape, 8 * (dims.0 * dims.1), again),
    ensures
        again == dims,
        n <= dims.0 * dims.1,
{
    let total = dims.0 * dims.1;
    lemma_square_bounds(n, dims);
    assert((8 * total + 7) / 8 == total);
    lemma_square_again(n, dims, again);
}

/// A square has places for its texels, and few more.
proof fn lemma_square_bounds(n: int, dims: (u32, u32))
    requires
        0 < n <= save::SQUARE_TEXELS,
        save::is_texel_square(n, dims),
    ensures
        n <= dims.0 * dims.1 <= save::SQUARE_TEXELS,
{
    let (x, y) = (dims.0 as int, dims.1 as int);
    assert(n <= x * y && 1 <= y <= x) by (nonlinear_arith)
        requires
            y == (n + x - 1) / x,
            n > 0,
            x >= 1,
            x * x >= n,
    ;
    assert(x <= 0x400) by (nonlinear_arith)
        requires
            x == 1 || (x - 1) * (x - 1) < n,
            n <= 0x10_0000,
            x >= 1,
    ;
    assert(x * y <= 0x10_0000) by (nonlinear_arith)
        requires
            1 <= y <= x <= 0x400,
    ;
}

/// Texels in columns and rows close to a square, the spare places among them, stand
/// in those columns and rows and in no others.
proof fn lemma_square_again(n: int, dims: (u32, u32), again: (u32, u32))
    requires
        n > 0,
        save::is_texel_square(n, dims),
        save::is_texel_square(dims.0 * dims.1, again),
    ensures
        again == dims,
{
    let (x, y) = (dims.0 as int, dims.1 as int);
    let (u, v) = (again.0 as int, again.1 as int);
    assert(n <= x * y && 1 <= y <= x) by (nonlinear_arith)
        requires
            y == (n + x - 1) / x,
            n > 0,
            x >= 1,
            x * x >= n,
    ;
    assert(u == x) by (nonlinear_arith)
        requires
            u >= 1,
            x >= 1,
            1 <= y <= x,
            u * u >= x * y,
            u == 1 || (u - 1) * (u - 1) < x * y,
            x == 1 || (x - 1) * (x - 1) < n,
            n <= x * y,
    ;
    vstd::arithmetic::mul::lemma_mul_is_commutative(x, y);
    vstd::arithmetic::div_mod::lemma_fundamental_div_mod_converse(x * y + x - 1, x, y, x - 1);
}

/// The eight bytes that an imposter of the first format shows at column `x` of row
/// `y`: those of the texel there, or of the texel whose number stands there.
pub open spec fn shown_texel(v: LoadedView, indexed: bool, w: int, y: int, x: int) -> Seq<u8> {
    let at = if indexed {
        texels::number_at(
            v.indices.data,
            w,
            load::short_indices((v.pixels.width, v.pixels.height)),
            y,
            x,
        )
    } else {
        y * w + x
    };
    v.pixels.data.subrange(8 * at, 8 * at + 8)
}

/// `v` shows every texel of `image`, and says whether its texels are numbered.
pub open spec fn shows(
    image: Raster,
    indexed: bool,
    mode: GridMode,
    multisample: bool,
    bits: GridBits,
    v: LoadedView,
) -> bool {
    &&& v.flags == render::flags_of(
        bits,
        mode,
        multisample,
        if indexed {
            render::INDEXED_FLAG
        } else {
            0
        },
    ) as u32
    &&& forall|y: int, x: int|
        0 <= y < image.height && 0 <= x < image.width ==> #[trigger] shown_texel(
            v,
            indexed,
            image.width as int,
            y,
            x,
        ) == image.data@.subrange(
            8 * (y * image.width + x),
            8 * (y * image.width + x) + 8,
        )
}

/// An imposter that was written in the first format is read back with every texel,
/// numbered or not.
proof fn lemma_v1_comes_back<W: Fn(usize) -> (u32, u32), R: Fn(usize) -> (u32, u32)>(
    header: Header,
    out: Raster,
    index: bool,
    shape: W,
    bytes: Vec<u8>,
    multisample: bool,
    bits: GridBits,
    read_shape: R,
    dims: (u32, u32),
)
    requires
        settings::plain(header.scale@),
        is_whole(header, out.width, out.height),
        out.wf(),
        out.width * out.height * 8 <= u32::MAX,
        index ==> texels::texels_in(out.data@).len() <= save::SQUARE_TEXELS,
        save::is_v1_write(header, out, index, shape, Ok(bytes)),
        bytes@.len() < archive::file_limit(),
        load::fits_shape(bytes@, read_shape, dims),
    ensures
        archive::zip_contents(bytes@) is Some,
        load::load_outcome(bytes@, multisample, bits, dims) matches Ok(v) && {
            let indexed = load::is_indexed(archive::zip_contents(bytes@)->0);
            &&& keeps_header(
                header,
                if indexed {
                    render::INDEXED_FLAG
                } else {
                    0
                },
                multisample,
                bits,
                v,
            )
            &&& shows(out, indexed, header.mode, multisample, bits, v)
        },
{
    let (w, h) = (out.width as int, out.height as int);
    let r = Ok::<Vec<u8>, asset_loader::AssetError>(bytes);
    if index {
        let (packs, distinct, numbers, square) = choose|
            packs: Seq<[u8; 8]>,
            distinct: Seq<[u8; 8]>,
            numbers: Seq<usize>,
            square: (u32, u32),
        |
            {
                &&& texels::are_packs(out.data@, packs)
                &&& texels::is_texel_list(packs, distinct)
                &&& #[trigger] texels::are_numbers(packs, distinct, numbers)
                &&& #[trigger] save::is_written_shape(shape, distinct.len() as int, square)
                &&& if save::saves_space(out, square) {
                    save::is_numbered_write(header, out, distinct, numbers, square, r)
                } else {
                    save::is_texture_write(header, out, r)
                }
            };
        if save::saves_space(out, square) {
            texels::lemma_list_length(out.data@, packs, distinct);
            lemma_numbered_shown(
                header,
                out,
                shape,
                packs,
                distinct,
                numbers,
                square,
                bytes,
                multisample,
                bits,
                read_shape,
                dims,
            );
        } else {
            lemma_texture_files(header, out, bytes);
            law_texture_comes_back(header, out, bytes, multisample, bits, dims);
        }
    } else {
        lemma_texture_files(header, out, bytes);
        law_texture_comes_back(header, out, bytes, multisample, bits, dims);
    }
}

proof fn lemma_numbered_shown<W: Fn(usize) -> (u32, u32), R: Fn(usize) -> (u32, u32)>(
    header: Header,
    out: Raster,
    shape: W,
    packs: Seq<[u8; 8]>,
    distinct: Seq<[u8; 8]>,
    numbers: Seq<usize>,
    square: (u32, u32),
    bytes: Vec<u8>,
    multisample: bool,
    bits: GridBits,
    read_shape: R,
    dims: (u32, u32),
)
    requires
        settings::plain(header.scale@),
        is_whole(header, out.width, out.height),
        out.wf(),
        out.width * out.height * 8 <= u32::MAX,
        texels::are_packs(out.data@, packs),
        texels::are_numbers(packs, distinct, numbers),
        distinct.len() <= save::SQUARE_TEXELS,
        save::is_written_shape(shape, distinct.len() as int, square),
        save::saves_space(out, square),
        save::is_numbered_write(header, out, distinct, numbers, square, Ok(bytes)),
        bytes@.len() < archive::file_limit(),
        load::fits_shape(bytes@, read_shape, dims),
    ensures
        archive::zip_contents(bytes@) matches Some(files) && load::is_indexed(files),
        load::load_outcome(bytes@, multisample, bits, dims) matches Ok(v) && {
            &&& keeps_header(header, render::INDEXED_FLAG, multisample, bits, v)
            &&& shows(out, true, header.mode, multisample, bits, v)
        },
{
    let (w, h) = (out.width as int, out.height as int);
    let total = square.0 * square.1;
    lemma_numbered_files(header, out, distinct, numbers, square, bytes);
    assert(packs.len() == w * h);
    assert(0 <= total) by (nonlinear_arith)
        requires
            total == square.0 * square.1,
    ;
    assert(0 < w * h && total < w * h);
    assert(numbers[0] < distinct.len());
    assert(save::wide_palette(distinct, total as nat).len() == 8 * total);
    law_columns_and_rows_are_found_again(
        shape,
        distinct.len() as int,
        square,
        read_shape,
        dims,
    );
    lemma_square_bounds(distinct.len() as int, square);
    let short = load::short_indices(square);
    let words = load::index_words(square, out.width) as int;
    assert(words * h <= w * h) by (nonlinear_arith)
        requires
            words <= w,
            0 <= h,
    ;
    law_numbered_imposter_comes_back(
        header,
        out,
        distinct,
        numbers,
        square,
        bytes,
        multisample,
        bits,
    );
    let v = load::load_outcome(bytes@, multisample, bits, dims)->Ok_0;
    assert forall|y: int, x: int| 0 <= y < h && 0 <= x < w implies #[trigger] shown_texel(
        v,
        true,
        w,
        y,
        x,
    ) == out.data@.subrange(8 * (y * w + x), 8 * (y * w + x) + 8) by {
        texels::law_numbered_texels_come_back(
            packs,
            distinct,
            numbers,
            w,
            h,
            short,
            v.indices.data,
            y,
            x,
        );
        planes::lemma_in_rows(w, h, y, x);
        let k = texels::number_at(v.indices.data, w, short, y, x);
        lemma_palette_entry(distinct, total as nat, k);
        let shown = shown_texel(v, true, w, y, x);
        assert forall|b: int| 0 <= b < 8 implies #[trigger] shown[b] == distinct[k]@[b] by {
            assert(shown[b] == v.pixels.data[8 * k + b]);
        }
        assert(shown =~= distinct[k]@);
        assert(packs[y * w + x]@ == out.data@.subrange(8 * (y * w + x), 8 * (y * w + x) + 8));
    }
}

/// `v` has the grid, the tiles and the scale. Where `pack` says so its tiles are as
/// tight as can be and it shows what is left of the image; otherwise it shows the
/// image. Its flags tell the mode, and whether its texels are numbered.
pub open spec fn is_asset(
    scale: Seq<u8>,
    grid_size: u32,
    tile_size: u32,
    mode: GridMode,
    image: Raster,
    pack: bool,
    indexed: bool,
    multisample: bool,
    bits: GridBits,
    v: LoadedView,
) -> bool {
    let (offset, size) = (v.packed_tile_offset, v.packed_tile_size);
    &&& v.grid_size == grid_size
    &&& v.base_tile_size == tile_size
    &&& v.scale == scale
    &&& render::mode_of(bits, v.flags) == Some(mode)
    &&& render::is_set(v.flags, render::INDEXED_FLAG) == indexed
    &&& if pack {
        &&& raster::is_tight(image, grid_size as int, offset, size)
        &&& exists|out: Raster| #[trigger]
            raster::is_trimmed(image, grid_size as int, offset, size, out) && shows(
                out,
                indexed,
                mode,
                multisample,
                bits,
                v,
            )
    } else {
        &&& offset == (0u32, 0u32)
        &&& size == (tile_size, tile_size)
        &&& shows(image, indexed, mode, multisample, bits, v)
    }
}

/// An imposter that `write_asset` wrote is read by `load` with the grid, the tiles
/// and the scale that it was written with. Untrimmed it shows every texel of the
/// image; trimmed it shows every texel that is left, and its tiles are as tight as
/// can be. Whether its texels are numbered, its flags tell. Its bytes can be counted
/// in 32 bits, and where texels may be numbered, no more than
/// `save::SQUARE_TEXELS` of them are distinct: of more, the columns and rows are the
/// matter of `shape` and `read_shape`.
pub proof fn law_asset_comes_back<W: Fn(usize) -> (u32, u32), R: Fn(usize) -> (u32, u32)>(
    scale: Vec<u8>,
    grid_size: u32,
    tile_size: u32,
    mode: GridMode,
    image: Raster,
    pack: bool,
    index: bool,
    shape: W,
    bytes: Vec<u8>,
    multisample: bool,
    bits: GridBits,
    read_shape: R,
    dims: (u32, u32),
)
    requires
        settings::plain(scale@),
        bits.wf(),
        image.wf(),
        grid_size > 0,
        image.width == tile_size * grid_size,
        image.height == tile_size * grid_size,
        0 < image.width * image.height,
        image.width * image.height * 8 <= u32::MAX,
        index ==> texels::texels_in(image.data@).len() <= save::SQUARE_TEXELS,
        save::is_asset_write(
            scale,
            grid_size,
            tile_size,
            mode,
            image,
            pack,
            index,
            shape,
            Ok(bytes),
        ),
        bytes@.len() < archive::file_limit(),
        load::fits_shape(bytes@, read_shape, dims),
    ensures
        archive::zip_contents(bytes@) is Some,
        load::load_outcome(bytes@, multisample, bits, dims) matches Ok(v) && {
            let indexed = load::is_indexed(archive::zip_contents(bytes@)->0);
            is_asset(
                scale@,
                grid_size,
                tile_size,
                mode,
                image,
                pack,
                indexed,
                multisample,
                bits,
                v,
            )
        },
{
    let r = Ok::<Vec<u8>, asset_loader::AssetError>(bytes);
    let (header, out) = choose|header: Header, out: Raster|
        {
            &&& header.scale == scale
            &&& header.grid_size == grid_size
            &&& header.tile_size == tile_size
            &&& header.mode == mode
            &&& #[trigger] save::is_prepared(image, pack, header, out)
            &&& save::is_v1_write(header, out, index, shape, r)
        };
    lemma_prepared_size(image, pack, header, out);
    lemma_v1_comes_back(
        header,
        out,
        index,
        shape,
        bytes,
        multisample,
        bits,
        read_shape,
        dims,
    );
    lemma_is_asset(
        image,
        pack,
        header,
        out,
        load::is_indexed(archive::zip_contents(bytes@)->0),
        multisample,
        bits,
        load::load_outcome(bytes@, multisample, bits, dims)->Ok_0,
    );
}

/// A prepared image has the size that its header says, and no more texels than the
/// image that it was made of.
proof fn lemma_prepared_size(image: Raster, pack: bool, header: Header, out: Raster)
    requires
        image.wf(),
        header.grid_size > 0,
        image.width == header.tile_size * header.grid_size,
        image.height == header.tile_size * header.grid_size,
        0 < image.width * image.height,
        save::is_prepared(image, pack, header, out),
    ensures
        out.wf(),
        is_whole(header, out.width, out.height),
        out.width * out.height <= image.width * image.height,
        texels::texels_in(out.data@).len() <= texels::texels_in(image.data@).len(),
{
    if pack {
        let (g, t) = (header.grid_size as int, header.tile_size as int);
        let size = header.packed_size;
        assert(t >= 1) by (nonlinear_arith)
            requires
                0 < (t * g) * (t * g),
                g > 0,
                t >= 0,
        ;
        vstd::arithmetic::div_mod::lemma_fundamental_div_mod_converse(t * g, g, t, 0);
        assert(size.0 <= t && size.1 <= t);
        assert((size.0 * g) * (size.1 * g) <= (t * g) * (t * g)) by (nonlinear_arith)
            requires
                0 <= size.0 <= t,
                0 <= size.1 <= t,
                g > 0,
        ;
        lemma_trimmed_texels(image, g, t, header.packed_offset, size, out);
    }
}

/// What is left of a texel's column or row is within the image.
proof fn lemma_source_part(x: int, g: int, t: int, offset: int, size: int)
    requires
        0 < size,
        0 <= offset,
        offset + size <= t,
        0 <= x < size * g,
    ensures
        0 <= (x / size) * t + offset + x % size < t * g,
{
    let q = x / size;
    let m = x % size;
    assert(0 <= q < g && 0 <= m < size) by (nonlinear_arith)
        requires
            q == x / size,
            m == x % size,
            0 < size,
            0 <= x < size * g,
    ;
    assert(0 <= q * t && q * t + t <= t * g) by (nonlinear_arith)
        requires
            0 <= q < g,
            0 < t,
    ;
}

/// Trimming makes no texels.
proof fn lemma_trimmed_texels(
    image: Raster,
    g: int,
    t: int,
    offset: (u32, u32),
    size: (u32, u32),
    out: Raster,
)
    requires
        image.wf(),
        g > 0,
        t > 0,
        image.width == t * g,
        image.height == t * g,
        image.width as int / g == t,
        0 < size.0,
        0 < size.1,
        offset.0 + size.0 <= t,
        offset.1 + size.1 <= t,
        raster::is_trimmed(image, g, offset, size, out),
    ensures
        texels::texels_in(out.data@).len() <= texels::texels_in(image.data@).len(),
{
    let (w, h) = (image.width as int, image.height as int);
    let (ow, oh) = (out.width as int, out.height as int);
    let all = Seq::new(
        (image.data@.len() as int / 8) as nat,
        |i: int| image.data@.subrange(8 * i, 8 * i + 8),
    );
    let left = Seq::new(
        (out.data@.len() as int / 8) as nat,
        |i: int| out.data@.subrange(8 * i, 8 * i + 8),
    );
    assert(all.len() == w * h);
    assert(left.len() == ow * oh);
    assert forall|texel: Seq<u8>| #[trigger] left.to_set().contains(texel) implies all.to_set().contains(
        texel,
    ) by {
        let i = choose|i: int| 0 <= i < left.len() && left[i] == texel;
        let (x, y) = (i % ow, i / ow);
        assert(i == y * ow + x && 0 <= x < ow && 0 <= y < oh) by (nonlinear_arith)
            requires
                x == i % ow,
                y == i / ow,
                0 <= i < ow * oh,
                0 <= ow,
                0 <= oh,
        ;
        lemma_source_part(x, g, t, offset.0 as int, size.0 as int);
        lemma_source_part(y, g, t, offset.1 as int, size.1 as int);
        let sx = (x / size.0 as int) * t + offset.0 + x % size.0 as int;
        let sy = (y / size.1 as int) * t + offset.1 + y % size.1 as int;
        let j = sy * w + sx;
        planes::lemma_in_rows(w, h, sy, sx);
        assert forall|b: int| 0 <= b < 8 implies #[trigger] texel[b] == all[j][b] by {
            assert(texel[b] == out.data@[raster::byte_pos(ow, x, y, b)]);
            assert(out.data@[raster::byte_pos(ow, x, y, b)]
                == image.data@[raster::source_pos(w, t, offset, size, x, y, b)]);
        }
        assert(texel =~= all[j]);
    }
    vstd::seq_lib::seq_to_set_is_finite(all);
    vstd::set_lib::lemma_len_subset(left.to_set(), all.to_set());
}

/// What keeps the header and shows the prepared image is the asset.
proof fn lemma_is_asset(
    image: Raster,
    pack: bool,
    header: Header,
    out: Raster,
    indexed: bool,
    multisample: bool,
    bits: GridBits,
    v: LoadedView,
)
    requires
        bits.wf(),
        save::is_prepared(image, pack, header, out),
        keeps_header(
            header,
            if indexed {
                render::INDEXED_FLAG
            } else {
                0
            },
            multisample,
            bits,
            v,
        ),
        shows(out, indexed, header.mode, multisample, bits, v),
    ensures
        is_asset(
            header.scale@,
            header.grid_size,
            header.tile_size,
            header.mode,
            image,
            pack,
            indexed,
            multisample,
            bits,
            v,
        ),
{
    let layout = if indexed {
        render::INDEXED_FLAG
    } else {
        0
    };
    let flags = v.flags;
    let (m, mask) = (bits.of(header.mode), bits.mask);
    assert(m < 16 && 0u32 & 31 == 0 && 32u32 & 31 == 0) by (bit_vector)
        requires
            m & mask == m,
            mask < 16,
    ;
    render::law_flags_keep_what_they_were_made_of(bits, header.mode, multisample, layout, flags);
    assert((flags & 32 != 0) == (layout == 32)) by (bit_vector)
        requires
            flags & !31u32 == layout,
            layout == 0 || layout == 32,
    ;
    assert(render::is_set(v.flags, render::INDEXED_FLAG) == indexed);
    if pack {
        let (offset, size) = (v.packed_tile_offset, v.packed_tile_size);
        assert(raster::is_trimmed(image, header.grid_size as int, offset, size, out));
    }
}

/// Reading gives an imposter that says of itself what the header said, unless its
/// bytes are too many to count.
pub open spec fn is_readable(
    header: Header,
    multisample: bool,
    bits: GridBits,
    outcome: Result<LoadedView, Failure>,
) -> bool {
    match outcome {
        Ok(v) => exists|variant: Variant| #[trigger]
            keeps_header(header, variant.flags_spec(), multisample, bits, v),
        Err(e) => e == Failure::TooLarge,
    }
}

/// Whatever is written in the second format, in whichever layout, can be read.
pub proof fn law_written_imposter_is_readable<
    M: Metric,
    C: Centroid,
    J: Fn(&Vec<[u8; 8]>, &QuantResult) -> Verdict,
    V: Fn(&Vec<[u8; 8]>) -> FlatResult,
>(
    header: Header,
    packs: &Vec<[u8; 8]>,
    w: u32,
    h: u32,
    metric: &M,
    judge: J,
    flatten: V,
    choices: Choices,
    bytes: Vec<u8>,
    multisample: bool,
    bits: GridBits,
    shape: (u32, u32),
)
    requires
        settings::plain(header.scale@),
        is_whole(header, w, h),
        packs@.len() == w * h,
        save::is_chosen_write::<M, C, J, V>(
            header,
            packs,
            w,
            h,
            metric,
            judge,
            flatten,
            choices,
            Ok(bytes),
        ),
        bytes@.len() < archive::file_limit(),
    ensures
        is_readable(header, multisample, bits, load::load_outcome(bytes@, multisample, bits, shape)),
{
    let r = Ok::<Vec<u8>, asset_loader::AssetError>(bytes);
    if exists|variant: Variant, k: int, q: QuantResult|
        is_some_quantized_write(metric, packs@, header, variant, k, q, w, h, r) {
        let (variant, k, q) = choose|variant: Variant, k: int, q: QuantResult|
            is_some_quantized_write(metric, packs@, header, variant, k, q, w, h, r);
        quantize::law_palette_within_budget(metric, packs@, k, q);
        law_quantized_imposter_comes_back(header, variant, q, w, h, bytes, multisample, bits, shape);
    } else {
        let (q, verdict) = choose|q: QuantResult, verdict: Verdict|
            {
                &&& #[trigger] quantize::is_quantized(metric, packs@, 256, q)
                &&& #[trigger] call_ensures(judge, (packs, &q), verdict)
                &&& if verdict == Verdict::Beyond && choices.allow_v3 {
                    save::is_depthless_write::<C, V>(
                        header,
                        packs,
                        w,
                        h,
                        flatten,
                        choices.emit_idx10s,
                        r,
                    )
                } else if verdict == Verdict::Within {
                    save::is_quantized_write(header, Variant::Idx8, q, w, h, r)
                } else {
                    save::is_larger_write(header, packs, w, h, metric, judge, choices.no_idx14, r)
                }
            };
        if verdict == Verdict::Beyond && choices.allow_v3 {
            lemma_depthless_readable::<C, V>(
                header,
                packs,
                w,
                h,
                flatten,
                choices.emit_idx10s,
                bytes,
                multisample,
                bits,
                shape,
            );
        } else if verdict == Verdict::Within {
            assert(is_some_quantized_write(
                metric,
                packs@,
                header,
                Variant::Idx8,
                256,
                q,
                w,
                h,
                r,
            ));
        } else {
            let large = choose|large: QuantResult|
                {
                    &&& #[trigger] quantize::is_quantized(metric, packs@, 4096, large)
                    &&& {
                        ||| (choices.no_idx14 || call_ensures(
                            judge,
                            (packs, &large),
                            Verdict::Within,
                        )) && save::is_quantized_write(header, Variant::Idx12, large, w, h, r)
                        ||| !choices.no_idx14 && (call_ensures(
                            judge,
                            (packs, &large),
                            Verdict::Beyond,
                        ) || call_ensures(judge, (packs, &large), Verdict::Unordered))
                            && save::is_idx14_write(header, packs@, w, h, metric, r)
                    }
                };
            assert(!is_some_quantized_write(
                metric,
                packs@,
                header,
                Variant::Idx12,
                4096,
                large,
                w,
                h,
                r,
            ));
            let largest = choose|largest: QuantResult| #[trigger]
                quantize::is_quantized(metric, packs@, 16384, largest)
                    && save::is_quantized_write(header, Variant::Idx14, largest, w, h, r);
            assert(is_some_quantized_write(
                metric,
                packs@,
                header,
                Variant::Idx14,
                16384,
                largest,
                w,
                h,
                r,
            ));
        }
    }
}

/// `r` is an archive of a quantisation in one of the layouts of palettes with
/// depths.
spec fn is_some_quantized_write<M: Metric>(
    metric: &M,
    packs: Seq<[u8; 8]>,
    header: Header,
    variant: Variant,
    k: int,
    q: QuantResult,
    w: u32,
    h: u32,
    r: Result<Vec<u8>, asset_loader::AssetError>,
) -> bool {
    &&& variant == Variant::Idx8 || variant == Variant::Idx12 || variant == Variant::Idx14
    &&& k == index_limit(variant)
    &&& quantize::is_quantized(metric, packs, k, q)
    &&& save::is_quantized_write(header, variant, q, w, h, r)
}

proof fn lemma_depthless_readable<C: Centroid, V: Fn(&Vec<[u8; 8]>) -> FlatResult>(
    header: Header,
    packs: &Vec<[u8; 8]>,
    w: u32,
    h: u32,
    flatten: V,
    emit_idx10s: bool,
    bytes: Vec<u8>,
    multisample: bool,
    bits: GridBits,
    shape: (u32, u32),
)
    requires
        settings::plain(header.scale@),
        is_whole(header, w, h),
        packs@.len() == w * h,
        save::is_depthless_write::<C, V>(header, packs, w, h, flatten, emit_idx10s, Ok(bytes)),
        bytes@.len() < archive::file_limit(),
    ensures
        is_readable(header, multisample, bits, load::load_outcome(bytes@, multisample, bits, shape)),
{
    let r = Ok::<Vec<u8>, asset_loader::AssetError>(bytes);
    if emit_idx10s {
        let tiles = save::tiles_of(
            packs@.len(),
            w as int,
            header.grid_size as int,
            header.packed_size,
        );
        let num_tiles = header.grid_size * header.grid_size;
        let slots = save::IDX10S_SLOTS as int;
        let q = choose|q: Option<QuantResult10s>| #[trigger]
            idx10s::is_result_10s::<C>(packs@, tiles, num_tiles, slots, q) && match q {
                None => r matches Err(e) && e.kind_spec() == Failure::PaletteOverflow,
                Some(q) => exists|depth: ImageFile|
                    {
                        &&& save::is_luma(depth, File::DepthPalette, 512, num_tiles as u32)
                        &&& depth.data@ == q.depth_palette@
                        &&& #[trigger] save::is_flat_write(
                            header,
                            Variant::Idx10s,
                            q.palette@,
                            q.indices@,
                            depth,
                            w,
                            h,
                            r,
                        )
                    },
            };
        let q = q->0;
        let depth = choose|depth: ImageFile|
            {
                &&& save::is_luma(depth, File::DepthPalette, 512, num_tiles as u32)
                &&& depth.data@ == q.depth_palette@
                &&& #[trigger] save::is_flat_write(
                    header,
                    Variant::Idx10s,
                    q.palette@,
                    q.indices@,
                    depth,
                    w,
                    h,
                    r,
                )
            };
        idx10s::lemma_result_sizes::<C>(packs@, tiles, num_tiles, slots, q);
        law_flat_imposter_comes_back(
            header,
            Variant::Idx10s,
            q.palette@,
            q.indices@,
            depth,
            w,
            h,
            bytes,
            multisample,
            bits,
            shape,
        );
    } else {
        let q = choose|q: FlatResult| #[trigger]
            call_ensures(flatten, (packs,), q) && save::is_v3_write(header, q, w, h, r);
        let variant = save::v3_variant(q.palette@.len() as int);
        let depth = choose|depth: ImageFile|
            {
                &&& save::is_luma(depth, File::Depth, load::half(w), h)
                &&& planes::is_nibble_plane(
                    planes::low_nibbles(q.depths@),
                    w as int,
                    h as int,
                    depth.data@,
                )
                &&& #[trigger] save::is_flat_write(
                    header,
                    variant,
                    q.palette@,
                    q.indices@,
                    depth,
                    w,
                    h,
                    r,
                )
            };
        law_flat_imposter_comes_back(
            header,
            variant,
            q.palette@,
            q.indices@,
            depth,
            w,
            h,
            bytes,
            multisample,
            bits,
            shape,
        );
    }
}

/// The index of the pixel at column `x` of row `y`, put together from the planes.
pub open spec fn index_at(variant: Variant, v: LoadedView, w: int, y: int, x: int) -> int {
    let low = v.indices.data[y * w + x] as int;
    let high = match variant {
        Variant::Idx8 | Variant::V3Idx8 => 0,
        Variant::Idx14 => v.indices_hi.data[y * w + x] as int,
        Variant::Idx10s => planes::quarter_at(v.indices_hi.data, w, y, x),
        _ => planes::nibble_at(v.indices_hi.data, w, y, x),
    };
    low + 256 * high
}

/// The indices of a layout are below this.
pub open spec fn index_limit(variant: Variant) -> int {
    match variant {
        Variant::Idx8 | Variant::V3Idx8 => 0x100,
        Variant::Idx12 | Variant::V3Idx12 => 0x1000,
        Variant::Idx14 => 0x4000,
        Variant::Idx10s => 0x400,
    }
}

/// The planes of every layout give back the index of every pixel that the layout
/// has room for.
pub proof fn law_pixel_indices_come_back(
    variant: Variant,
    w: u32,
    h: u32,
    indices: Seq<u16>,
    v: LoadedView,
    y: int,
    x: int,
)
    requires
        indices.len() == w * h,
        holds_indices(variant, w, h, indices, v),
        0 <= y < h,
        0 <= x < w,
        indices[y * w + x] < index_limit(variant),
    ensures
        index_at(variant, v, w as int, y, x) == indices[y * w + x],
{
    planes::lemma_in_rows(w as int, h as int, y, x);
    match variant {
        Variant::Idx8 | Variant::V3Idx8 => {},
        Variant::Idx14 => planes::law_fourteen_bit_indices_come_back(indices, y * w + x),
        Variant::Idx10s => planes::law_ten_bit_indices_come_back(
            indices,
            w as int,
            h as int,
            v.indices_hi.data,
            y,
            x,
        ),
        _ => planes::law_twelve_bit_indices_come_back(
            indices,
            w as int,
            h as int,
            v.indices_hi.data,
            y,
            x,
        ),
    }
}

/// Where the bytes of a palette entry are.
proof fn lemma_palette_entry(palette: Seq<[u8; 8]>, total: nat, k: int)
    requires
        0 <= k < palette.len() <= total,
    ensures
        forall|b: int|
            0 <= b < 8 ==> #[trigger] save::wide_palette(palette, total)[8 * k + b]
                == palette[k]@[b],
{
    assert forall|b: int| 0 <= b < 8 implies #[trigger] save::wide_palette(palette, total)[8 * k
        + b] == palette[k]@[b] by {
        vstd::arithmetic::div_mod::lemma_fundamental_div_mod_converse(8 * k + b, 8, k, b);
    }
}

/// In an imposter that was quantised to the palette of its layout, written and
/// read back, looking a pixel up gives the palette entry that the quantiser chose
/// for it.
pub proof fn law_quantized_pixels_come_back<M: Metric>(
    metric: &M,
    packs: Seq<[u8; 8]>,
    q: QuantResult,
    variant: Variant,
    w: u32,
    h: u32,
    dims: (u32, u32),
    v: LoadedView,
    y: int,
    x: int,
)
    requires
        packs.len() == w * h,
        variant == Variant::Idx8 || variant == Variant::Idx12 || variant == Variant::Idx14,
        quantize::is_quantized(metric, packs, index_limit(variant), q),
        save::is_near_square(q.palette@.len() as int, dims.0 as int, dims.1 as int),
        holds_palette(
            PlaneFormat::Rg32Uint,
            dims,
            save::wide_palette(q.palette@, (dims.0 * dims.1) as nat),
            v,
        ),
        holds_indices(variant, w, h, q.indices@, v),
        0 <= y < h,
        0 <= x < w,
    ensures
        forall|b: int|
            0 <= b < 8 ==> #[trigger] v.pixels.data[8 * index_at(variant, v, w as int, y, x) + b]
                == q.palette@[q.indices@[y * w + x] as int]@[b],
{
    planes::lemma_in_rows(w as int, h as int, y, x);
    quantize::law_palette_within_budget(metric, packs, index_limit(variant), q);
    assert(q.indices@.len() == packs.len());
    law_pixel_indices_come_back(variant, w, h, q.indices@, v, y, x);
    let n = q.palette@.len() as int;
    let (dx, dy) = (dims.0 as int, dims.1 as int);
    assert(n <= dx * dy) by (nonlinear_arith)
        requires
            n > 0,
            dx >= 1,
            dy == (n + dx - 1) / dx,
    ;
    lemma_palette_entry(q.palette@, (dx * dy) as nat, q.indices@[y * w + x] as int);
}

} // verus!
