//! Writing imposters.

use vstd::prelude::*;
use vstd::string::*;

use crate::archive;
use crate::archive::{ArchiveWriter, File};
use crate::asset_loader::load;
use crate::asset_loader::texels;
use crate::asset_loader::texels::{number_bytes, number_texels, split_packs};
use crate::asset_loader::{AssetError, Failure, Variant};
use crate::grid::GridMode;
use crate::planes;
use crate::png;
use crate::quantize::group::Centroid;
use crate::quantize::idx10s;
use crate::quantize::idx10s::{quantize_10s, QuantResult10s};
use crate::quantize;
use crate::quantize::cut::Metric;
use crate::quantize::{is_alpha_zero, quantize, QuantResult};
use crate::raster;
use crate::raster::{pack_asset, Raster};
use crate::settings;
use crate::settings::{format_settings, Settings, SettingsView, V2Settings, V2SettingsView};
use crate::texel;

verus! {

/// An image that goes into an archive.
pub struct ImageFile {
    pub file: File,
    /// Four samples per pixel rather than one.
    pub rgba: bool,
    pub width: u32,
    pub height: u32,
    pub data: Vec<u8>,
}

impl ImageFile {
    /// There are as many samples as the sizes say.
    pub open spec fn wf(self) -> bool {
        self.data@.len() == self.width * self.height * if self.rgba {
            4int
        } else {
            1
        }
    }

    /// The PNG file of the image; `None` where it has no pixels.
    pub open spec fn png(self) -> Option<Seq<u8>> {
        if self.width == 0 || self.height == 0 {
            None
        } else if self.rgba {
            Some(png::rgba_png(self.width, self.height, self.data@))
        } else {
            Some(png::luma_png(self.width, self.height, self.data@))
        }
    }
}

/// One of the images has that name.
pub open spec fn is_named(images: Seq<ImageFile>, name: Seq<char>) -> bool {
    exists|i: int| 0 <= i < images.len() && (#[trigger] images[i]).file.name_spec()@ == name
}

/// The files are the PNG files of the images, and the settings; decoding a PNG file
/// gives the samples of its image.
pub open spec fn is_archive_of(
    files: Map<Seq<char>, Option<Seq<u8>>>,
    images: Seq<ImageFile>,
    s: SettingsView,
) -> bool {
    &&& forall|i: int|
        0 <= i < images.len() ==> {
            &&& images[i].png() matches Some(bytes)
            &&& load::file_bytes(files, (#[trigger] images[i]).file) == Ok::<_, Failure>(bytes)
            &&& load::file_samples(files, images[i].file) == Ok::<_, Failure>(images[i].data@)
        }
    &&& load::file_bytes(files, File::Settings) == Ok::<_, Failure>(
        settings::join(settings::fields_of(s)),
    )
    &&& forall|name: Seq<char>| #[trigger]
        files.contains_key(name) ==> name == File::Settings.name_spec()@ || is_named(images, name)
}

/// Why image `i` cannot be written after those before it: it has no pixels, its
/// file is too long, or its name was used before.
pub open spec fn image_failure(images: Seq<ImageFile>, i: int) -> Option<Failure> {
    match images[i].png() {
        None => Some(Failure::Image),
        Some(file) => if file.len() > archive::file_limit() || is_named(
            images.take(i),
            images[i].file.name_spec()@,
        ) {
            Some(Failure::Archive)
        } else {
            None
        },
    }
}

/// Why the first `n` images cannot be written, if they cannot.
pub open spec fn images_failure(images: Seq<ImageFile>, n: nat) -> Option<Failure>
    decreases n,
{
    if n == 0 {
        None
    } else if images_failure(images, (n - 1) as nat) is Some {
        images_failure(images, (n - 1) as nat)
    } else {
        image_failure(images, n - 1)
    }
}

/// Why images and settings cannot be written, if they cannot.
pub open spec fn write_failure(images: Seq<ImageFile>, s: SettingsView) -> Option<Failure> {
    if images_failure(images, images.len()) is Some {
        images_failure(images, images.len())
    } else if settings::join(settings::fields_of(s)).len() > archive::file_limit() || is_named(
        images,
        File::Settings.name_spec()@,
    ) {
        Some(Failure::Archive)
    } else {
        None
    }
}

/// `r` is an archive of the images and the settings, or why there is none. Of an
/// archive that is too long for sizes of 32 bits it is not said that it can be
/// read.
pub open spec fn is_write_of(
    images: Seq<ImageFile>,
    s: SettingsView,
    r: Result<Vec<u8>, AssetError>,
) -> bool {
    match write_failure(images, s) {
        Some(failure) => r matches Err(e) && e.kind_spec() == failure,
        None => r matches Ok(bytes) && (bytes@.len() < archive::file_limit() ==> {
            &&& archive::zip_contents(bytes@) matches Some(files)
            &&& is_archive_of(files, images, s)
        }),
    }
}

fn encode(image: ImageFile) -> (r: Result<Vec<u8>, AssetError>)
    requires
        image.wf(),
    ensures
        r matches Ok(file) ==> image.png() == Some(file@) && png::png_samples(file@) == Some(
            image.data@,
        ),
        r matches Err(e) ==> image.png() is None && e.kind_spec() == Failure::Image,
{
    let r = if image.rgba {
        png::encode_rgba(image.width, image.height, image.data)
    } else {
        png::encode_luma(image.width, image.height, image.data)
    };
    match r {
        Ok(file) => Ok(file),
        Err(e) => Err(AssetError::Image(e)),
    }
}

/// The first `n` images have been written.
spec fn wrote(entries: Seq<(Seq<char>, Seq<u8>)>, images: Seq<ImageFile>, n: int) -> bool {
    let found = archive::by_name(entries);
    &&& 0 <= n <= images.len()
    &&& entries.len() == n
    &&& images_failure(images, n as nat) is None
    &&& forall|i: int|
        0 <= i < n ==> {
            let name = (#[trigger] images[i]).file.name_spec()@;
            &&& found.contains_key(name)
            &&& found[name] matches Some(bytes)
            &&& images[i].png() == Some(bytes)
            &&& png::png_samples(bytes) == Some(images[i].data@)
        }
    &&& forall|name: Seq<char>| #[trigger]
        found.contains_key(name) <==> is_named(images.take(n), name)
}

proof fn lemma_wrote_one(
    entries: Seq<(Seq<char>, Seq<u8>)>,
    images: Seq<ImageFile>,
    n: int,
    bytes: Seq<u8>,
)
    requires
        0 <= n < images.len(),
        wrote(entries, images, n),
        image_failure(images, n) is None,
        images[n].png() == Some(bytes),
        png::png_samples(bytes) == Some(images[n].data@),
    ensures
        wrote(entries.push((images[n].file.name_spec()@, bytes)), images, n + 1),
{
    let name = images[n].file.name_spec()@;
    let longer = entries.push((name, bytes));
    assert(longer.drop_last() =~= entries);
    let found = archive::by_name(longer);
    assert(!archive::by_name(entries).contains_key(name));
    assert forall|other: Seq<char>| #[trigger] found.contains_key(other) <==> is_named(
        images.take(n + 1),
        other,
    ) by {
        if is_named(images.take(n + 1), other) && other != name {
            let i = choose|i: int|
                0 <= i < n + 1 && (#[trigger] images.take(n + 1)[i]).file.name_spec()@ == other;
            assert(images.take(n)[i].file.name_spec()@ == other);
            assert(is_named(images.take(n), other));
        }
        if is_named(images.take(n), other) {
            let i = choose|i: int|
                0 <= i < n && (#[trigger] images.take(n)[i]).file.name_spec()@ == other;
            assert(images.take(n + 1)[i].file.name_spec()@ == other);
        }
        assert(images.take(n + 1)[n].file.name_spec()@ == name);
        if found.contains_key(other) && other != name {
            assert(archive::by_name(entries).contains_key(other));
        }
    }
}

/// What keeps the first images from being written keeps all from being written.
proof fn lemma_failure_stays(images: Seq<ImageFile>, n: nat, m: nat)
    requires
        n <= m,
        images_failure(images, n) is Some,
    ensures
        images_failure(images, m) == images_failure(images, n),
    decreases m,
{
    if n < m {
        lemma_failure_stays(images, n, (m - 1) as nat);
    }
}

/// Writes images and settings into an archive.
pub fn write_files(images: Vec<ImageFile>, s: &Settings) -> (r: Result<Vec<u8>, AssetError>)
    requires
        forall|i: int| 0 <= i < images@.len() ==> (#[trigger] images@[i]).wf(),
    ensures
        is_write_of(images@, s@, r),
{
    let ghost all = images@;
    let mut queue: Vec<ImageFile> = images;
    let mut writer: ArchiveWriter = ArchiveWriter::new();
    let mut i: usize = 0;
    while i < queue.len()
        invariant
            i <= all.len(),
            all == images@,
            queue@.len() == all.len(),
            forall|j: int| 0 <= j < all.len() ==> (#[trigger] all[j]).wf(),
            forall|j: int| i <= j < all.len() ==> #[trigger] queue@[j] == all[j],
            archive::is_open(writer),
            wrote(archive::written(writer), all, i as int),
        decreases all.len() - i,
    {
        let ghost entries = archive::written(writer);
        assert(queue@[i as int] == all[i as int]);
        let mut data: Vec<u8> = Vec::new();
        std::mem::swap(&mut data, &mut queue[i].data);
        let image: ImageFile = ImageFile {
            file: queue[i].file,
            rgba: queue[i].rgba,
            width: queue[i].width,
            height: queue[i].height,
            data,
        };
        let file: File = image.file;
        assert(image == all[i as int]);
        let ghost failure = image_failure(all, i as int);
        proof {
            if failure is Some {
                lemma_failure_stays(all, (i + 1) as nat, all.len());
            }
        }
        let bytes: Vec<u8> = match encode(image) {
            Ok(bytes) => bytes,
            Err(e) => {
                return Err(e);
            },
        };
        match writer.put(file, bytes.as_slice()) {
            Ok(_) => {},
            Err(e) => {
                assert(failure == Some(Failure::Archive));
                return Err(AssetError::Archive(e));
            },
        }
        proof {
            lemma_wrote_one(entries, all, i as int, bytes@);
        }
        i = i + 1;
    }
    let ghost entries = archive::written(writer);
    proof {
        assert(all.take(i as int) =~= all);
    }
    let line: Vec<u8> = format_settings(s);
    match writer.put(File::Settings, line.as_slice()) {
        Ok(_) => {},
        Err(e) => {
            return Err(AssetError::Archive(e));
        },
    }
    match writer.finish() {
        Ok(bytes) => {
            proof {
                let name = File::Settings.name_spec()@;
                let longer = entries.push((name, line@));
                assert(longer.drop_last() =~= entries);
                let files = archive::by_name(longer);
                assert forall|j: int| 0 <= j < all.len() implies load::file_samples(
                    files,
                    (#[trigger] all[j]).file,
                ) == Ok::<_, Failure>(all[j].data@) && load::file_bytes(files, all[j].file)
                    == Ok::<_, Failure>(all[j].png()->0) && all[j].png() is Some by {
                    assert(all[j].file.name_spec()@ != name);
                }
                assert(is_archive_of(files, all, s@));
            }
            Ok(bytes)
        },
        Err(e) => Err(AssetError::Archive(e)),
    }
}

/// What is known of an imposter beside its texels.
pub struct Header {
    /// The scale, as it is to be written.
    pub scale: Vec<u8>,
    pub grid_size: u32,
    /// The size of a tile before trimming.
    pub tile_size: u32,
    pub mode: GridMode,
    /// The first column and row of a tile that are kept.
    pub packed_offset: (u32, u32),
    /// The columns and rows of a tile that are kept.
    pub packed_size: (u32, u32),
}

/// The settings that go with a header.
pub open spec fn header_settings(h: Header, v2: Option<V2SettingsView>) -> SettingsView {
    SettingsView {
        grid_size: h.grid_size,
        scale: h.scale@,
        mode: h.mode.name_spec().spec_bytes(),
        base_tile_size: h.tile_size,
        offset: h.packed_offset,
        size: h.packed_size,
        v2,
    }
}

/// The settings of a palette of `count` entries in `dims.0` columns and `dims.1` rows.
pub open spec fn v2_settings(variant: Variant, count: u32, dims: (u32, u32)) -> V2SettingsView {
    V2SettingsView {
        variant: variant.name_spec().spec_bytes(),
        palette_count: count,
        palette_x: dims.0,
        palette_y: dims.1,
    }
}

fn make_settings(h: &Header, v2: Option<V2Settings>) -> (s: Settings)
    ensures
        s@ == header_settings(
            *h,
            match v2 {
                Some(v2) => Some(v2@),
                None => None,
            },
        ),
{
    Settings {
        grid_size: h.grid_size,
        scale: vstd::slice::slice_to_vec(h.scale.as_slice()),
        mode: h.mode.name().as_bytes_vec(),
        base_tile_size: h.tile_size,
        offset: h.packed_offset,
        size: h.packed_size,
        v2,
    }
}

/// `x` columns and `y` rows hold `n` entries in a shape close to a square: the
/// fewest columns that are no fewer than the rows, and as few rows as they allow.
pub open spec fn is_near_square(n: int, x: int, y: int) -> bool {
    &&& x >= 1
    &&& x * x >= n
    &&& x == 1 || (x - 1) * (x - 1) < n
    &&& y == if n == 0 {
        1
    } else {
        (n + x - 1) / x
    }
}

/// Columns and rows for `n` entries.
pub fn near_square(n: u32) -> (dims: (u32, u32))
    requires
        n <= 0x10_0000,
    ensures
        is_near_square(n as int, dims.0 as int, dims.1 as int),
        dims.0 * dims.1 >= n,
        n <= 0x1_0000 ==> dims.0 <= 0x100,
        dims.1 <= dims.0,
{
    let mut x: u32 = 1;
    while x * x < n
        invariant
            n <= 0x10_0000,
            1 <= x <= 0x400,
            x * x <= 0x10_0000,
            x == 1 || (x - 1) * (x - 1) < n,
        decreases 0x400 - x,
    {
        proof {
            assert(x < 0x400) by (nonlinear_arith)
                requires
                    x * x < n,
                    n <= 0x10_0000,
                    1 <= x <= 0x400,
            ;
            assert((x + 1) * (x + 1) <= 0x10_0000) by (nonlinear_arith)
                requires
                    1 <= x < 0x400,
            ;
        }
        x = x + 1;
    }
    let y: u32 = if n == 0 {
        1
    } else {
        (n + x - 1) / x
    };
    proof {
        if n <= 0x1_0000 {
            assert(x <= 0x100) by (nonlinear_arith)
                requires
                    x == 1 || (x - 1) * (x - 1) < n,
                    n <= 0x1_0000,
                    1 <= x,
            ;
        }
        if n > 0 {
            assert(x * y >= n && y <= x) by (nonlinear_arith)
                requires
                    y == (n + x - 1) / x as int,
                    x >= 1,
                    x * x >= n,
                    n > 0,
            ;
        } else {
            assert(x * y >= n) by (nonlinear_arith)
                requires
                    n == 0,
            ;
        }
    }
    (x, y)
}

/// Up to so many distinct texels stand in columns and rows close to a square.
pub const SQUARE_TEXELS: usize = 0x10_0000;

/// `n` texels that are looked up stand in `dims.0` columns and `dims.1` rows.
pub open spec fn is_texel_square(n: int, dims: (u32, u32)) -> bool {
    if n == 0 {
        dims == (0u32, 0u32)
    } else {
        is_near_square(n, dims.0 as int, dims.1 as int)
    }
}

/// Columns and rows for texels that are looked up.
pub fn texel_square(n: usize) -> (dims: (u32, u32))
    requires
        n <= SQUARE_TEXELS,
    ensures
        is_texel_square(n as int, dims),
{
    if n == 0 {
        (0, 0)
    } else {
        near_square(n as u32)
    }
}

/// `n` texels are written in `dims.0` columns and `dims.1` rows: close to a square,
/// and as `shape` says where they are so many that the rounding of a root matters.
pub open spec fn is_written_shape<F: Fn(usize) -> (u32, u32)>(
    shape: F,
    n: int,
    dims: (u32, u32),
) -> bool {
    if n <= SQUARE_TEXELS {
        is_texel_square(n, dims)
    } else {
        call_ensures(shape, (n as usize,), dims)
    }
}

/// The first `total` entries of eight bytes, and zeros up to so many.
pub open spec fn wide_palette(entries: Seq<[u8; 8]>, total: nat) -> Seq<u8> {
    Seq::new(
        8 * total,
        |i: int|
            if i / 8 < entries.len() {
                entries[i / 8]@[i % 8]
            } else {
                0u8
            },
    )
}

/// Byte `b` of a word, the lowest first.
pub open spec fn word_byte(word: u32, b: int) -> u8 {
    if b == 0 {
        (word % 0x100) as u8
    } else if b == 1 {
        ((word / 0x100) % 0x100) as u8
    } else if b == 2 {
        ((word / 0x1_0000) % 0x100) as u8
    } else {
        (word / 0x100_0000) as u8
    }
}

/// Entries of one word, and zeros up to `total` entries.
pub open spec fn flat_palette(entries: Seq<u32>, total: nat) -> Seq<u8> {
    Seq::new(
        4 * total,
        |i: int|
            if i / 4 < entries.len() {
                word_byte(entries[i / 4], i % 4)
            } else {
                0u8
            },
    )
}

/// The bytes of a palette with entries of eight bytes.
pub fn wide_palette_bytes(entries: &Vec<[u8; 8]>, total: usize) -> (bytes: Vec<u8>)
    requires
        8 * total <= usize::MAX,
    ensures
        bytes@ == wide_palette(entries@, total as nat),
{
    let mut bytes: Vec<u8> = Vec::new();
    let mut i: usize = 0;
    while i < 8 * total
        invariant
            i <= 8 * total,
            8 * total <= usize::MAX,
            bytes@.len() == i,
            forall|j: int|
                0 <= j < i ==> #[trigger] bytes@[j] == wide_palette(entries@, total as nat)[j],
        decreases 8 * total - i,
    {
        if i / 8 < entries.len() {
            bytes.push(entries[i / 8][i % 8]);
        } else {
            bytes.push(0);
        }
        i = i + 1;
    }
    assert(bytes@ =~= wide_palette(entries@, total as nat));
    bytes
}

/// The bytes of a palette with entries of one word.
pub fn flat_palette_bytes(entries: &Vec<u32>, total: usize) -> (bytes: Vec<u8>)
    requires
        entries@.len() <= total,
        4 * total <= usize::MAX,
    ensures
        bytes@ == flat_palette(entries@, total as nat),
{
    let mut bytes: Vec<u8> = Vec::new();
    let mut i: usize = 0;
    while i < 4 * total
        invariant
            i <= 4 * total,
            4 * total <= usize::MAX,
            bytes@.len() == i,
            forall|j: int|
                0 <= j < i ==> #[trigger] bytes@[j] == flat_palette(entries@, total as nat)[j],
        decreases 4 * total - i,
    {
        if i / 4 < entries.len() {
            let word: u32 = entries[i / 4];
            let byte: u8 = if i % 4 == 0 {
                (word % 0x100) as u8
            } else if i % 4 == 1 {
                ((word / 0x100) % 0x100) as u8
            } else if i % 4 == 2 {
                ((word / 0x1_0000) % 0x100) as u8
            } else {
                (word / 0x100_0000) as u8
            };
            bytes.push(byte);
        } else {
            bytes.push(0);
        }
        i = i + 1;
    }
    assert(bytes@ =~= flat_palette(entries@, total as nat));
    bytes
}

/// `image` goes to `file` as `w` by `h` samples.
pub open spec fn is_luma(image: ImageFile, file: File, w: u32, h: u32) -> bool {
    &&& image.file == file
    &&& !image.rgba
    &&& image.width == w
    &&& image.height == h
    &&& image.wf()
}

/// The images that hold the indices in a layout.
pub open spec fn are_index_images(
    variant: Variant,
    w: u32,
    h: u32,
    indices: Seq<u16>,
    images: Seq<ImageFile>,
) -> bool {
    match variant {
        Variant::Idx8 | Variant::V3Idx8 => {
            &&& images.len() == 1
            &&& is_luma(images[0], File::Idx, w, h)
            &&& images[0].data@ == planes::low_bytes(indices)
        },
        _ => {
            &&& images.len() == 2
            &&& is_luma(images[0], File::IdxLo, w, h)
            &&& images[0].data@ == planes::low_bytes(indices)
            &&& is_high_image(variant, w, h, indices, images[1])
        },
    }
}

/// The image that holds what the low bytes of the indices leave.
pub open spec fn is_high_image(
    variant: Variant,
    w: u32,
    h: u32,
    indices: Seq<u16>,
    image: ImageFile,
) -> bool {
    match variant {
        Variant::Idx14 => {
            &&& is_luma(image, File::IdxHi, w, h)
            &&& image.data@ == planes::high_parts(indices, 64)
        },
        Variant::Idx10s => {
            &&& is_luma(image, File::IdxHi, load::quarter(w), h)
            &&& planes::is_quarter_plane(
                planes::high_parts(indices, 4),
                w as int,
                h as int,
                image.data@,
            )
        },
        _ => {
            &&& is_luma(image, File::IdxHi, load::half(w), h)
            &&& planes::is_nibble_plane(
                planes::high_parts(indices, 16),
                w as int,
                h as int,
                image.data@,
            )
        },
    }
}

fn luma(file: File, width: u32, height: u32, data: Vec<u8>) -> (image: ImageFile)
    requires
        data@.len() == width * height,
    ensures
        is_luma(image, file, width, height),
        image.data == data,
{
    ImageFile { file, rgba: false, width, height, data }
}

/// The images that hold the indices in a layout.
pub fn index_images(variant: Variant, w: u32, h: u32, indices: &Vec<u16>) -> (images: Vec<ImageFile>)
    requires
        indices@.len() == w * h,
    ensures
        are_index_images(variant, w, h, indices@, images@),
{
    let mut images: Vec<ImageFile> = Vec::new();
    let low: Vec<u8> = planes::lows(indices);
    let half_w: u32 = w / 2 + w % 2;
    let quarter_w: u32 = if w % 4 == 0 {
        w / 4
    } else {
        w / 4 + 1
    };
    match variant {
        Variant::Idx8 => {
            images.push(luma(File::Idx, w, h, low));
        },
        Variant::V3Idx8 => {
            images.push(luma(File::Idx, w, h, low));
        },
        Variant::Idx14 => {
            let high: Vec<u8> = planes::highs(indices, 64);
            images.push(luma(File::IdxLo, w, h, low));
            images.push(luma(File::IdxHi, w, h, high));
        },
        Variant::Idx10s => {
            let parts: Vec<u8> = planes::highs(indices, 4);
            let high: Vec<u8> = planes::pack_quarters(&parts, w as usize, h as usize);
            images.push(luma(File::IdxLo, w, h, low));
            images.push(luma(File::IdxHi, quarter_w, h, high));
        },
        _ => {
            let parts: Vec<u8> = planes::highs(indices, 16);
            let high: Vec<u8> = planes::pack_nibbles(&parts, w as usize, h as usize);
            images.push(luma(File::IdxLo, w, h, low));
            images.push(luma(File::IdxHi, half_w, h, high));
        },
    }
    images
}

/// `image` is a palette of `dims.0` by `dims.1` entries, each `per` pixels wide.
pub open spec fn is_palette(image: ImageFile, dims: (u32, u32), per: int, data: Seq<u8>) -> bool {
    &&& image.file == File::Palette
    &&& image.rgba
    &&& image.width == dims.0 * per
    &&& image.height == dims.1
    &&& image.data@ == data
    &&& image.wf()
}

/// `r` is an archive of the images of a layout, and of the settings of its
/// palette of `count` entries.
pub open spec fn is_v2_write(
    h: Header,
    variant: Variant,
    count: u32,
    dims: (u32, u32),
    images: Seq<ImageFile>,
    r: Result<Vec<u8>, AssetError>,
) -> bool {
    &&& is_near_square(count as int, dims.0 as int, dims.1 as int)
    &&& is_write_of(images, header_settings(h, Some(v2_settings(variant, count, dims))), r)
}

/// `r` is an archive of a palette with depths and of indices into it.
pub open spec fn is_quantized_write(
    header: Header,
    variant: Variant,
    q: QuantResult,
    w: u32,
    h: u32,
    r: Result<Vec<u8>, AssetError>,
) -> bool {
    exists|dims: (u32, u32), images: Seq<ImageFile>|
        {
            &&& #[trigger] is_v2_write(header, variant, q.palette@.len() as u32, dims, images, r)
            &&& images.len() > 0
            &&& is_palette(
                images[0],
                dims,
                2,
                wide_palette(q.palette@, (dims.0 * dims.1) as nat),
            )
            &&& are_index_images(variant, w, h, q.indices@, images.skip(1))
        }
}

fn palette_settings(variant: Variant, count: u32, dims: (u32, u32)) -> (v2: V2Settings)
    ensures
        v2@ == v2_settings(variant, count, dims),
{
    V2Settings {
        variant: variant.name().as_bytes_vec(),
        palette_count: count,
        palette_x: dims.0,
        palette_y: dims.1,
    }
}

/// Writes a palette with depths and indices into it.
pub fn write_quantized(header: &Header, variant: Variant, q: &QuantResult, w: u32, h: u32) -> (r:
    Result<Vec<u8>, AssetError>)
    requires
        q.palette@.len() <= 0x1_0000,
        q.indices@.len() == w * h,
    ensures
        is_quantized_write(*header, variant, *q, w, h, r),
{
    let count: u32 = q.palette.len() as u32;
    let dims: (u32, u32) = near_square(count);
    proof {
        assert(dims.0 * dims.1 <= 0x1_0000) by (nonlinear_arith)
            requires
                dims.0 <= 0x100,
                dims.1 <= 0x100,
        ;
        assert((dims.0 * 2) * dims.1 * 4 == 8 * (dims.0 * dims.1)) by (nonlinear_arith);
    }
    let total: usize = dims.0 as usize * dims.1 as usize;
    let mut images: Vec<ImageFile> = Vec::new();
    images.push(
        ImageFile {
            file: File::Palette,
            rgba: true,
            width: dims.0 * 2,
            height: dims.1,
            data: wide_palette_bytes(&q.palette, total),
        },
    );
    let mut rest: Vec<ImageFile> = index_images(variant, w, h, &q.indices);
    let ghost planes = rest@;
    let ghost first = images@[0];
    images.append(&mut rest);
    proof {
        assert(images@.skip(1) =~= planes);
        assert(images@[0] == first);
        assert forall|i: int| 0 <= i < images@.len() implies (#[trigger] images@[i]).wf() by {
            if i > 0 {
                assert(images@[i] == planes[i - 1]);
            }
        }
    }
    let ghost all = images@;
    let s: Settings = make_settings(header, Some(palette_settings(variant, count, dims)));
    let r: Result<Vec<u8>, AssetError> = write_files(images, &s);
    assert(is_v2_write(*header, variant, count, dims, all, r));
    r
}

/// The tile that pixel `i` of an image with `w` columns is in.
pub open spec fn tile_of(w: int, grid: int, size: (u32, u32), i: int) -> int {
    ((i / w) / size.1 as int) * grid + (i % w) / size.0 as int
}

/// The tiles of the first `n` pixels of an image with `w` columns, cut to 16 bits.
pub open spec fn tiles_of(n: nat, w: int, grid: int, size: (u32, u32)) -> Seq<u16> {
    Seq::new(n, |i: int| (tile_of(w, grid, size, i) % 0x1_0000) as u16)
}

/// The tile of each pixel, row by row, cut to 16 bits.
pub fn tile_indices(w: u32, h: u32, grid: u32, size: (u32, u32)) -> (tiles: Vec<u16>)
    requires
        w > 0 && h > 0 ==> size.0 > 0 && size.1 > 0,
    ensures
        tiles@ == tiles_of((w * h) as nat, w as int, grid as int, size),
{
    let mut tiles: Vec<u16> = Vec::new();
    let mut y: u32 = 0;
    assert(0 * w == 0) by (nonlinear_arith);
    while y < h
        invariant
            y <= h,
            w > 0 && h > 0 ==> size.0 > 0 && size.1 > 0,
            tiles@.len() == y * w,
            forall|i: int|
                0 <= i < tiles@.len() ==> #[trigger] tiles@[i] == tile_of(
                    w as int,
                    grid as int,
                    size,
                    i,
                ) % 0x1_0000,
        decreases h - y,
    {
        let mut x: u32 = 0;
        while x < w
            invariant
                x <= w,
                y < h,
                w > 0 && h > 0 ==> size.0 > 0 && size.1 > 0,
                tiles@.len() == y * w + x,
                forall|i: int|
                    0 <= i < tiles@.len() ==> #[trigger] tiles@[i] == tile_of(
                        w as int,
                        grid as int,
                        size,
                        i,
                    ) % 0x1_0000,
            decreases w - x,
        {
            proof {
                vstd::arithmetic::div_mod::lemma_fundamental_div_mod_converse(
                    y * w + x,
                    w as int,
                    y as int,
                    x as int,
                );
            }
            let tile: u64 = load::times(y / size.1, grid) + (x / size.0) as u64;
            tiles.push((tile % 0x1_0000) as u16);
            x = x + 1;
        }
        proof {
            assert((y + 1) * w == y * w + w) by (nonlinear_arith);
        }
        y = y + 1;
    }
    proof {
        assert(h * w == w * h) by (nonlinear_arith);
        assert(tiles@ =~= tiles_of((w * h) as nat, w as int, grid as int, size));
    }
    tiles
}

/// `r` is an archive of a palette without depths, of indices into it, and of
/// the depths.
pub open spec fn is_flat_write(
    header: Header,
    variant: Variant,
    palette: Seq<u32>,
    indices: Seq<u16>,
    depth: ImageFile,
    w: u32,
    h: u32,
    r: Result<Vec<u8>, AssetError>,
) -> bool {
    exists|dims: (u32, u32), images: Seq<ImageFile>|
        {
            &&& #[trigger] is_v2_write(header, variant, palette.len() as u32, dims, images, r)
            &&& images.len() > 1
            &&& is_palette(images[0], dims, 1, flat_palette(palette, (dims.0 * dims.1) as nat))
            &&& are_index_images(variant, w, h, indices, images.subrange(1, images.len() - 1))
            &&& images.last() == depth
        }
}

/// Writes a palette without depths, indices into it, and the depths.
pub fn write_flat(
    header: &Header,
    variant: Variant,
    palette: &Vec<u32>,
    indices: &Vec<u16>,
    depth: ImageFile,
    w: u32,
    h: u32,
) -> (r: Result<Vec<u8>, AssetError>)
    requires
        palette@.len() <= 0x1_0000,
        indices@.len() == w * h,
        depth.wf(),
    ensures
        is_flat_write(*header, variant, palette@, indices@, depth, w, h, r),
{
    let count: u32 = palette.len() as u32;
    let dims: (u32, u32) = near_square(count);
    proof {
        assert(dims.0 * dims.1 <= 0x1_0000) by (nonlinear_arith)
            requires
                dims.0 <= 0x100,
                dims.1 <= 0x100,
        ;
    }
    let total: usize = dims.0 as usize * dims.1 as usize;
    let mut images: Vec<ImageFile> = Vec::new();
    images.push(
        ImageFile {
            file: File::Palette,
            rgba: true,
            width: dims.0,
            height: dims.1,
            data: flat_palette_bytes(palette, total),
        },
    );
    let mut rest: Vec<ImageFile> = index_images(variant, w, h, indices);
    let ghost planes = rest@;
    let ghost first = images@[0];
    images.append(&mut rest);
    let ghost last = depth;
    images.push(depth);
    proof {
        assert(images@.subrange(1, images@.len() - 1) =~= planes);
        assert(images@[0] == first);
        assert(images@.last() == last);
        assert forall|i: int| 0 <= i < images@.len() implies (#[trigger] images@[i]).wf() by {
            if 0 < i < images@.len() - 1 {
                assert(images@[i] == planes[i - 1]);
            }
        }
    }
    let ghost all = images@;
    let s: Settings = make_settings(header, Some(palette_settings(variant, count, dims)));
    let r: Result<Vec<u8>, AssetError> = write_files(images, &s);
    assert(is_v2_write(*header, variant, count, dims, all, r));
    r
}

/// The number of slots of a palette with a table of depths.
pub const IDX10S_SLOTS: usize = 1024;

/// `r` is an archive of what quantising to a table of depths comes to.
pub open spec fn is_idx10s_write<C: Centroid>(
    header: Header,
    packs: Seq<[u8; 8]>,
    w: u32,
    h: u32,
    r: Result<Vec<u8>, AssetError>,
) -> bool {
    let tiles = tiles_of(packs.len(), w as int, header.grid_size as int, header.packed_size);
    let num_tiles = header.grid_size * header.grid_size;
    exists|q: Option<QuantResult10s>| #[trigger]
        idx10s::is_result_10s::<C>(packs, tiles, num_tiles, IDX10S_SLOTS as int, q) && match q {
            None => r matches Err(e) && e.kind_spec() == Failure::PaletteOverflow,
            Some(q) => exists|depth: ImageFile|
                {
                    &&& is_luma(depth, File::DepthPalette, 512, num_tiles as u32)
                    &&& depth.data@ == q.depth_palette@
                    &&& #[trigger] is_flat_write(
                        header,
                        Variant::Idx10s,
                        q.palette@,
                        q.indices@,
                        depth,
                        w,
                        h,
                        r,
                    )
                },
        }
}

/// Writes an imposter with a palette of 1024 slots without depths, indices of 10
/// bits, and a table of depths per tile and slot. Fails where the groups of
/// pixels take more slots.
pub fn write_asset_v2_idx10s<C: Centroid>(header: &Header, packs: &Vec<[u8; 8]>, w: u32, h: u32) -> (r:
    Result<Vec<u8>, AssetError>)
    requires
        packs@.len() == w * h,
        grid_fits(*header, packs@, w, h),
    ensures
        is_idx10s_write::<C>(*header, packs@, w, h, r),
{
    let num_tiles: usize = (header.grid_size * header.grid_size) as usize;
    let tiles: Vec<u16> = tile_indices(w, h, header.grid_size, header.packed_size);
    let q: Option<QuantResult10s> = quantize_10s::<C>(packs, &tiles, num_tiles, IDX10S_SLOTS);
    match q {
        None => Err(AssetError::PaletteOverflow),
        Some(q) => {
            proof {
                idx10s::lemma_result_sizes::<C>(
                    packs@,
                    tiles@,
                    num_tiles as int,
                    IDX10S_SLOTS as int,
                    q,
                );
                assert(num_tiles * 512 == 512 * num_tiles) by (nonlinear_arith);
            }
            let depth: ImageFile = luma(
                File::DepthPalette,
                512,
                num_tiles as u32,
                vstd::slice::slice_to_vec(q.depth_palette.as_slice()),
            );
            let ghost d = depth;
            let r: Result<Vec<u8>, AssetError> = write_flat(
                header,
                Variant::Idx10s,
                &q.palette,
                &q.indices,
                depth,
                w,
                h,
            );
            assert(is_flat_write(
                *header,
                Variant::Idx10s,
                q.palette@,
                q.indices@,
                d,
                w,
                h,
                r,
            ));
            r
        },
    }
}

/// A palette without depths, an index per pixel, and a depth level per pixel.
pub struct FlatResult {
    pub palette: Vec<u32>,
    pub indices: Vec<u16>,
    pub depths: Vec<u8>,
}

impl FlatResult {
    /// There is an index and a depth for each of `n` pixels, and the palette is
    /// no larger than indices can tell.
    pub open spec fn fits(self, n: int) -> bool {
        &&& self.palette@.len() <= 0x1_0000
        &&& self.indices@.len() == n
        &&& self.depths@.len() == n
    }
}

/// The layout for a palette of `count` entries: indices of 8 bits where they
/// are enough.
pub open spec fn v3_variant(count: int) -> Variant {
    if count <= 256 {
        Variant::V3Idx8
    } else {
        Variant::V3Idx12
    }
}

/// `r` is an archive of a palette without depths and of a depth per pixel.
pub open spec fn is_v3_write(
    header: Header,
    q: FlatResult,
    w: u32,
    h: u32,
    r: Result<Vec<u8>, AssetError>,
) -> bool {
    if !q.fits(w * h) {
        r matches Err(e) && e.kind_spec() == Failure::SizeMismatch
    } else {
        exists|depth: ImageFile|
            {
                &&& is_luma(depth, File::Depth, load::half(w), h)
                &&& planes::is_nibble_plane(
                    planes::low_nibbles(q.depths@),
                    w as int,
                    h as int,
                    depth.data@,
                )
                &&& #[trigger] is_flat_write(
                    header,
                    v3_variant(q.palette@.len() as int),
                    q.palette@,
                    q.indices@,
                    depth,
                    w,
                    h,
                    r,
                )
            }
    }
}

/// Writes an imposter with a palette without depths and a depth per pixel.
/// Fails where there is not one index and one depth for each pixel.
pub fn write_asset_v2_v3(header: &Header, q: &FlatResult, w: u32, h: u32) -> (r: Result<
    Vec<u8>,
    AssetError,
>)
    requires
        w * h <= usize::MAX,
    ensures
        is_v3_write(*header, *q, w, h, r),
{
    proof {
        assert(0 <= w * h) by (nonlinear_arith);
    }
    let n: usize = w as usize * h as usize;
    if q.palette.len() > 0x1_0000 || q.indices.len() != n || q.depths.len() != n {
        return Err(AssetError::SizeMismatch);
    }
    let variant: Variant = if q.palette.len() <= 256 {
        Variant::V3Idx8
    } else {
        Variant::V3Idx12
    };
    let levels: Vec<u8> = planes::nibbles(&q.depths);
    let packed: Vec<u8> = planes::pack_nibbles(&levels, w as usize, h as usize);
    let half_w: u32 = w / 2 + w % 2;
    let depth: ImageFile = luma(File::Depth, half_w, h, packed);
    let ghost d = depth;
    let r: Result<Vec<u8>, AssetError> = write_flat(
        header,
        variant,
        &q.palette,
        &q.indices,
        depth,
        w,
        h,
    );
    assert(is_flat_write(*header, variant, q.palette@, q.indices@, d, w, h, r));
    r
}

/// How close a quantised image comes to the image.
#[derive(Clone, Copy, PartialEq, Eq, Structural, Debug)]
pub enum Verdict {
    /// The error is below the threshold.
    Within,
    /// The error is the threshold or more.
    Beyond,
    /// Error and threshold cannot be compared.
    Unordered,
}

/// Which layouts may be written.
#[derive(Clone, Copy, PartialEq, Eq, Structural, Debug)]
pub struct Choices {
    /// Where 8 bits do not do, a palette without depths may be written.
    pub allow_v3: bool,
    /// The depths then go into a table rather than beside the pixels.
    pub emit_idx10s: bool,
    /// Indices of 14 bits may not be written.
    pub no_idx14: bool,
}

/// `r` is an archive in the first layout of a palette with depths that comes
/// close enough, out of those with 12 and 14 bits.
pub open spec fn is_larger_write<M: Metric, J: Fn(&Vec<[u8; 8]>, &QuantResult) -> Verdict>(
    header: Header,
    packs: &Vec<[u8; 8]>,
    w: u32,
    h: u32,
    metric: &M,
    judge: J,
    no_idx14: bool,
    r: Result<Vec<u8>, AssetError>,
) -> bool {
    exists|q: QuantResult|
        {
            &&& #[trigger] quantize::is_quantized(metric, packs@, 4096, q)
            &&& {
                ||| (no_idx14 || call_ensures(judge, (packs, &q), Verdict::Within))
                    && is_quantized_write(header, Variant::Idx12, q, w, h, r)
                ||| !no_idx14 && (call_ensures(judge, (packs, &q), Verdict::Beyond) || call_ensures(
                    judge,
                    (packs, &q),
                    Verdict::Unordered,
                )) && is_idx14_write(header, packs@, w, h, metric, r)
            }
        }
}

/// `r` is an archive with indices of 14 bits.
pub open spec fn is_idx14_write<M: Metric>(
    header: Header,
    packs: Seq<[u8; 8]>,
    w: u32,
    h: u32,
    metric: &M,
    r: Result<Vec<u8>, AssetError>,
) -> bool {
    exists|q: QuantResult| #[trigger]
        quantize::is_quantized(metric, packs, 16384, q) && is_quantized_write(
            header,
            Variant::Idx14,
            q,
            w,
            h,
            r,
        )
}

/// `r` is an archive of a palette without depths. With a table of depths there is
/// none where a visible pixel is in none of the tiles of the grid.
pub open spec fn is_depthless_write<C: Centroid, V: Fn(&Vec<[u8; 8]>) -> FlatResult>(
    header: Header,
    packs: &Vec<[u8; 8]>,
    w: u32,
    h: u32,
    flatten: V,
    emit_idx10s: bool,
    r: Result<Vec<u8>, AssetError>,
) -> bool {
    if emit_idx10s && !grid_fits(header, packs@, w, h) {
        r matches Err(e) && e.kind_spec() == Failure::SizeMismatch
    } else if emit_idx10s {
        is_idx10s_write::<C>(header, packs@, w, h, r)
    } else {
        exists|q: FlatResult| #[trigger]
            call_ensures(flatten, (packs,), q) && is_v3_write(header, q, w, h, r)
    }
}

/// `r` is an archive in the layout that the choices and the verdicts call for.
pub open spec fn is_chosen_write<
    M: Metric,
    C: Centroid,
    J: Fn(&Vec<[u8; 8]>, &QuantResult) -> Verdict,
    V: Fn(&Vec<[u8; 8]>) -> FlatResult,
>(
    header: Header,
    packs: &Vec<[u8; 8]>,
    w: u32,
    h: u32,
    metric: &M,
    judge: J,
    flatten: V,
    choices: Choices,
    r: Result<Vec<u8>, AssetError>,
) -> bool {
    exists|q: QuantResult, verdict: Verdict|
        {
            &&& #[trigger] quantize::is_quantized(metric, packs@, 256, q)
            &&& #[trigger] call_ensures(judge, (packs, &q), verdict)
            &&& if verdict == Verdict::Beyond && choices.allow_v3 {
                is_depthless_write::<C, V>(
                    header,
                    packs,
                    w,
                    h,
                    flatten,
                    choices.emit_idx10s,
                    r,
                )
            } else if verdict == Verdict::Within {
                is_quantized_write(header, Variant::Idx8, q, w, h, r)
            } else {
                is_larger_write(header, packs, w, h, metric, judge, choices.no_idx14, r)
            }
        }
}

/// The tiles of the grid can be counted, and every visible pixel is in one of them.
pub open spec fn grid_fits(header: Header, packs: Seq<[u8; 8]>, w: u32, h: u32) -> bool {
    let num_tiles = header.grid_size * header.grid_size;
    &&& w > 0 && h > 0 ==> header.packed_size.0 > 0 && header.packed_size.1 > 0
    &&& num_tiles <= u32::MAX
    &&& num_tiles * 1025 <= usize::MAX
    &&& idx10s::tiles_fit(
        packs,
        tiles_of(packs.len(), w as int, header.grid_size as int, header.packed_size),
        num_tiles,
    )
}

/// Whether the tiles of the grid can be counted, and every visible pixel is in one
/// of them.
fn check_grid(header: &Header, packs: &Vec<[u8; 8]>, w: u32, h: u32) -> (fits: bool)
    requires
        packs@.len() == w * h,
    ensures
        fits == grid_fits(*header, packs@, w, h),
{
    let num_tiles: u64 = load::times(header.grid_size, header.grid_size);
    if w > 0 && h > 0 && (header.packed_size.0 == 0 || header.packed_size.1 == 0) {
        return false;
    }
    if num_tiles > u32::MAX as u64 || num_tiles * 1025 > usize::MAX as u64 {
        return false;
    }
    let tiles: Vec<u16> = tile_indices(w, h, header.grid_size, header.packed_size);
    let mut i: usize = 0;
    while i < packs.len()
        invariant
            i <= packs@.len(),
            num_tiles == header.grid_size * header.grid_size,
            tiles@ == tiles_of(
                packs@.len(),
                w as int,
                header.grid_size as int,
                header.packed_size,
            ),
            forall|j: int|
                0 <= j < i && !texel::transparent(packs@[j]) ==> #[trigger] tiles@[j] < num_tiles,
        ensures
            idx10s::tiles_fit(packs@, tiles@, num_tiles as int),
        decreases packs@.len() - i,
    {
        if !is_alpha_zero(&packs[i]) && tiles[i] as u64 >= num_tiles {
            assert(!idx10s::tiles_fit(packs@, tiles@, num_tiles as int));
            return false;
        }
        i = i + 1;
    }
    true
}

/// Writes the texels of an imposter in the layout that the choices and the
/// verdicts call for. `judge` tells how close a quantised image comes, and
/// `flatten` quantises to a palette without depths.
pub fn write_packs<
    M: Metric,
    C: Centroid,
    J: Fn(&Vec<[u8; 8]>, &QuantResult) -> Verdict,
    V: Fn(&Vec<[u8; 8]>) -> FlatResult,
>(
    header: &Header,
    packs: &Vec<[u8; 8]>,
    w: u32,
    h: u32,
    metric: &M,
    judge: J,
    flatten: V,
    choices: Choices,
) -> (r: Result<Vec<u8>, AssetError>)
    requires
        packs@.len() == w * h,
        forall|q: QuantResult| #[trigger] call_requires(judge, (packs, &q)),
        call_requires(flatten, (packs,)),
    ensures
        is_chosen_write::<M, C, J, V>(
            *header,
            packs,
            w,
            h,
            metric,
            judge,
            flatten,
            choices,
            r,
        ),
{
    assert(packs.len() == packs@.len());
    let q: QuantResult = quantize(metric, packs, 256);
    proof {
        quantize::law_palette_within_budget(metric, packs@, 256, q);
    }
    let verdict: Verdict = judge(packs, &q);
    let beyond: bool = match verdict {
        Verdict::Beyond => true,
        _ => false,
    };
    if beyond && choices.allow_v3 {
        let r: Result<Vec<u8>, AssetError> = if choices.emit_idx10s {
            if check_grid(header, packs, w, h) {
                write_asset_v2_idx10s::<C>(header, packs, w, h)
            } else {
                Err(AssetError::SizeMismatch)
            }
        } else {
            let flat: FlatResult = flatten(packs);
            write_asset_v2_v3(header, &flat, w, h)
        };
        assert(quantize::is_quantized(metric, packs@, 256, q));
        return r;
    }
    let within: bool = match verdict {
        Verdict::Within => true,
        _ => false,
    };
    if within {
        return write_quantized(header, Variant::Idx8, &q, w, h);
    }
    let r: Result<Vec<u8>, AssetError> = write_larger(
        header,
        packs,
        w,
        h,
        metric,
        judge,
        choices.no_idx14,
    );
    assert(quantize::is_quantized(metric, packs@, 256, q));
    r
}

fn write_larger<M: Metric, J: Fn(&Vec<[u8; 8]>, &QuantResult) -> Verdict>(
    header: &Header,
    packs: &Vec<[u8; 8]>,
    w: u32,
    h: u32,
    metric: &M,
    judge: J,
    no_idx14: bool,
) -> (r: Result<Vec<u8>, AssetError>)
    requires
        packs@.len() == w * h,
        forall|q: QuantResult| #[trigger] call_requires(judge, (packs, &q)),
    ensures
        is_larger_write(*header, packs, w, h, metric, judge, no_idx14, r),
{
    let q: QuantResult = quantize(metric, packs, 4096);
    proof {
        quantize::law_palette_within_budget(metric, packs@, 4096, q);
    }
    if no_idx14 {
        return write_quantized(header, Variant::Idx12, &q, w, h);
    }
    match judge(packs, &q) {
        Verdict::Within => write_quantized(header, Variant::Idx12, &q, w, h),
        _ => {
            let largest: QuantResult = quantize(metric, packs, 16384);
            proof {
                quantize::law_palette_within_budget(metric, packs@, 16384, largest);
            }
            let r: Result<Vec<u8>, AssetError> = write_quantized(
                header,
                Variant::Idx14,
                &largest,
                w,
                h,
            );
            assert(is_idx14_write(*header, packs@, w, h, metric, r));
            r
        },
    }
}

/// `image` holds `w` by `h` texels of eight bytes, two pixels each.
pub open spec fn is_wide(image: ImageFile, file: File, w: u32, h: u32, data: Seq<u8>) -> bool {
    &&& image.file == file
    &&& image.rgba
    &&& image.width == w * 2
    &&& image.height == h
    &&& image.data@ == data
    &&& image.wf()
}

/// `r` is an archive of the texels as they are.
pub open spec fn is_texture_write(
    header: Header,
    image: Raster,
    r: Result<Vec<u8>, AssetError>,
) -> bool {
    if image.width > 0x7fff_ffff {
        r matches Err(e) && e.kind_spec() == Failure::TooLarge
    } else {
        exists|images: Seq<ImageFile>|
            {
                &&& images.len() == 1
                &&& is_wide(images[0], File::Texture, image.width, image.height, image.data@)
                &&& #[trigger] is_write_of(images, header_settings(header, None), r)
            }
    }
}

/// Texels in `dims.0` columns and `dims.1` rows and a number per pixel take
/// fewer bytes than the texels of all pixels.
pub open spec fn saves_space(image: Raster, dims: (u32, u32)) -> bool {
    let count = image.width * image.height;
    dims.0 * dims.1 * 8 + count * if load::short_indices(dims) {
        2int
    } else {
        4
    } < count * 8
}

/// `r` is an archive of the distinct texels, as many as there are places for, and
/// of a number per pixel.
pub open spec fn is_numbered_write(
    header: Header,
    image: Raster,
    distinct: Seq<[u8; 8]>,
    numbers: Seq<usize>,
    dims: (u32, u32),
    r: Result<Vec<u8>, AssetError>,
) -> bool {
    if dims.0 > 0x7fff_ffff {
        r matches Err(e) && e.kind_spec() == Failure::TooLarge
    } else {
        exists|images: Seq<ImageFile>|
            {
                &&& images.len() == 2
                &&& is_wide(
                    images[0],
                    File::Pixels,
                    dims.0,
                    dims.1,
                    wide_palette(distinct, (dims.0 * dims.1) as nat),
                )
                &&& images[1].file == File::Indices
                &&& images[1].rgba
                &&& images[1].width == load::index_words(dims, image.width)
                &&& images[1].height == image.height
                &&& images[1].wf()
                &&& texels::is_number_data(
                    numbers,
                    image.width as int,
                    image.height as int,
                    load::short_indices(dims),
                    images[1].data@,
                )
                &&& #[trigger] is_write_of(images, header_settings(header, None), r)
            }
    }
}

/// `r` is an archive of the texels: numbered where that is asked for and saves
/// space, as they are otherwise.
pub open spec fn is_v1_write<F: Fn(usize) -> (u32, u32)>(
    header: Header,
    image: Raster,
    index: bool,
    shape: F,
    r: Result<Vec<u8>, AssetError>,
) -> bool {
    if index {
        exists|packs: Seq<[u8; 8]>, distinct: Seq<[u8; 8]>, numbers: Seq<usize>, dims: (u32, u32)|
            {
                &&& texels::are_packs(image.data@, packs)
                &&& texels::is_texel_list(packs, distinct)
                &&& #[trigger] texels::are_numbers(packs, distinct, numbers)
                &&& #[trigger] is_written_shape(shape, distinct.len() as int, dims)
                &&& if saves_space(image, dims) {
                    is_numbered_write(header, image, distinct, numbers, dims, r)
                } else {
                    is_texture_write(header, image, r)
                }
            }
    } else {
        is_texture_write(header, image, r)
    }
}

fn write_texture(header: &Header, image: Raster) -> (r: Result<Vec<u8>, AssetError>)
    requires
        image.wf(),
    ensures
        is_texture_write(*header, image, r),
{
    if image.width > 0x7fff_ffff {
        return Err(AssetError::TooLarge);
    }
    proof {
        assert((image.width * 2) * image.height * 4 == image.width * image.height * 8)
            by (nonlinear_arith);
    }
    let mut images: Vec<ImageFile> = Vec::new();
    images.push(
        ImageFile {
            file: File::Texture,
            rgba: true,
            width: image.width * 2,
            height: image.height,
            data: image.data,
        },
    );
    let ghost all = images@;
    let s: Settings = make_settings(header, None);
    let r: Result<Vec<u8>, AssetError> = write_files(images, &s);
    assert(is_write_of(all, header_settings(*header, None), r));
    r
}

fn write_numbered(
    header: &Header,
    image: &Raster,
    distinct: &Vec<[u8; 8]>,
    numbers: &Vec<usize>,
    dims: (u32, u32),
) -> (r: Result<Vec<u8>, AssetError>)
    requires
        image.wf(),
        numbers@.len() == image.width * image.height,
        saves_space(*image, dims),
    ensures
        is_numbered_write(*header, *image, distinct@, numbers@, dims, r),
{
    let ghost count = image.width * image.height;
    proof {
        assert(0 <= dims.0 * dims.1) by (nonlinear_arith);
        assert(0 <= count) by (nonlinear_arith)
            requires
                count == image.width * image.height,
        ;
        assert(image.data.len() == image.data@.len());
        assert(image.width * 8 <= count * 8) by (nonlinear_arith)
            requires
                count == image.width * image.height,
                count > 0,
        ;
    }
    let total: usize = dims.0 as usize * dims.1 as usize;
    if dims.0 > 0x7fff_ffff {
        return Err(AssetError::TooLarge);
    }
    let short: bool = total < 65536;
    let w: u32 = image.width;
    let width: u32 = if short {
        w / 2 + w % 2
    } else {
        w
    };
    let data: Vec<u8> = number_bytes(numbers, w as usize, image.height as usize, short);
    let pixels: Vec<u8> = wide_palette_bytes(distinct, total);
    proof {
        assert((dims.0 * 2) * dims.1 * 4 == 8 * (dims.0 * dims.1)) by (nonlinear_arith);
        let row = texels::row_len(w as int, short);
        assert(row == 4 * width);
        assert((4 * width) * image.height == width * image.height * 4) by (nonlinear_arith);
    }
    let mut images: Vec<ImageFile> = Vec::new();
    images.push(
        ImageFile {
            file: File::Pixels,
            rgba: true,
            width: dims.0 * 2,
            height: dims.1,
            data: pixels,
        },
    );
    images.push(
        ImageFile { file: File::Indices, rgba: true, width, height: image.height, data },
    );
    let ghost all = images@;
    let s: Settings = make_settings(header, None);
    let r: Result<Vec<u8>, AssetError> = write_files(images, &s);
    assert(is_write_of(all, header_settings(*header, None), r));
    r
}

/// Writes texels in the first format, numbered where that is asked for and
/// saves space. `shape` gives the columns and rows for so many distinct texels,
/// where they are more than stand close to a square.
pub fn write_raster<F: Fn(usize) -> (u32, u32)>(
    header: &Header,
    image: Raster,
    index: bool,
    shape: F,
) -> (r: Result<Vec<u8>, AssetError>)
    requires
        image.wf(),
        forall|n: usize| call_requires(shape, (n,)),
    ensures
        is_v1_write(*header, image, index, shape, r),
{
    if !index {
        return write_texture(header, image);
    }
    let packs: Vec<[u8; 8]> = split_packs(&image.data);
    let numbered: (Vec<[u8; 8]>, Vec<usize>) = number_texels(&packs);
    let n: usize = numbered.0.len();
    let dims: (u32, u32) = if n <= SQUARE_TEXELS {
        texel_square(n)
    } else {
        shape(n)
    };
    let unique: u128 = load::times(dims.0, dims.1) as u128;
    let count: u128 = load::times(image.width, image.height) as u128;
    let size: u128 = if unique < 65536 {
        2
    } else {
        4
    };
    proof {
        assert(image.data@.len() as int / 8 == image.width * image.height);
        assert(numbered.0.len() == numbered.0@.len());
        assert(texels::are_numbers(packs@, numbered.0@, numbered.1@));
        assert(is_written_shape(shape, numbered.0@.len() as int, dims));
    }
    if unique * 8 + count * size < count * 8 {
        write_numbered(header, &image, &numbered.0, &numbered.1, dims)
    } else {
        write_texture(header, image)
    }
}

/// The image can be trimmed.
pub open spec fn can_trim(image: Raster, grid: u32) -> bool {
    &&& image.wf()
    &&& image.width > 0
    &&& image.height > 0
    &&& grid > 0
    &&& grid * (image.width as int / grid as int) <= image.height
    &&& grid * grid * 8 <= usize::MAX
}

/// `out` is `image`, trimmed where `trim` says so, and `header` says of it what
/// is left of a tile.
pub open spec fn is_prepared(image: Raster, trim: bool, header: Header, out: Raster) -> bool {
    if trim {
        &&& raster::is_tight(
            image,
            header.grid_size as int,
            header.packed_offset,
            header.packed_size,
        )
        &&& raster::is_trimmed(
            image,
            header.grid_size as int,
            header.packed_offset,
            header.packed_size,
            out,
        )
    } else {
        &&& out == image
        &&& header.packed_offset == (0u32, 0u32)
        &&& header.packed_size == (header.tile_size, header.tile_size)
    }
}

/// Trims an image where `trim` says so.
pub fn prepare(
    scale: Vec<u8>,
    grid_size: u32,
    tile_size: u32,
    mode: GridMode,
    image: Raster,
    trim: bool,
) -> (r: (Header, Raster))
    requires
        trim ==> can_trim(image, grid_size),
    ensures
        is_prepared(image, trim, r.0, r.1),
        r.0.scale == scale,
        r.0.grid_size == grid_size,
        r.0.tile_size == tile_size,
        r.0.mode == mode,
        image.wf() ==> r.1.wf(),
{
    if trim {
        let (packed, packed_offset, packed_size): (Raster, (u32, u32), (u32, u32)) = pack_asset(
            grid_size as usize,
            &image,
        );
        (Header { scale, grid_size, tile_size, mode, packed_offset, packed_size }, packed)
    } else {
        let header: Header = Header {
            scale,
            grid_size,
            tile_size,
            mode,
            packed_offset: (0, 0),
            packed_size: (tile_size, tile_size),
        };
        (header, image)
    }
}

/// `r` is an archive of `image` in the first format.
pub open spec fn is_asset_write<F: Fn(usize) -> (u32, u32)>(
    scale: Vec<u8>,
    grid_size: u32,
    tile_size: u32,
    mode: GridMode,
    image: Raster,
    pack: bool,
    index: bool,
    shape: F,
    r: Result<Vec<u8>, AssetError>,
) -> bool {
    exists|header: Header, out: Raster|
        {
            &&& header.scale == scale
            &&& header.grid_size == grid_size
            &&& header.tile_size == tile_size
            &&& header.mode == mode
            &&& #[trigger] is_prepared(image, pack, header, out)
            &&& is_v1_write(header, out, index, shape, r)
        }
}

/// Writes an imposter in the first format, its tiles trimmed where `pack` says so.
/// `shape` gives the columns and rows for distinct texels that are more than stand
/// close to a square.
pub fn write_asset<F: Fn(usize) -> (u32, u32)>(
    scale: Vec<u8>,
    grid_size: u32,
    tile_size: u32,
    mode: GridMode,
    image: Raster,
    pack: bool,
    index: bool,
    shape: F,
) -> (r: Result<Vec<u8>, AssetError>)
    requires
        image.wf(),
        pack ==> can_trim(image, grid_size),
        forall|n: usize| call_requires(shape, (n,)),
    ensures
        is_asset_write(scale, grid_size, tile_size, mode, image, pack, index, shape, r),
{
    let (header, out): (Header, Raster) = prepare(scale, grid_size, tile_size, mode, image, pack);
    let ghost o = out;
    let r: Result<Vec<u8>, AssetError> = write_raster(&header, out, index, shape);
    assert(is_prepared(image, pack, header, o));
    r
}

/// `r` is an archive of the texels of `image` in the second format. There is
/// none where the texels are not as many as the sizes say.
pub open spec fn is_v2_asset_write<
    M: Metric,
    C: Centroid,
    J: Fn(&Vec<[u8; 8]>, &QuantResult) -> Verdict,
    V: Fn(&Vec<[u8; 8]>) -> FlatResult,
>(
    header: Header,
    image: Raster,
    metric: &M,
    judge: J,
    flatten: V,
    choices: Choices,
    r: Result<Vec<u8>, AssetError>,
) -> bool {
    let n = image.data@.len() as int / 8;
    if n != image.width * image.height {
        r matches Err(e) && e.kind_spec() == Failure::SizeMismatch
    } else {
        exists|packs: Vec<[u8; 8]>|
            {
                &&& texels::are_packs(image.data@, packs@)
                &&& #[trigger] is_chosen_write::<M, C, J, V>(
                    header,
                    &packs,
                    image.width,
                    image.height,
                    metric,
                    judge,
                    flatten,
                    choices,
                    r,
                )
            }
    }
}

/// Writes an imposter in the second format, its tiles trimmed where `shrink`
/// says so.
pub fn write_asset_v2<
    M: Metric,
    C: Centroid,
    J: Fn(&Vec<[u8; 8]>, &QuantResult) -> Verdict,
    V: Fn(&Vec<[u8; 8]>) -> FlatResult,
>(
    scale: Vec<u8>,
    grid_size: u32,
    tile_size: u32,
    mode: GridMode,
    image: Raster,
    shrink: bool,
    metric: &M,
    judge: J,
    flatten: V,
    choices: Choices,
) -> (r: Result<Vec<u8>, AssetError>)
    requires
        shrink ==> can_trim(image, grid_size),
        forall|packs: Vec<[u8; 8]>, q: QuantResult| #[trigger] call_requires(judge, (&packs, &q)),
        forall|packs: Vec<[u8; 8]>| #[trigger] call_requires(flatten, (&packs,)),
    ensures
        exists|header: Header, out: Raster|
            {
                &&& header.scale == scale
                &&& header.grid_size == grid_size
                &&& header.tile_size == tile_size
                &&& header.mode == mode
                &&& #[trigger] is_prepared(image, shrink, header, out)
                &&& is_v2_asset_write::<M, C, J, V>(
                    header,
                    out,
                    metric,
                    judge,
                    flatten,
                    choices,
                    r,
                )
            },
{
    let (header, out): (Header, Raster) = prepare(scale, grid_size, tile_size, mode, image, shrink);
    assert(is_prepared(image, shrink, header, out));
    let packs: Vec<[u8; 8]> = split_packs(&out.data);
    let count: u64 = load::times(out.width, out.height);
    assert(packs.len() == packs@.len());
    if packs.len() as u64 != count {
        return Err(AssetError::SizeMismatch);
    }
    write_packs::<M, C, J, V>(
        &header,
        &packs,
        out.width,
        out.height,
        metric,
        judge,
        flatten,
        choices,
    )
}

/// The pixel `dx` columns and `dy` rows into the tile in column `tx` of row `ty` of the
/// grid is in that tile, counted row by row.
pub proof fn law_pixels_are_in_their_tiles(
    w: u32,
    h: u32,
    grid: u32,
    size: (u32, u32),
    tiles: Vec<u16>,
    tx: int,
    ty: int,
    dx: int,
    dy: int,
)
    requires
        call_ensures(tile_indices, (w, h, grid, size), tiles),
        0 <= tx < grid,
        0 <= ty < grid,
        0 <= dx < size.0,
        0 <= dy < size.1,
        tx * size.0 + dx < w,
        ty * size.1 + dy < h,
        grid * grid <= 0x1_0000,
    ensures
        tiles@.len() == w * h,
        0 <= (ty * size.1 + dy) * w + (tx * size.0 + dx) < w * h,
        tiles@[(ty * size.1 + dy) * w + (tx * size.0 + dx)] == ty * grid + tx,
{
    let x = tx * size.0 + dx;
    let y = ty * size.1 + dy;
    let i = y * w + x;
    assert(0 <= tx * size.0 && 0 <= ty * size.1) by (nonlinear_arith)
        requires
            0 <= tx,
            0 <= ty,
    ;
    planes::lemma_in_rows(w as int, h as int, y, x);
    vstd::arithmetic::div_mod::lemma_fundamental_div_mod_converse(i, w as int, y, x);
    vstd::arithmetic::div_mod::lemma_fundamental_div_mod_converse(x, size.0 as int, tx, dx);
    vstd::arithmetic::div_mod::lemma_fundamental_div_mod_converse(y, size.1 as int, ty, dy);
    assert(0 <= ty * grid + tx < grid * grid) by (nonlinear_arith)
        requires
            0 <= tx < grid,
            0 <= ty < grid,
    ;
    assert(tile_of(w as int, grid as int, size, i) == ty * grid + tx);
}

/// The columns and rows for some entries hold them all, with less than a row left over
/// where there are any; and there are as many columns as rows, or one more.
pub proof fn law_entries_stand_in_a_near_square(n: u32, dims: (u32, u32))
    requires
        n <= 0x10_0000,
        call_ensures(near_square, (n,), dims),
    ensures
        dims.0 >= 1,
        dims.1 >= 1,
        n <= dims.0 * dims.1,
        n > 0 ==> dims.0 * dims.1 < n + dims.0,
        dims.1 == dims.0 || dims.1 + 1 == dims.0,
{
    let (x, y) = (dims.0 as int, dims.1 as int);
    if n > 0 {
        assert(x * y < n + x && x * y >= n && y >= 1) by (nonlinear_arith)
            requires
                y == (n + x - 1) / x,
                x >= 1,
                n > 0,
        ;
        assert(y == x || y + 1 == x) by (nonlinear_arith)
            requires
                x * y < n + x,
                x * y >= n,
                y <= x,
                x >= 1,
                x * x >= n,
                x == 1 || (x - 1) * (x - 1) < n,
                n > 0,
                y >= 1,
        ;
    } else {
        assert(x == 1) by (nonlinear_arith)
            requires
                x == 1 || (x - 1) * (x - 1) < 0,
        ;
    }
}

/// The entries of a palette stand one after the other, each with its bytes in order, or
/// with its lowest byte first where it is a word; zeros fill the rest.
pub proof fn law_palettes_hold_their_entries(
    wide: Vec<[u8; 8]>,
    flat: Vec<u32>,
    total: usize,
    wide_bytes: Vec<u8>,
    flat_bytes: Vec<u8>,
    i: int,
)
    requires
        call_ensures(wide_palette_bytes, (&wide, total), wide_bytes),
        call_ensures(flat_palette_bytes, (&flat, total), flat_bytes),
        0 <= i < total,
    ensures
        wide_bytes@.len() == 8 * total,
        flat_bytes@.len() == 4 * total,
        i < wide@.len() ==> wide_bytes@.subrange(8 * i, 8 * i + 8) == wide@[i]@,
        i >= wide@.len() ==> wide_bytes@.subrange(8 * i, 8 * i + 8) == Seq::new(8, |b: int| 0u8),
        i < flat@.len() ==> texel::word(flat_bytes@, 4 * i) == flat@[i],
        i >= flat@.len() ==> texel::word(flat_bytes@, 4 * i) == 0,
{
    if i < wide@.len() {
        assert(wide_bytes@.subrange(8 * i, 8 * i + 8) =~= wide@[i]@);
    } else {
        assert(wide_bytes@.subrange(8 * i, 8 * i + 8) =~= Seq::new(8, |b: int| 0u8));
    }
    let f = flat_bytes@;
    if i < flat@.len() {
        let word = flat@[i];
        assert(f[4 * i] == word_byte(word, 0) && f[4 * i + 1] == word_byte(word, 1));
        assert(f[4 * i + 2] == word_byte(word, 2) && f[4 * i + 3] == word_byte(word, 3));
        lemma_word_sum(
            word_byte(word, 0),
            word_byte(word, 1),
            word_byte(word, 2),
            word_byte(word, 3),
            word,
        );
    } else {
        assert(f[4 * i] == 0 && f[4 * i + 1] == 0 && f[4 * i + 2] == 0 && f[4 * i + 3] == 0);
    }
}

proof fn lemma_word_sum(a: u8, b: u8, c: u8, d: u8, word: u32)
    by (bit_vector)
    requires
        a == word % 0x100,
        b == (word / 0x100) % 0x100,
        c == (word / 0x1_0000) % 0x100,
        d == word / 0x100_0000,
    ensures
        a + 0x100 * b + 0x1_0000 * c + 0x100_0000 * d == word,
{
}

/// With a palette without depths the indices are a byte each where every entry can be
/// named by one, and have twelve bits only where some entry cannot.
pub proof fn law_indices_are_as_short_as_can_be(count: int, index: int)
    requires
        0 <= index < count <= 0x1000,
    ensures
        v3_variant(count) == Variant::V3Idx8 ==> index < 0x100,
        v3_variant(count) == Variant::V3Idx12 ==> count - 1 >= 0x100,
        v3_variant(count) == Variant::V3Idx8 || v3_variant(count) == Variant::V3Idx12,
{
}

/// The places for texels that are looked up can all be named by two bytes, and are fewer
/// than two bytes can name, just where the indices are short. The texels are numbered
/// just where places and numbers take fewer bytes than the texels of all pixels.
pub proof fn law_numbering_saves_bytes(image: Raster, dims: (u32, u32))
    ensures
        load::short_indices(dims) <==> dims.0 * dims.1 <= 0xffff,
        saves_space(image, dims) <==> 8 * (dims.0 * dims.1) + (image.width * image.height) * if dims.0
            * dims.1 <= 0xffff {
            2int
        } else {
            4
        } < 8 * (image.width * image.height),
{
    let count = image.width * image.height;
    assert(dims.0 * dims.1 * 8 == 8 * (dims.0 * dims.1));
    assert(count * 8 == 8 * count);
}

/// The entry at the index of every visible pixel has the fields of the pixel.
pub open spec fn keeps_packs(packs: Seq<[u8; 8]>, q: QuantResult) -> bool {
    forall|i: int|
        0 <= i < packs.len() && !texel::transparent(#[trigger] packs[i]) ==> {
            &&& q.indices@[i] < q.palette@.len()
            &&& texel::upper(q.palette@[q.indices@[i] as int]) == texel::upper(packs[i])
            &&& texel::lower(q.palette@[q.indices@[i] as int]) << 4 == texel::lower(packs[i]) << 4
        }
}

/// The slots that the distinct texels of an image ask for.
pub open spec fn slots_asked_for(packs: Seq<[u8; 8]>) -> int {
    quantize::first_slot(packs) + quantize::visible_keys(packs).len()
}

proof fn lemma_keeps_packs<M: Metric>(metric: &M, packs: Seq<[u8; 8]>, k: int, q: QuantResult)
    requires
        quantize::cut::sees_spread(metric),
        quantize::keeps_equal(metric),
        quantize::is_quantized(metric, packs, k, q),
        slots_asked_for(packs) <= k <= 0x1_0000,
    ensures
        keeps_packs(packs, q),
{
    assert forall|i: int| 0 <= i < packs.len() && !texel::transparent(#[trigger] packs[i]) implies {
        &&& q.indices@[i] < q.palette@.len()
        &&& texel::upper(q.palette@[q.indices@[i] as int]) == texel::upper(packs[i])
        &&& texel::lower(q.palette@[q.indices@[i] as int]) << 4 == texel::lower(packs[i]) << 4
    } by {
        quantize::law_enough_entries_keep_every_pack(metric, packs, k, q, i);
    }
}

/// Where a palette with depths is written that is larger than indices of 8 bits allow,
/// every texel of the image keeps its fields if the layout has indices enough: 4096 of
/// them with 12 bits, and 16384 with 14.
pub proof fn law_larger_palettes_keep_what_they_can<
    M: Metric,
    J: Fn(&Vec<[u8; 8]>, &QuantResult) -> Verdict,
>(
    header: Header,
    packs: &Vec<[u8; 8]>,
    w: u32,
    h: u32,
    metric: &M,
    judge: J,
    no_idx14: bool,
    r: Result<Vec<u8>, AssetError>,
)
    requires
        quantize::cut::sees_spread(metric),
        quantize::keeps_equal(metric),
        is_larger_write(header, packs, w, h, metric, judge, no_idx14, r),
    ensures
        (exists|q: QuantResult|
            (slots_asked_for(packs@) <= 4096 ==> keeps_packs(packs@, q))
                && #[trigger] is_quantized_write(header, Variant::Idx12, q, w, h, r)) || (!no_idx14
            && exists|q: QuantResult|
            (slots_asked_for(packs@) <= 16384 ==> keeps_packs(packs@, q))
                && #[trigger] is_quantized_write(header, Variant::Idx14, q, w, h, r)),
{
    let q = choose|q: QuantResult|
        {
            &&& #[trigger] quantize::is_quantized(metric, packs@, 4096, q)
            &&& {
                ||| (no_idx14 || call_ensures(judge, (packs, &q), Verdict::Within))
                    && is_quantized_write(header, Variant::Idx12, q, w, h, r)
                ||| !no_idx14 && (call_ensures(judge, (packs, &q), Verdict::Beyond) || call_ensures(
                    judge,
                    (packs, &q),
                    Verdict::Unordered,
                )) && is_idx14_write(header, packs@, w, h, metric, r)
            }
        };
    if slots_asked_for(packs@) <= 4096 {
        lemma_keeps_packs(metric, packs@, 4096, q);
    }
    if !is_quantized_write(header, Variant::Idx12, q, w, h, r) {
        let p = choose|p: QuantResult| #[trigger]
            quantize::is_quantized(metric, packs@, 16384, p) && is_quantized_write(
                header,
                Variant::Idx14,
                p,
                w,
                h,
                r,
            );
        if slots_asked_for(packs@) <= 16384 {
            lemma_keeps_packs(metric, packs@, 16384, p);
        }
        assert(is_quantized_write(header, Variant::Idx14, p, w, h, r));
    }
}

/// Which layout is written follows the verdicts and the choices. Where 256 entries come
/// close enough, indices of 8 bits are written, and every texel keeps its fields if there
/// are no more than that. Where they do not and it may be done, a palette without depths
/// is written, with a table of depths if that is chosen. Otherwise a larger palette is.
pub proof fn law_verdicts_choose_the_layout<
    M: Metric,
    C: Centroid,
    J: Fn(&Vec<[u8; 8]>, &QuantResult) -> Verdict,
    V: Fn(&Vec<[u8; 8]>) -> FlatResult,
>(
    header: Header,
    packs: &Vec<[u8; 8]>,
    w: u32,
    h: u32,
    metric: &M,
    judge: J,
    flatten: V,
    choices: Choices,
    verdict: Verdict,
    r: Result<Vec<u8>, AssetError>,
)
    requires
        quantize::cut::sees_spread(metric),
        quantize::keeps_equal(metric),
        is_chosen_write::<M, C, J, V>(header, packs, w, h, metric, judge, flatten, choices, r),
        forall|q: QuantResult, said: Verdict| #[trigger]
            call_ensures(judge, (packs, &q), said) ==> said == verdict,
    ensures
        verdict == Verdict::Within ==> exists|q: QuantResult|
            (slots_asked_for(packs@) <= 256 ==> keeps_packs(packs@, q))
                && #[trigger] is_quantized_write(header, Variant::Idx8, q, w, h, r),
        verdict == Verdict::Beyond && choices.allow_v3 && choices.emit_idx10s ==> {
            ||| is_idx10s_write::<C>(header, packs@, w, h, r)
            ||| !grid_fits(header, packs@, w, h) && r is Err
        },
        verdict == Verdict::Beyond && choices.allow_v3 && !choices.emit_idx10s ==> exists|
            q: FlatResult,
        | #[trigger] call_ensures(flatten, (packs,), q) && is_v3_write(header, q, w, h, r),
        verdict == Verdict::Unordered || (verdict == Verdict::Beyond && !choices.allow_v3) ==> {
            &&& choices.no_idx14 ==> exists|q: QuantResult| #[trigger]
                is_quantized_write(header, Variant::Idx12, q, w, h, r)
            &&& !choices.no_idx14 ==> exists|q: QuantResult| #[trigger]
                is_quantized_write(header, Variant::Idx14, q, w, h, r)
        },
{
    let (q, said) = choose|q: QuantResult, said: Verdict|
        {
            &&& #[trigger] quantize::is_quantized(metric, packs@, 256, q)
            &&& #[trigger] call_ensures(judge, (packs, &q), said)
            &&& if said == Verdict::Beyond && choices.allow_v3 {
                is_depthless_write::<C, V>(
                    header,
                    packs,
                    w,
                    h,
                    flatten,
                    choices.emit_idx10s,
                    r,
                )
            } else if said == Verdict::Within {
                is_quantized_write(header, Variant::Idx8, q, w, h, r)
            } else {
                is_larger_write(header, packs, w, h, metric, judge, choices.no_idx14, r)
            }
        };
    assert(said == verdict);
    if verdict == Verdict::Within && slots_asked_for(packs@) <= 256 {
        lemma_keeps_packs(metric, packs@, 256, q);
    }
}

/// An imposter with a table of depths has a palette of 1024 entries, of which every index
/// of 10 bits names one, and a table of a nibble for each of them and each tile of the grid.
pub proof fn law_tables_have_room_for_every_index<C: Centroid>(
    header: Header,
    packs: Seq<[u8; 8]>,
    w: u32,
    h: u32,
    r: Result<Vec<u8>, AssetError>,
)
    requires
        is_idx10s_write::<C>(header, packs, w, h, r),
        packs.len() == w * h,
    ensures
        (r matches Err(e) && e.kind_spec() == Failure::PaletteOverflow) || exists|
            palette: Seq<u32>,
            indices: Seq<u16>,
            depth: ImageFile,
        |
            {
                &&& palette.len() == 1024
                &&& indices.len() == w * h
                &&& depth.file == File::DepthPalette
                &&& depth.data@.len() == (header.grid_size * header.grid_size) * 512
                &&& depth.width == 512
                &&& #[trigger] is_flat_write(
                    header,
                    Variant::Idx10s,
                    palette,
                    indices,
                    depth,
                    w,
                    h,
                    r,
                )
            },
{
    let tiles = tiles_of(packs.len(), w as int, header.grid_size as int, header.packed_size);
    let num_tiles = header.grid_size * header.grid_size;
    assert(0 <= num_tiles) by (nonlinear_arith)
        requires
            num_tiles == header.grid_size * header.grid_size,
    ;
    let q = choose|q: Option<QuantResult10s>| #[trigger]
        idx10s::is_result_10s::<C>(packs, tiles, num_tiles, IDX10S_SLOTS as int, q) && match q {
            None => r matches Err(e) && e.kind_spec() == Failure::PaletteOverflow,
            Some(q) => exists|depth: ImageFile|
                {
                    &&& is_luma(depth, File::DepthPalette, 512, num_tiles as u32)
                    &&& depth.data@ == q.depth_palette@
                    &&& #[trigger] is_flat_write(
                        header,
                        Variant::Idx10s,
                        q.palette@,
                        q.indices@,
                        depth,
                        w,
                        h,
                        r,
                    )
                },
        };
    if q is Some {
        let q = q->0;
        idx10s::lemma_result_sizes::<C>(packs, tiles, num_tiles, IDX10S_SLOTS as int, q);
        let depth = choose|depth: ImageFile|
            {
                &&& is_luma(depth, File::DepthPalette, 512, num_tiles as u32)
                &&& depth.data@ == q.depth_palette@
                &&& #[trigger] is_flat_write(
                    header,
                    Variant::Idx10s,
                    q.palette@,
                    q.indices@,
                    depth,
                    w,
                    h,
                    r,
                )
            };
        assert(is_flat_write(
            header,
            Variant::Idx10s,
            q.palette@,
            q.indices@,
            depth,
            w,
            h,
            r,
        ));
    }
}

/// The image has pixels, and its file is no longer than an archive takes.
pub open spec fn can_be_written(image: ImageFile) -> bool {
    image.width > 0 && image.height > 0 && (image.png() matches Some(file) ==> file.len()
        <= 0xffff_ffff)
}

/// Images and settings can be written just where every image has pixels, no file is too
/// long, and no two files have the same name.
pub proof fn law_what_can_be_written(images: Seq<ImageFile>, s: SettingsView)
    ensures
        write_failure(images, s) is None <==> {
            &&& forall|i: int| 0 <= i < images.len() ==> can_be_written(#[trigger] images[i])
            &&& forall|i: int, j: int|
                0 <= i < j < images.len() ==> (#[trigger] images[i]).file != (
                #[trigger] images[j]).file
            &&& forall|i: int|
                0 <= i < images.len() ==> (#[trigger] images[i]).file != File::Settings
            &&& settings::join(settings::fields_of(s)).len() <= 0xffff_ffff
        },
{
    lemma_images_written(images, images.len());
    assert(is_named(images, File::Settings.name_spec()@) <==> exists|i: int|
        0 <= i < images.len() && (#[trigger] images[i]).file == File::Settings) by {
        assert forall|i: int| 0 <= i < images.len() implies ((
        #[trigger] images[i]).file.name_spec()@ == File::Settings.name_spec()@ <==> images[i].file
            == File::Settings) by {
            lemma_same_name(images[i].file, File::Settings);
        }
    }
}

proof fn lemma_same_name(a: File, b: File)
    ensures
        a.name_spec()@ == b.name_spec()@ <==> a == b,
{
    archive::law_files_by_name(a);
    archive::law_files_by_name(b);
}

proof fn lemma_images_written(images: Seq<ImageFile>, n: nat)
    requires
        n <= images.len(),
    ensures
        images_failure(images, n) is None <==> {
            &&& forall|i: int| 0 <= i < n ==> can_be_written(#[trigger] images[i])
            &&& forall|i: int, j: int|
                0 <= i < j < n ==> (#[trigger] images[i]).file != (#[trigger] images[j]).file
        },
    decreases n,
{
    if n > 0 {
        let m = n - 1;
        lemma_images_written(images, m as nat);
        let head = images.take(m);
        assert(is_named(head, images[m].file.name_spec()@) <==> exists|i: int|
            0 <= i < m && (#[trigger] images[i]).file == images[m].file) by {
            assert forall|i: int| 0 <= i < m implies ((#[trigger] images[i]).file.name_spec()@
                == images[m].file.name_spec()@ <==> images[i].file == images[m].file) by {
                lemma_same_name(images[i].file, images[m].file);
            }
            if is_named(head, images[m].file.name_spec()@) {
                let i = choose|i: int|
                    0 <= i < head.len() && (#[trigger] head[i]).file.name_spec()@
                        == images[m].file.name_spec()@;
                assert(images[i].file == images[m].file);
            }
            if exists|i: int| 0 <= i < m && (#[trigger] images[i]).file == images[m].file {
                let i = choose|i: int| 0 <= i < m && (#[trigger] images[i]).file == images[m].file;
                assert(head[i].file == images[m].file);
            }
        }
    }
}

} // verus!
