//! The archive that an imposter is kept in, and the files in it.

use std::io::{Cursor, Read, Write};

use vstd::prelude::*;

use zip::result::ZipError;
use zip::write::SimpleFileOptions;
use zip::{CompressionMethod, ZipArchive, ZipWriter};

verus! {

/// `std::io::Cursor`, through which bytes in memory are read.
#[verifier::external_type_specification]
#[verifier::external_body]
#[verifier::reject_recursive_types(T)]
pub struct ExCursor<T>(std::io::Cursor<T>);

/// `zip::ZipArchive`, an archive open for reading.
#[verifier::external_type_specification]
#[verifier::external_body]
#[verifier::reject_recursive_types(R)]
pub struct ExZipArchive<R>(zip::ZipArchive<R>);

/// `zip::result::ZipError`, why an archive could not be read or written.
#[verifier::external_type_specification]
#[verifier::external_body]
pub struct ExZipError(zip::result::ZipError);

/// A `zip::ZipWriter` that writes to memory. Its bounds on outside traits keep
/// the type itself from being declared.
#[verifier::external_body]
pub struct ArchiveWriter {
    inner: ZipWriter<Cursor<Vec<u8>>>,
}

/// A short name of small letters, underscores and dots.
pub open spec fn is_plain_name(name: Seq<char>) -> bool {
    &&& 0 < name.len() <= 64
    &&& forall|i: int|
        0 <= i < name.len() ==> 'a' <= #[trigger] name[i] <= 'z' || name[i] == '_' || name[i]
            == '.'
}

/// A file of an imposter.
#[derive(Clone, Copy, PartialEq, Eq, Structural, Debug)]
pub enum File {
    Settings,
    Texture,
    Pixels,
    Indices,
    Palette,
    Idx,
    IdxLo,
    IdxHi,
    DepthPalette,
    Depth,
}

impl File {
    /// Its name in the archive.
    pub open spec fn name_spec(self) -> &'static str {
        match self {
            File::Settings => "settings.txt",
            File::Texture => "texture.png",
            File::Pixels => "pixels.png",
            File::Indices => "indices.png",
            File::Palette => "palette.png",
            File::Idx => "idx.png",
            File::IdxLo => "idx_lo.png",
            File::IdxHi => "idx_hi.png",
            File::DepthPalette => "depth_palette.png",
            File::Depth => "depth.png",
        }
    }

    /// Its name in the archive.
    pub fn name(&self) -> (name: &'static str)
        ensures
            name == self.name_spec(),
            is_plain_name(name@),
    {
        proof {
            reveal_strlit("settings.txt");
            reveal_strlit("texture.png");
            reveal_strlit("pixels.png");
            reveal_strlit("indices.png");
            reveal_strlit("palette.png");
            reveal_strlit("idx.png");
            reveal_strlit("idx_lo.png");
            reveal_strlit("idx_hi.png");
            reveal_strlit("depth_palette.png");
            reveal_strlit("depth.png");
        }
        match self {
            File::Settings => "settings.txt",
            File::Texture => "texture.png",
            File::Pixels => "pixels.png",
            File::Indices => "indices.png",
            File::Palette => "palette.png",
            File::Idx => "idx.png",
            File::IdxLo => "idx_lo.png",
            File::IdxHi => "idx_hi.png",
            File::DepthPalette => "depth_palette.png",
            File::Depth => "depth.png",
        }
    }
}

/// What `zip::ZipArchive` finds in bytes: the files by name, `None` in place of
/// a file that cannot be read; `None` altogether where the bytes are no archive.
pub uninterp spec fn zip_contents(bytes: Seq<u8>) -> Option<Map<Seq<char>, Option<Seq<u8>>>>;

/// The files in an open archive by name, `None` in place of one that cannot be read.
pub uninterp spec fn files(archive: ZipArchive<Cursor<Vec<u8>>>) -> Map<
    Seq<char>,
    Option<Seq<u8>>,
>;

/// The files started so far, in order, with what has been written to them.
pub uninterp spec fn written(writer: ArchiveWriter) -> Seq<(Seq<char>, Seq<u8>)>;

/// Every call on the writer has succeeded so far.
pub uninterp spec fn is_open(writer: ArchiveWriter) -> bool;

/// A file of an archive has no more bytes than this.
pub open spec fn file_limit() -> int {
    0xffff_ffff
}

/// The files that were written, by name.
pub open spec fn by_name(entries: Seq<(Seq<char>, Seq<u8>)>) -> Map<Seq<char>, Option<Seq<u8>>>
    decreases entries.len(),
{
    if entries.len() == 0 {
        Map::empty()
    } else {
        by_name(entries.drop_last()).insert(entries.last().0, Some(entries.last().1))
    }
}

/// Opens an archive, by `zip::ZipArchive::new`. Whether that succeeds, and
/// which files it finds, depends on the bytes alone.
#[verifier::external_body]
pub(crate) fn open(bytes: Vec<u8>) -> (r: Result<ZipArchive<Cursor<Vec<u8>>>, ZipError>)
    ensures
        r is Ok <==> zip_contents(bytes@) is Some,
        r matches Ok(archive) ==> zip_contents(bytes@) == Some(files(archive)),
{
    ZipArchive::new(Cursor::new(bytes))
}

/// Whether there is a file of that name, by `zip::ZipArchive::index_for_name`.
#[verifier::external_body]
pub(crate) fn holds(archive: &ZipArchive<Cursor<Vec<u8>>>, name: &str) -> (there: bool)
    ensures
        there == files(*archive).contains_key(name@),
{
    archive.index_for_name(name).is_some()
}

/// Reads a file, by `zip::ZipArchive::by_name` and the `Read` of what that
/// returns. It fails where there is no such file and where the file cannot be
/// read; either way the archive stays as it is.
#[verifier::external_body]
pub(crate) fn read(archive: &mut ZipArchive<Cursor<Vec<u8>>>, name: &str) -> (r: Result<
    Vec<u8>,
    ZipError,
>)
    ensures
        files(*final(archive)) == files(*old(archive)),
        r is Ok <==> files(*old(archive)).contains_key(name@) && files(*old(archive))[name@] is Some,
        r matches Ok(bytes) ==> files(*old(archive))[name@] == Some(bytes@),
{
    let mut bytes = Vec::new();
    archive.by_name(name)?.read_to_end(&mut bytes)?;
    Ok(bytes)
}

impl ArchiveWriter {
    /// An archive without files, by `zip::ZipWriter::new`.
    #[verifier::external_body]
    pub(crate) fn new() -> (writer: ArchiveWriter)
        ensures
            is_open(writer),
            written(writer) == Seq::<(Seq<char>, Seq<u8>)>::empty(),
    {
        ArchiveWriter { inner: ZipWriter::new(Cursor::new(Vec::new())) }
    }

    /// Starts a file that is stored without compression, by
    /// `zip::ZipWriter::start_file`, which refuses a name that was used before and
    /// nothing else, since writing to memory does not fail. After a failure
    /// nothing is said of the archive.
    #[verifier::external_body]
    fn start(&mut self, name: &str) -> (r: Result<(), ZipError>)
        requires
            is_open(*old(self)),
            is_plain_name(name@),
        ensures
            r is Ok <==> !by_name(written(*old(self))).contains_key(name@),
            r is Ok ==> is_open(*final(self)) && written(*final(self)) == written(
                *old(self),
            ).push((name@, Seq::empty())),
    {
        let options = SimpleFileOptions::default().compression_method(CompressionMethod::Stored);
        self.inner.start_file(name, options)
    }

    /// Writes to the file that was started last, by the `Write` of
    /// `zip::ZipWriter`, which refuses more bytes than a file can have and nothing
    /// else. After a failure nothing is said of the archive.
    #[verifier::external_body]
    fn write(&mut self, bytes: &[u8]) -> (r: Result<(), ZipError>)
        requires
            is_open(*old(self)),
            written(*old(self)).len() > 0,
        ensures
            r is Ok <==> written(*old(self)).last().1.len() + bytes@.len() <= file_limit(),
            r is Ok ==> is_open(*final(self)) && written(*final(self)) == written(
                *old(self),
            ).drop_last().push(
                (written(*old(self)).last().0, written(*old(self)).last().1 + bytes@),
            ),
    {
        Ok(self.inner.write_all(bytes)?)
    }

    /// The bytes of the archive, by `zip::ZipWriter::finish`. Read again they
    /// hold the files that were written. That is not said of archives so long that
    /// their sizes and offsets do not fit in 32 bits.
    #[verifier::external_body]
    pub(crate) fn finish(self) -> (r: Result<Vec<u8>, ZipError>)
        requires
            is_open(self),
        ensures
            r is Ok,
            r matches Ok(bytes) ==> (bytes@.len() < file_limit() ==> zip_contents(bytes@) == Some(
                by_name(written(self)),
            )),
    {
        Ok(self.inner.finish()?.into_inner())
    }

    /// Adds a file. It fails where there is one of that name, and where the bytes
    /// are too many.
    pub(crate) fn put(&mut self, file: File, bytes: &[u8]) -> (r: Result<(), ZipError>)
        requires
            is_open(*old(self)),
        ensures
            r is Ok <==> !by_name(written(*old(self))).contains_key(file.name_spec()@)
                && bytes@.len() <= file_limit(),
            r is Ok ==> is_open(*final(self)) && written(*final(self)) == written(
                *old(self),
            ).push((file.name_spec()@, bytes@)),
    {
        match self.start(file.name()) {
            Ok(_) => {},
            Err(e) => {
                return Err(e);
            },
        }
        let ghost started = written(*self);
        let r: Result<(), ZipError> = self.write(bytes);
        proof {
            if r is Ok {
                assert(started.drop_last() =~= written(*old(self)));
                assert(Seq::<u8>::empty() + bytes@ =~= bytes@);
            }
        }
        r
    }
}

/// A file of an imposter has this name, and no other file has it.
pub proof fn law_files_by_name(file: File)
    ensures
        file.name_spec()@ == "settings.txt"@ <==> file == File::Settings,
        file.name_spec()@ == "texture.png"@ <==> file == File::Texture,
        file.name_spec()@ == "pixels.png"@ <==> file == File::Pixels,
        file.name_spec()@ == "indices.png"@ <==> file == File::Indices,
        file.name_spec()@ == "palette.png"@ <==> file == File::Palette,
        file.name_spec()@ == "idx.png"@ <==> file == File::Idx,
        file.name_spec()@ == "idx_lo.png"@ <==> file == File::IdxLo,
        file.name_spec()@ == "idx_hi.png"@ <==> file == File::IdxHi,
        file.name_spec()@ == "depth_palette.png"@ <==> file == File::DepthPalette,
        file.name_spec()@ == "depth.png"@ <==> file == File::Depth,
{
    reveal_strlit("settings.txt");
    reveal_strlit("texture.png");
    reveal_strlit("pixels.png");
    reveal_strlit("indices.png");
    reveal_strlit("palette.png");
    reveal_strlit("idx.png");
    reveal_strlit("idx_lo.png");
    reveal_strlit("idx_hi.png");
    reveal_strlit("depth_palette.png");
    reveal_strlit("depth.png");
    assert("settings.txt"@.len() == 12 && "texture.png"@.len() == 11 && "pixels.png"@.len() == 10);
    assert("indices.png"@.len() == 11 && "palette.png"@.len() == 11 && "idx.png"@.len() == 7);
    assert("idx_lo.png"@.len() == 10 && "idx_hi.png"@.len() == 10 && "depth.png"@.len() == 9);
    assert("depth_palette.png"@.len() == 17);
    assert("texture.png"@[0] == 't' && "indices.png"@[0] == 'i' && "palette.png"@[0] == 'p');
    assert("pixels.png"@[0] == 'p' && "idx_lo.png"@[0] == 'i' && "idx_hi.png"@[0] == 'i');
    assert("idx_lo.png"@[4] == 'l' && "idx_hi.png"@[4] == 'h');
}

} // verus!
