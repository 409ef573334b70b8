//! Reading the natively supported container format, through the `zip` crate.
use crate::text::opt_text;
use vstd::prelude::*;

verus! {

/// `zip::ZipArchive`: an opened archive over the reader `R`. Nothing of its
/// inside is visible here; what it holds is named by `archive_entries`.
#[verifier::external_type_specification]
#[verifier::external_body]
#[verifier::reject_recursive_types(R)]
pub struct ExZipArchive<R>(zip::ZipArchive<R>);

/// `std::io::Cursor`: the reader over bytes in memory that an archive is
/// opened on.
#[verifier::external_type_specification]
#[verifier::external_body]
#[verifier::reject_recursive_types(T)]
pub struct ExCursor<T>(std::io::Cursor<T>);

/// `zip::result::ZipError`: why an archive could not be opened.
#[verifier::external_type_specification]
#[verifier::external_body]
pub struct ExZipError(zip::result::ZipError);

/// What an entry of an archive shows of itself before its content is read.
pub struct HeaderModel {
    /// Whether the entry is a regular file rather than a directory.
    pub is_file: bool,
    /// The entry's path inside the archive, where that path is safe to use:
    /// relative, and never leaving the archive's root.
    pub name: Option<Seq<char>>,
}

/// What an archive gives for one of its entries.
pub struct EntryModel {
    /// `None` where the archive refuses to hand the entry out.
    pub header: Option<HeaderModel>,
    /// The entry's content; `None` where it cannot be read to its end.
    pub data: Option<Seq<u8>>,
}

/// What an entry of an archive shows of itself before its content is read.
pub struct EntryHeader {
    pub is_file: bool,
    pub name: Option<String>,
}

impl View for EntryHeader {
    type V = HeaderModel;

    open spec fn view(&self) -> HeaderModel {
        HeaderModel { is_file: self.is_file, name: opt_text(self.name) }
    }
}

/// The entries that an opened archive holds, by index.
pub uninterp spec fn archive_entries(
    archive: zip::ZipArchive<std::io::Cursor<Vec<u8>>>,
) -> Seq<EntryModel>;

/// The entries of the archive that `bytes` encode; `None` where
/// `zip::ZipArchive::new` refuses them.
pub uninterp spec fn zip_contents(bytes: Seq<u8>) -> Option<Seq<EntryModel>>;

/// Opens `bytes` as an archive with `zip::ZipArchive::new`, over a cursor in
/// memory. Whether that succeeds, and what the archive then holds, depends on
/// the bytes alone.
#[verifier::external_body]
pub(crate) fn open_archive(bytes: Vec<u8>) -> (r: Result<
    zip::ZipArchive<std::io::Cursor<Vec<u8>>>,
    zip::result::ZipError,
>)
    ensures
        match r {
            Ok(archive) => zip_contents(bytes@) == Some(archive_entries(archive)),
            Err(_) => zip_contents(bytes@) is None,
        },
{
    zip::ZipArchive::new(std::io::Cursor::new(bytes))
}

/// `zip::ZipArchive::len`: the number of entries.
#[verifier::external_body]
pub(crate) fn archive_len(archive: &zip::ZipArchive<std::io::Cursor<Vec<u8>>>) -> (n: usize)
    ensures
        n == archive_entries(*archive).len(),
{
    archive.len()
}

/// Asks for entry `index` with `zip::ZipArchive::by_index_decrypt`, handing
/// it an empty password so that an entry that wants one is refused rather
/// than unwrapped, and reports what `ZipFile::is_file` and
/// `ZipFile::enclosed_name` say of it. `None` stands for an entry that is
/// not handed out. The archive holds the same entries afterwards.
#[verifier::external_body]
pub(crate) fn entry_header(
    archive: &mut zip::ZipArchive<std::io::Cursor<Vec<u8>>>,
    index: usize,
) -> (r: Option<EntryHeader>)
    ensures
        archive_entries(*final(archive)) == archive_entries(*old(archive)),
        index < archive_entries(*old(archive)).len() ==> match r {
            Some(header) => archive_entries(*old(archive))[index as int].header == Some(header@),
            None => archive_entries(*old(archive))[index as int].header is None,
        },
{
    let file = archive.by_index_decrypt(index, b"").ok()?.ok()?;
    Some(
        EntryHeader {
            is_file: file.is_file(),
            name: file.enclosed_name().map(|path| path.to_string_lossy().to_string()),
        },
    )
}

/// Asks for entry `index` as `entry_header` does and reads its content to
/// the end with `std::io::Read::read_to_end`. `None` stands for an entry
/// that is not handed out or cannot be read. The archive holds the same
/// entries afterwards.
#[verifier::external_body]
pub(crate) fn entry_data(
    archive: &mut zip::ZipArchive<std::io::Cursor<Vec<u8>>>,
    index: usize,
) -> (r: Option<Vec<u8>>)
    ensures
        archive_entries(*final(archive)) == archive_entries(*old(archive)),
        index < archive_entries(*old(archive)).len() ==> match r {
            Some(data) => archive_entries(*old(archive))[index as int].data == Some(data@),
            None => archive_entries(*old(archive))[index as int].data is None,
        },
{
    let mut file = archive.by_index_decrypt(index, b"").ok()?.ok()?;
    let mut data = Vec::new();
    std::io::Read::read_to_end(&mut file, &mut data).ok()?;
    Some(data)
}

} // verus!
