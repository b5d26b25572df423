//! Reading a ZIP archive held in memory, through the `zip` crate.
//!
//! Nothing in this file is proved: each function states what the `zip`
//! crate does, and the planner is verified against these statements.

use std::io::Cursor;
use std::io::Read;
use vstd::prelude::*;
use zip::result::ZipError;
use zip::ZipArchive;

verus! {

#[verifier::external_type_specification]
#[verifier::external_body]
#[verifier::reject_recursive_types(R)]
pub struct ExZipArchive<R>(ZipArchive<R>);

#[verifier::external_type_specification]
#[verifier::external_body]
#[verifier::reject_recursive_types(T)]
pub struct ExCursor<T>(Cursor<T>);

#[verifier::external_type_specification]
#[verifier::external_body]
pub struct ExZipError(ZipError);

/// What the directory of an archive says of one entry.
#[derive(Clone, Debug, PartialEq, Eq)]
pub struct Head {
    /// The entry's name as a relative path, or `None` where the `zip` crate
    /// finds the name unsafe to extract.
    pub enclosed: Option<Vec<u8>>,
    /// The entry marks a directory.
    pub is_dir: bool,
}

impl View for Head {
    type V = (Option<Seq<u8>>, bool);

    open spec fn view(&self) -> (Option<Seq<u8>>, bool) {
        (
            match self.enclosed {
                Some(n) => Some(n@),
                None => None,
            },
            self.is_dir,
        )
    }
}

/// The bytes that an open archive reads from.
pub uninterp spec fn archive_source(a: ZipArchive<Cursor<Vec<u8>>>) -> Seq<u8>;

/// The number of entries that `zip::ZipArchive::new` finds in `bytes`, or
/// `None` where it refuses them as an archive.
pub uninterp spec fn archive_len(bytes: Seq<u8>) -> Option<nat>;

/// What the `zip` crate finds for entry `i` of the archive in `bytes`: the
/// entry's `enclosed_name` and `is_dir`, or `None` where the entry cannot be
/// opened: its index is out of range, its local header cannot be read, it is
/// encrypted, or it carries an AES record. The name goes through
/// `std::path::Path::components`, which reads `\` and drive prefixes as the
/// host does: within one build this is a function of the bytes and the
/// index, and it is not the same function on Windows as elsewhere.
pub uninterp spec fn archive_head(bytes: Seq<u8>, i: nat) -> Option<(Option<Seq<u8>>, bool)>;

/// The decompressed bytes that reading entry `i` of the archive in `bytes`
/// to its end yields, or `None` where the entry cannot be opened or the
/// reading fails.
pub uninterp spec fn archive_payload(bytes: Seq<u8>, i: nat) -> Option<Seq<u8>>;

/// `zip::ZipArchive::new` on a cursor over `bytes`. Succeeds exactly where
/// the bytes hold an archive directory that the crate accepts; the archive
/// then reads from those bytes.
#[verifier::external_body]
pub(crate) fn open_archive(bytes: Vec<u8>) -> (r: Result<ZipArchive<Cursor<Vec<u8>>>, ZipError>)
    ensures
        match r {
            Ok(a) => archive_source(a) == bytes@ && archive_len(bytes@) is Some,
            Err(_) => archive_len(bytes@) is None,
        },
{
    ZipArchive::new(Cursor::new(bytes))
}

/// `ZipArchive::len`: the number of entries in the archive's directory.
#[verifier::external_body]
pub(crate) fn entry_count(a: &ZipArchive<Cursor<Vec<u8>>>) -> (n: usize)
    ensures
        archive_len(archive_source(*a)) == Some(n as nat),
{
    a.len()
}

/// `ZipArchive::by_index_decrypt` with the empty password, then
/// `ZipFile::enclosed_name` and `ZipFile::is_dir` on the entry found. An
/// entry that the crate will not open without a password gives `Err`, as
/// every other entry that cannot be opened. The archive keeps its source.
#[verifier::external_body]
pub(crate) fn entry_head(a: &mut ZipArchive<Cursor<Vec<u8>>>, i: usize) -> (r: Result<
    Head,
    ZipError,
>)
    ensures
        archive_source(*final(a)) == archive_source(*old(a)),
        match r {
            Ok(h) => archive_head(archive_source(*old(a)), i as nat) == Some(h@),
            Err(_) => archive_head(archive_source(*old(a)), i as nat) is None,
        },
{
    let file = match a.by_index_decrypt(i, &[])? {
        Ok(file) => file,
        Err(_) => return Err(ZipError::UnsupportedArchive(ZipError::PASSWORD_REQUIRED)),
    };
    let enclosed = file.enclosed_name().and_then(|p| p.to_str()).map(|s| s.as_bytes().to_vec());
    Ok(Head { enclosed, is_dir: file.is_dir() })
}

/// `ZipArchive::by_index_decrypt` with the empty password, then
/// `Read::read_to_end` on the entry found: the entry's decompressed bytes.
/// The archive keeps its source.
#[verifier::external_body]
pub(crate) fn entry_data(a: &mut ZipArchive<Cursor<Vec<u8>>>, i: usize) -> (r: Result<
    Vec<u8>,
    ZipError,
>)
    ensures
        archive_source(*final(a)) == archive_source(*old(a)),
        match r {
            Ok(d) => archive_payload(archive_source(*old(a)), i as nat) == Some(d@),
            Err(_) => archive_payload(archive_source(*old(a)), i as nat) is None,
        },
{
    let mut file = match a.by_index_decrypt(i, &[])? {
        Ok(file) => file,
        Err(_) => return Err(ZipError::UnsupportedArchive(ZipError::PASSWORD_REQUIRED)),
    };
    let mut data = Vec::new();
    file.read_to_end(&mut data)?;
    Ok(data)
}

} // verus!
