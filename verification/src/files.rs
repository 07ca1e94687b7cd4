//! The staging area on disk, seen through a small trusted surface.
//!
//! A sort run owns one scoped temporary directory (`tempfile::TempDir`) and
//! one temporary file per chunk (`tempfile::SpooledTempFile`, created inside
//! that directory and spilled to disk as soon as anything is written).  Both
//! are removed automatically when dropped, on every exit path.
//!
//! Verified code never touches the files directly: it goes through the
//! wrappers below, whose contracts speak of two names for the state of a
//! chunk file, its byte contents `file_data` and its cursor `file_pos`.

use vstd::prelude::*;

verus! {

#[verifier::external_type_specification]
#[verifier::external_body]
pub struct ExTempDir(tempfile::TempDir);

#[verifier::external_type_specification]
#[verifier::external_body]
pub struct ExSpooledTempFile(tempfile::SpooledTempFile);

#[verifier::external_type_specification]
#[verifier::external_body]
pub struct ExIoError(std::io::Error);

/// The bytes a chunk file holds, from start to end.
pub uninterp spec fn file_data(f: tempfile::SpooledTempFile) -> Seq<u8>;

/// The cursor of a chunk file: the offset at which the next byte is read
/// or written.
pub uninterp spec fn file_pos(f: tempfile::SpooledTempFile) -> int;

/// Relies on `tempfile::Builder::tempdir`: a fresh, uniquely named directory
/// under the system default location, deleted when the handle is dropped.
#[verifier::external_body]
pub(crate) fn new_scoped_dir() -> (r: Result<tempfile::TempDir, std::io::Error>)
{
    tempfile::Builder::new().prefix("extsort_lily").tempdir()
}

/// Relies on `tempfile::Builder::tempdir_in`: as `new_scoped_dir`, but the
/// directory is created under the given parent.
#[verifier::external_body]
pub(crate) fn new_scoped_dir_in(parent: &str) -> (r: Result<tempfile::TempDir, std::io::Error>)
{
    tempfile::Builder::new().prefix("extsort_lily").tempdir_in(parent)
}

/// Relies on `tempfile::SpooledTempFile::new_in`: a fresh, empty temporary
/// file, backed by the given directory once anything is written to it, and
/// removed by the operating system when the handle is dropped.
#[verifier::external_body]
pub(crate) fn new_chunk_file(dir: &tempfile::TempDir) -> (f: tempfile::SpooledTempFile)
    ensures
        file_data(f) == Seq::<u8>::empty(),
        file_pos(f) == 0,
{
    tempfile::SpooledTempFile::new_in(0, dir.path())
}

/// Relies on `std::io::Write::write_all` on `SpooledTempFile`: on success the
/// byte stands at the end of the file and the cursor moved past it.
#[verifier::external_body]
pub(crate) fn write_byte(f: &mut tempfile::SpooledTempFile, b: u8) -> (r: Result<(), std::io::Error>)
    requires
        file_pos(*old(f)) == file_data(*old(f)).len(),
    ensures
        r is Ok ==> file_data(*final(f)) == file_data(*old(f)).push(b)
            && file_pos(*final(f)) == file_data(*final(f)).len(),
{
    std::io::Write::write_all(f, &[b])
}

/// Relies on `std::io::Read::read` on `SpooledTempFile` with a one-byte
/// buffer: it hands back the byte under the cursor and advances the cursor,
/// or reads zero bytes exactly when the cursor is at the end of the file.
#[verifier::external_body]
pub(crate) fn read_byte(f: &mut tempfile::SpooledTempFile) -> (r: Result<Option<u8>, std::io::Error>)
    ensures
        r matches Ok(Some(b)) ==> 0 <= file_pos(*old(f)) < file_data(*old(f)).len()
            && b == file_data(*old(f))[file_pos(*old(f))]
            && file_data(*final(f)) == file_data(*old(f))
            && file_pos(*final(f)) == file_pos(*old(f)) + 1,
        r matches Ok(None) ==> *final(f) == *old(f) && file_pos(*old(f)) >= file_data(*old(f)).len(),
{
    let mut buf = [0u8];
    match std::io::Read::read(f, &mut buf) {
        Ok(0) => Ok(None),
        Ok(_) => Ok(Some(buf[0])),
        Err(e) => Err(e),
    }
}

/// Relies on `std::io::Seek::seek` on `SpooledTempFile`: on success the
/// cursor stands at the start of the file and the contents are untouched.
#[verifier::external_body]
pub(crate) fn rewind_file(f: &mut tempfile::SpooledTempFile) -> (r: Result<(), std::io::Error>)
    ensures
        r is Ok ==> file_data(*final(f)) == file_data(*old(f)) && file_pos(*final(f)) == 0,
{
    match std::io::Seek::seek(f, std::io::SeekFrom::Start(0)) {
        Ok(_) => Ok(()),
        Err(e) => Err(e),
    }
}

/// Hand out the chunk file at index `i` of `files`.
pub(crate) fn chunk_file_at<'a>(
    files: &'a mut Vec<tempfile::SpooledTempFile>,
    i: usize,
) -> (f: &'a mut tempfile::SpooledTempFile)
    requires
        i < old(files)@.len(),
    ensures
        *f == old(files)@[i as int],
        final(files)@ == old(files)@.update(i as int, *final(f)),
{
    &mut files[i]
}

/// Relies on `std::io::Error::new`: an error of kind `InvalidData`, for a
/// deserializer that met bytes it cannot turn into a record.
#[verifier::external_body]
pub(crate) fn invalid_data_error() -> (r: std::io::Error)
{
    std::io::Error::new(std::io::ErrorKind::InvalidData, "malformed record")
}

} // verus!
