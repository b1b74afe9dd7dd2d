//! Reading and writing zip archives held in memory, through the zip crate.

use crate::error::{AppError, ErrorV};
use crate::text::{chars_of, push_str, string_of};
use vstd::prelude::*;

verus! {

/// The outcome of reading one entry of an archive.
pub enum ZipRead {
    /// The bytes are not a readable zip archive (with the crate's message).
    NotZip(String),
    /// The archive has no entry of that name (with the crate's message).
    Missing(String),
    /// The entry exists but could not be decompressed (with the message).
    Unreadable(String),
    Found(Vec<u8>),
}

pub enum ZipReadV {
    NotZip(Seq<char>),
    Missing(Seq<char>),
    Unreadable(Seq<char>),
    Found(Seq<u8>),
}

impl View for ZipRead {
    type V = ZipReadV;

    open spec fn view(&self) -> ZipReadV {
        match self {
            ZipRead::NotZip(m) => ZipReadV::NotZip(m@),
            ZipRead::Missing(m) => ZipReadV::Missing(m@),
            ZipRead::Unreadable(m) => ZipReadV::Unreadable(m@),
            ZipRead::Found(b) => ZipReadV::Found(b@),
        }
    }
}

/// What reading the entry `name` of the archive `archive` gives.
pub uninterp spec fn zip_entry(archive: Seq<u8>, name: Seq<char>) -> ZipReadV;

/// `zip::ZipArchive::new`, `ZipArchive::by_name` and `Read::read_to_end`:
/// the decompressed contents of one entry.
#[verifier::external_body]
pub(crate) fn zip_read(archive: &[u8], name: &str) -> (r: ZipRead)
    ensures
        r@ == zip_entry(archive@, name@),
{
    let mut a = match zip::ZipArchive::new(std::io::Cursor::new(archive)) {
        Ok(a) => a,
        Err(e) => return ZipRead::NotZip(e.to_string()),
    };
    let mut f = match a.by_name(name) {
        Ok(f) => f,
        Err(e) => return ZipRead::Missing(e.to_string()),
    };
    let mut buf = Vec::new();
    match std::io::Read::read_to_end(&mut f, &mut buf) {
        Ok(_) => ZipRead::Found(buf),
        Err(e) => ZipRead::Unreadable(e.to_string()),
    }
}

/// Reading the file at `path` of an archive: its bytes, or the error,
/// whose message names the path.
pub open spec fn file_read(archive: Seq<u8>, path: Seq<char>) -> Result<Seq<u8>, ErrorV> {
    match zip_entry(archive, path) {
        ZipReadV::NotZip(m) => Err(ErrorV::InvalidZip(m)),
        ZipReadV::Missing(m) => Err(ErrorV::Io("reading "@ + path + ": "@ + m)),
        ZipReadV::Unreadable(m) => Err(ErrorV::Io("reading "@ + path + ": "@ + m)),
        ZipReadV::Found(b) => Ok(b),
    }
}

/// Reads the file at `path` of an archive, as `file_read` says.
pub fn read_file_bytes(archive: &[u8], path: &str) -> (r: Result<Vec<u8>, AppError>)
    ensures
        match file_read(archive@, path@) {
            Ok(b) => r matches Ok(v) && v@ == b,
            Err(x) => r matches Err(e) && e@ == x,
        },
{
    match zip_read(archive, path) {
        ZipRead::NotZip(m) => Err(AppError::InvalidZip(m)),
        ZipRead::Missing(m) => Err(reading_error(path, m.as_str())),
        ZipRead::Unreadable(m) => Err(reading_error(path, m.as_str())),
        ZipRead::Found(b) => Ok(b),
    }
}

fn reading_error(path: &str, m: &str) -> (r: AppError)
    ensures
        r@ == ErrorV::Io("reading "@ + path@ + ": "@ + m@),
{
    let mut msg = chars_of("reading ");
    push_str(&mut msg, path);
    push_str(&mut msg, ": ");
    push_str(&mut msg, m);
    AppError::Io(string_of(msg.as_slice()))
}

// ---------------------------------------------------------------------------
// Listing and writing archives

/// The number of entries of an archive, or the message of the error met
/// opening it.
pub uninterp spec fn zip_count(archive: Seq<u8>) -> Result<nat, Seq<char>>;

/// The name of entry `i` of an archive (its raw record, nothing
/// decompressed), or the message of the error met reading it.
pub uninterp spec fn zip_name(archive: Seq<u8>, i: nat) -> Result<Seq<char>, Seq<char>>;

/// `ZipArchive::new` and `ZipArchive::len`.
#[verifier::external_body]
pub(crate) fn zip_entry_count(archive: &[u8]) -> (r: Result<usize, String>)
    ensures
        match zip_count(archive@) {
            Ok(n) => r matches Ok(k) && k == n,
            Err(m) => r matches Err(e) && e@ == m,
        },
{
    match zip::ZipArchive::new(std::io::Cursor::new(archive)) {
        Ok(a) => Ok(a.len()),
        Err(e) => Err(e.to_string()),
    }
}

/// `ZipArchive::new`, `ZipArchive::by_index_raw(i)` and `ZipFile::name`.
#[verifier::external_body]
pub(crate) fn zip_entry_name(archive: &[u8], i: usize) -> (r: Result<String, String>)
    ensures
        match zip_name(archive@, i as nat) {
            Ok(n) => r matches Ok(k) && k@ == n,
            Err(m) => r matches Err(e) && e@ == m,
        },
{
    let mut a = zip::ZipArchive::new(std::io::Cursor::new(archive)).map_err(|e| e.to_string())?;
    let f = a.by_index_raw(i).map_err(|e| e.to_string())?;
    Ok(f.name().to_string())
}

/// A zip archive being written into memory: a `zip::ZipWriter` over a
/// `Cursor<Vec<u8>>`. The writer's type names traits of std that cannot be
/// given as bounds here, so it is held in a field of this struct.
#[verifier::external_body]
pub struct ArchiveWriter {
    writer: zip::ZipWriter<std::io::Cursor<Vec<u8>>>,
}

/// The entries written into an archive writer so far, in order: each
/// entry's name, and the bytes that reading it back from the finished
/// archive gives (`None` for a copied entry whose data cannot be read).
pub uninterp spec fn archive_entries(w: ArchiveWriter) -> Seq<(Seq<char>, Option<Seq<u8>>)>;

/// The largest entry, in bytes, for which the writer's success is stated:
/// well below the 4 GiB at which an entry needs the ZIP64 option.
pub open spec fn entry_limit() -> nat {
    0x7fff_ffff
}

/// Some entry is named `name`.
pub open spec fn has_name(es: Seq<(Seq<char>, Option<Seq<u8>>)>, name: Seq<char>) -> bool {
    exists|i: int| 0 <= i < es.len() && #[trigger] es[i].0 == name
}

/// A name short enough for a zip header (at most 65535 bytes of UTF-8).
pub open spec fn name_fits(name: Seq<char>) -> bool {
    vstd::utf8::encode_utf8(name).len() <= 0xffff
}

/// The last entry, which the next operation finishes, is small enough.
pub open spec fn last_fits(es: Seq<(Seq<char>, Option<Seq<u8>>)>) -> bool {
    es.len() == 0 || (es.last().1 matches Some(d) ==> d.len() <= entry_limit())
}

/// `ZipWriter::new` over an empty buffer: no entry written yet.
#[verifier::external_body]
pub(crate) fn archive_writer() -> (r: ArchiveWriter)
    ensures
        archive_entries(r) == Seq::<(Seq<char>, Option<Seq<u8>>)>::empty(),
{
    ArchiveWriter { writer: zip::ZipWriter::new(std::io::Cursor::new(Vec::new())) }
}

/// `ZipWriter::start_file` with deflate compression, then `Write::write_all`
/// of `data` into it; or the error's message. On success the entry `name`
/// holding `data` is the last one. The writer refuses a name it has already
/// written; it accepts a new name of fitting length with data within
/// `entry_limit` when the entry before is within it too (the writes go to
/// memory and fail only on these size limits).
#[verifier::external_body]
pub(crate) fn archive_add_deflated(w: &mut ArchiveWriter, name: &str, data: &[u8]) -> (r: Result<
    (),
    String,
>)
    ensures
        r is Ok ==> archive_entries(*final(w)) == archive_entries(*old(w)).push((name@, Some(data@))),
        has_name(archive_entries(*old(w)), name@) ==> r is Err,
        !has_name(archive_entries(*old(w)), name@) && name_fits(name@) && data@.len()
            <= entry_limit() && last_fits(archive_entries(*old(w))) ==> r is Ok,
{
    let options = zip::write::SimpleFileOptions::default().compression_method(
        zip::CompressionMethod::Deflated,
    );
    w.writer.start_file(name, options).map_err(|e| e.to_string())?;
    std::io::Write::write_all(&mut w.writer, data).map_err(|e| e.to_string())
}

/// The outcome of copying one entry of an archive, still compressed.
pub enum RawCopy {
    /// The source is not a readable archive (with the crate's message).
    NotZip(String),
    /// The source has no such entry (with the crate's message).
    Missing(String),
    /// The copy failed (with the crate's message).
    Failed(String),
    Copied,
}

/// `ZipArchive::new` and `ZipArchive::by_name` on the source archive, then
/// `ZipWriter::raw_copy_file`. On success the archive has one more entry,
/// named `name`; its compressed data is copied as it is, so where the
/// source entry can be read, the new one holds the same bytes. The writer
/// refuses a name it has already written; it copies a readable entry of a
/// new name of fitting length, from a source within `entry_limit`, when the
/// entry before is within it too.
#[verifier::external_body]
pub(crate) fn archive_raw_copy(w: &mut ArchiveWriter, archive: &[u8], name: &str) -> (r: RawCopy)
    ensures
        r is Copied ==> {
            let before = archive_entries(*old(w));
            let after = archive_entries(*final(w));
            &&& after.len() == before.len() + 1
            &&& after.take(before.len() as int) == before
            &&& after.last().0 == name@
            &&& zip_entry(archive@, name@) matches ZipReadV::Found(x) ==> after.last().1 == Some(x)
        },
        has_name(archive_entries(*old(w)), name@) ==> !(r is Copied),
        ({
            &&& !has_name(archive_entries(*old(w)), name@)
            &&& name_fits(name@)
            &&& archive@.len() <= entry_limit()
            &&& zip_entry(archive@, name@) matches ZipReadV::Found(x) && x.len() <= entry_limit()
            &&& last_fits(archive_entries(*old(w)))
        }) ==> r is Copied,
{
    let mut a = match zip::ZipArchive::new(std::io::Cursor::new(archive)) {
        Ok(a) => a,
        Err(e) => return RawCopy::NotZip(e.to_string()),
    };
    let f = match a.by_name(name) {
        Ok(f) => f,
        Err(e) => return RawCopy::Missing(e.to_string()),
    };
    match w.writer.raw_copy_file(f) {
        Ok(()) => RawCopy::Copied,
        Err(e) => RawCopy::Failed(e.to_string()),
    }
}

/// An entry with readable data reads back from the archive `b` as that data.
pub open spec fn entry_reads_back(b: Seq<u8>, e: (Seq<char>, Option<Seq<u8>>)) -> bool {
    e.1 matches Some(d) ==> zip_entry(b, e.0) == ZipReadV::Found(d)
}

/// Every entry of the writer reads back from its finished archive as
/// `archive_entries` records it.
pub open spec fn reads_back(w: ArchiveWriter) -> bool {
    forall|i: int|
        0 <= i < archive_entries(w).len() ==> #[trigger] entry_reads_back(
            finished_bytes(w),
            archive_entries(w)[i],
        )
}

/// The bytes `ZipWriter::finish` writes for the archive as it stands.
pub uninterp spec fn finished_bytes(w: ArchiveWriter) -> Seq<u8>;

/// `ZipWriter::finish`: the archive's bytes, or the error's message. It
/// fails only when finishing the last entry does (the size limits). In the
/// archive, every entry that can be read back reads back as written, and an
/// entry that was written (not copied) always can.
#[verifier::external_body]
pub(crate) fn archive_finish(w: ArchiveWriter) -> (r: Result<Vec<u8>, String>)
    ensures
        r matches Ok(b) ==> b@ == finished_bytes(w),
        last_fits(archive_entries(w)) ==> r is Ok,
        r is Ok ==> reads_back(w),
{
    w.writer.finish().map(|c| c.into_inner()).map_err(|e| e.to_string())
}

} // verus!
