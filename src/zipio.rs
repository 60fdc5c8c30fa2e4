use vstd::prelude::*;
use std::io::Cursor;
use std::io::Read;
use std::io::Write;
use zip::result::ZipError;
use zip::write::SimpleFileOptions;
use zip::ZipArchive;
use zip::ZipWriter;

verus! {

#[verifier::external_type_specification]
#[verifier::external_body]
#[verifier::reject_recursive_types(T)]
pub struct ExCursor<T>(std::io::Cursor<T>);

#[verifier::external_type_specification]
#[verifier::external_body]
#[verifier::reject_recursive_types(R)]
pub struct ExZipArchive<R>(zip::ZipArchive<R>);

#[verifier::external_type_specification]
#[verifier::external_body]
pub struct ExZipError(zip::result::ZipError);

/// Why the zip crate refused an archive or an entry.
#[derive(Clone, Copy, Debug, PartialEq, Eq, Structural)]
pub enum ZipFailure {
    /// Reading the underlying bytes failed (truncated data, bad checksum).
    Io,
    /// The archive structure is malformed.
    Invalid,
    /// The archive uses a feature that is not supported.
    Unsupported,
    /// An entry that was asked for does not exist.
    NotFound,
    /// An entry is encrypted.
    Password,
    /// An entry uses an unknown compression method.
    Compression,
}

/// What the zip crate reads from one entry: its header (name and whether it is a
/// directory), or `None` where the header cannot be read; and its decompressed
/// contents, or `None` where they cannot be read.
pub type EntryRecord = (Option<(Seq<char>, bool)>, Option<Seq<u8>>);

/// The entries that `ZipArchive::new` finds in `bytes`, in the archive's order,
/// or `None` where it refuses them.
pub uninterp spec fn zip_open(bytes: Seq<u8>) -> Option<Seq<EntryRecord>>;

/// The entries that an opened archive holds.
pub uninterp spec fn archive_entries(a: ZipArchive<Cursor<Vec<u8>>>) -> Seq<EntryRecord>;

/// Relies on `zip::ZipArchive::new` over an in-memory cursor: it succeeds exactly
/// when it can read the central directory, and the archive then holds its entries.
#[verifier::external_body]
pub(crate) fn open_archive(bytes: Vec<u8>) -> (r: Result<ZipArchive<Cursor<Vec<u8>>>, ZipError>)
    ensures
        r is Ok <==> zip_open(bytes@) is Some,
        r is Ok ==> archive_entries(r->Ok_0) == zip_open(bytes@)->Some_0,
{
    ZipArchive::new(Cursor::new(bytes))
}

/// Relies on `zip::ZipArchive::len`: the number of entries.
#[verifier::external_body]
pub(crate) fn entry_count(a: &ZipArchive<Cursor<Vec<u8>>>) -> (r: usize)
    ensures
        r == archive_entries(*a).len(),
{
    a.len()
}

/// Relies on `zip::ZipArchive::by_index_data` and the entry's `name` and `is_dir`:
/// they read the central directory record of entry `i`.
#[verifier::external_body]
pub(crate) fn entry_header(a: &ZipArchive<Cursor<Vec<u8>>>, i: usize) -> (r: Result<(String, bool), ZipError>)
    requires
        i < archive_entries(*a).len(),
    ensures
        r is Ok <==> archive_entries(*a)[i as int].0 is Some,
        r is Ok ==> (r->Ok_0.0@, r->Ok_0.1) == archive_entries(*a)[i as int].0->Some_0,
{
    let entry = a.by_index_data(i)?;
    let name = entry.name()?.into_owned();
    Ok((name, entry.is_dir()))
}

/// Relies on `zip::ZipArchive::by_index` and `Read::read_to_end` on the entry:
/// they decompress entry `i` from the in-memory bytes; the entries stay as they were.
#[verifier::external_body]
pub(crate) fn entry_contents(a: &mut ZipArchive<Cursor<Vec<u8>>>, i: usize) -> (r: Result<Vec<u8>, ZipError>)
    requires
        i < archive_entries(*old(a)).len(),
    ensures
        archive_entries(*final(a)) == archive_entries(*old(a)),
        r is Ok <==> archive_entries(*old(a))[i as int].1 is Some,
        r is Ok ==> r->Ok_0@ == archive_entries(*old(a))[i as int].1->Some_0,
{
    let mut file = a.by_index(i)?;
    let mut buf = Vec::new();
    file.read_to_end(&mut buf)?;
    Ok(buf)
}

/// Relies on the variants of `zip::result::ZipError`, told apart one for one.
#[verifier::external_body]
pub(crate) fn failure_of(e: ZipError) -> (r: ZipFailure) {
    match e {
        ZipError::Io(_) => ZipFailure::Io,
        ZipError::InvalidArchive(_) => ZipFailure::Invalid,
        ZipError::FileNotFound => ZipFailure::NotFound,
        ZipError::InvalidPassword => ZipFailure::Password,
        ZipError::CompressionMethodNotSupported(_) => ZipFailure::Compression,
        ZipError::UnsupportedArchive(_) => ZipFailure::Unsupported,
        _ => ZipFailure::Unsupported,
    }
}

} // verus!

verus! {

/// A `zip::ZipWriter` that builds an archive in an in-memory buffer; its contents
/// are known through `written_entries`.
#[verifier::external_body]
pub struct ArchiveWriter {
    inner: ZipWriter<Cursor<Vec<u8>>>,
}

/// The entries that a writer has been given so far, in order: each one's name and
/// the bytes written into it (before compression).
pub uninterp spec fn written_entries(w: ArchiveWriter) -> Seq<(Seq<char>, Seq<u8>)>;

/// Whether the writer has an entry open that data can be written into.
pub uninterp spec fn entry_open(w: ArchiveWriter) -> bool;

/// How the reading side sees entries written as files: header found, not a
/// directory, contents readable.
pub open spec fn as_records(es: Seq<(Seq<char>, Seq<u8>)>) -> Seq<EntryRecord> {
    es.map_values(|e: (Seq<char>, Seq<u8>)| (Some((e.0, false)), Some(e.1)))
}

/// Whether the name ends with `/` or `\\`, the marks of a directory entry.
pub open spec fn ends_as_directory(name: Seq<char>) -> bool {
    name.len() > 0 && (name.last() == '/' || name.last() == '\\')
}

/// Longest entry name (in characters) that the writer always accepts: the local
/// header (30 bytes) and the name's UTF-8 bytes (at most 4 per character) stay
/// under 64 KiB.
pub const MAX_ENTRY_NAME_CHARS: usize = 16000;

/// Largest entry size (before compression, exclusive) that the writer always
/// accepts. Without the large-file option the writer refuses an entry whose
/// compressed or uncompressed size reaches `u32::MAX`; data that does not compress
/// grows under DEFLATE (about 5 bytes per stored block of up to 64 KiB), so the
/// bound leaves 256 MiB of room below `u32::MAX`.
pub const LARGE_ENTRY_BYTES: u64 = 0xF000_0000;

/// Whether every entry given to the writer so far is under `LARGE_ENTRY_BYTES`.
pub open spec fn entries_small(es: Seq<(Seq<char>, Seq<u8>)>) -> bool {
    forall|k: int| 0 <= k < es.len() ==> (#[trigger] es[k]).1.len() < LARGE_ENTRY_BYTES
}

/// Relies on `zip::ZipWriter::new` over an empty in-memory cursor: no entry yet.
#[verifier::external_body]
pub(crate) fn new_writer() -> (r: ArchiveWriter)
    ensures
        written_entries(r) == Seq::<(Seq<char>, Seq<u8>)>::empty(),
        !entry_open(r),
{
    ArchiveWriter { inner: ZipWriter::new(Cursor::new(Vec::new())) }
}

/// Relies on `zip::ZipWriter::start_file`: on success it closes the current entry
/// and starts an empty one named `name`, deflate-compressed. Over an in-memory
/// buffer it fails only on a name already used, on a local header, name and
/// (here no) extra fields that reach 64 KiB together, or where closing the
/// current entry finds it too large for an archive without the large-file option.
#[verifier::external_body]
pub(crate) fn start_entry(w: &mut ArchiveWriter, name: &str) -> (r: Result<(), ZipError>)
    ensures
        r is Ok ==> written_entries(*final(w)) == written_entries(*old(w)).push((name@, Seq::<u8>::empty())),
        r is Ok ==> entry_open(*final(w)),
        (forall|k: int| 0 <= k < written_entries(*old(w)).len() ==> (#[trigger] written_entries(*old(w))[k]).0 != name@)
            && name@.len() <= MAX_ENTRY_NAME_CHARS && entries_small(written_entries(*old(w))) ==> r is Ok,
{
    let options = SimpleFileOptions::default().compression_method(zip::CompressionMethod::Deflated);
    w.inner.start_file(name, options)
}

/// Relies on `Write::write_all` of `zip::ZipWriter`: on success `data` follows
/// what the open (last started) entry already holds. Over an in-memory buffer it
/// fails only where that entry reaches `u32::MAX` bytes.
#[verifier::external_body]
pub(crate) fn write_entry_data(w: &mut ArchiveWriter, data: &[u8]) -> (r: Result<(), ZipError>)
    requires
        written_entries(*old(w)).len() > 0,
        entry_open(*old(w)),
    ensures
        r is Ok ==> written_entries(*final(w)) == written_entries(*old(w)).drop_last().push(
            (written_entries(*old(w)).last().0, written_entries(*old(w)).last().1 + data@),
        ),
        r is Ok ==> entry_open(*final(w)),
        written_entries(*old(w)).last().1.len() + data@.len() < LARGE_ENTRY_BYTES ==> r is Ok,
{
    w.inner.write_all(data).map_err(ZipError::Io)
}

/// Relies on `zip::ZipWriter::finish`: writes the central directory and hands
/// back the in-memory buffer, whose bytes are the archive. Over a buffer it fails
/// only where closing the last entry finds it too large for an archive without the
/// large-file option. `ZipArchive` reads the bytes back as the entries written, in
/// order, none a directory (its `is_dir` looks only at a trailing `/` or `\\`).
#[verifier::external_body]
pub(crate) fn finish_writer(w: ArchiveWriter) -> (r: Result<Vec<u8>, ZipError>)
    requires
        forall|k: int| 0 <= k < written_entries(w).len() ==> !ends_as_directory((#[trigger] written_entries(w)[k]).0),
    ensures
        entries_small(written_entries(w)) ==> r is Ok,
        r is Ok ==> zip_open(r->Ok_0@) == Some(as_records(written_entries(w))),
{
    w.inner.finish().map(|c| c.into_inner())
}

} // verus!
