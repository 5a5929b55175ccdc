//! Unpacking: the metadata is read, then each entry's bytes are cut out of
//! the archive and, where the sizes differ, decompressed.

use vstd::prelude::*;
use crate::codec::{
    entry_models, parse_archive, read_metadata, unexpected_end_message, EntryModel, FileEntry,
    Parsed,
};
use crate::compress::{inflate, inflated, Inflated};
use crate::error::ArcError;

verus! {

/// A file recovered from an archive: the name that the archive gives it,
/// with backslashes between its components, and its bytes.
#[derive(Debug)]
pub struct UnpackedFile {
    pub name: String,
    pub data: Vec<u8>,
}

/// What an `UnpackedFile` stands for.
pub struct UnpackedModel {
    pub name: Seq<char>,
    pub data: Seq<u8>,
}

impl View for UnpackedFile {
    type V = UnpackedModel;

    open spec fn view(&self) -> UnpackedModel {
        UnpackedModel { name: self.name@, data: self.data@ }
    }
}

/// How recovering one entry ends.
pub enum Extracted {
    /// The file's bytes.
    Data(Seq<u8>),
    /// The entry's data does not lie inside the archive.
    OutOfBounds,
    /// The announced size asks for a buffer that cannot be allocated.
    TooLarge,
    /// The decompressor failed, with this message.
    Failed(Seq<char>),
}

/// Whether the data of `e` lies inside `bytes`.
pub open spec fn stored_in_bounds(bytes: Seq<u8>, e: EntryModel) -> bool {
    e.offset + e.compressed_size <= bytes.len()
}

/// The data of `e` as it stands in `bytes`.
pub open spec fn stored(bytes: Seq<u8>, e: EntryModel) -> Seq<u8> {
    bytes.subrange(e.offset as int, e.offset + e.compressed_size)
}

/// The entry's data is cut out at its offset and recovered by its sizes.
pub open spec fn extracted(bytes: Seq<u8>, e: EntryModel) -> Extracted {
    if !stored_in_bounds(bytes, e) {
        Extracted::OutOfBounds
    } else {
        match inflated(stored(bytes, e), e.original_size) {
            Inflated::Data(d) => Extracted::Data(d),
            Inflated::TooLarge => Extracted::TooLarge,
            Inflated::Failed(m) => Extracted::Failed(m),
        }
    }
}

/// Whether `e` is the error that the failed outcome `x` owes.
pub open spec fn extract_error(e: ArcError, x: Extracted) -> bool {
    match x {
        Extracted::Data(_) => false,
        Extracted::OutOfBounds => e matches ArcError::Io(m) && m@ == unexpected_end_message(),
        Extracted::TooLarge => e is InvalidFormat,
        Extracted::Failed(m) => e matches ArcError::LzssDecompressError(s) && s@ == m,
    }
}

/// Recovers the bytes of one entry. This is one independent unit of work.
/// Data that runs past the end of the archive is refused with `Io`, a
/// failure of the decompressor with `LzssDecompressError`.
pub fn extract_entry(archive: &[u8], entry: &FileEntry) -> (r: Result<Vec<u8>, ArcError>)
    ensures
        match r {
            Ok(v) => extracted(archive@, entry@) == Extracted::Data(v@),
            Err(e) => extract_error(e, extracted(archive@, entry@)),
        },
{
    let len: usize = archive.len();
    let start: u64 = entry.offset as u64;
    let end: u64 = start + entry.compressed_size as u64;
    if end > len as u64 {
        return Err(crate::codec::unexpected_end());
    }
    let raw = vstd::slice::slice_subrange(archive, start as usize, end as usize);
    inflate(raw, entry.original_size)
}

/// Whether `files` are the entries `es` recovered from `bytes`, in order.
pub open spec fn unpacked_from(files: Seq<UnpackedFile>, bytes: Seq<u8>, es: Seq<EntryModel>)
    -> bool {
    &&& files.len() == es.len()
    &&& forall|i: int|
        0 <= i < es.len() ==> (#[trigger] files[i]).name@ == es[i].name && extracted(bytes, es[i])
            == Extracted::Data(files[i].data@)
}

/// Whether `e` is the error of the first entry of `es` that cannot be
/// recovered from `bytes`.
pub open spec fn first_extract_error(e: ArcError, bytes: Seq<u8>, es: Seq<EntryModel>) -> bool {
    exists|i: int|
        {
            &&& 0 <= i < es.len()
            &&& extract_error(e, extracted(bytes, #[trigger] es[i]))
            &&& forall|j: int| 0 <= j < i ==> extracted(bytes, #[trigger] es[j]) is Data
        }
}

/// Whether `r` is what unpacking `bytes` owes: the error of the metadata
/// where that cannot be read; else every file, or the error of the first
/// entry that cannot be recovered.
pub open spec fn unpack_result(r: Result<Vec<UnpackedFile>, ArcError>, bytes: Seq<u8>) -> bool {
    match parse_archive(bytes) {
        Parsed::Truncated => r matches Err(ArcError::Io(m)) && m@ == unexpected_end_message(),
        Parsed::BadName(b) => r matches Err(ArcError::NameDecodeError(v)) && v@ == b,
        Parsed::Entries(es) => match r {
            Ok(files) => unpacked_from(files@, bytes, es),
            Err(e) => first_extract_error(e, bytes, es),
        },
    }
}

/// Unpacks an archive into its files, in the order of its metadata.
pub fn handle_unpack(archive: &[u8]) -> (r: Result<Vec<UnpackedFile>, ArcError>)
    ensures
        unpack_result(r, archive@),
        archive@.len() >= 4 && archive@.len() < crate::codec::header_value(archive@) ==> r is Err,
{
    let entries = match read_metadata(archive) {
        Ok(entries) => entries,
        Err(e) => {
            return Err(e);
        },
    };
    let ghost es = entry_models(entries@);
    let n: usize = entries.len();
    let mut files: Vec<UnpackedFile> = Vec::with_capacity(n);
    let mut i: usize = 0;
    while i < n
        invariant
            n == entries@.len(),
            es == entry_models(entries@),
            parse_archive(archive@) == Parsed::Entries(es),
            i <= n,
            files@.len() == i,
            forall|j: int| 0 <= j < i ==> extracted(archive@, #[trigger] es[j]) is Data,
            forall|j: int|
                0 <= j < i ==> (#[trigger] files@[j]).name@ == es[j].name && extracted(
                    archive@,
                    es[j],
                ) == Extracted::Data(files@[j].data@),
        decreases n - i,
    {
        let entry = &entries[i];
        assert(es[i as int] == entry@);
        match extract_entry(archive, entry) {
            Ok(data) => {
                files.push(UnpackedFile { name: entry.name.clone(), data });
            },
            Err(e) => {
                assert(extract_error(e, extracted(archive@, es[i as int])));
                return Err(e);
            },
        }
        i = i + 1;
    }
    Ok(files)
}

} // verus!
