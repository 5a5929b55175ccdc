//! The byte layout of the archive: a four-byte little-endian header that
//! holds the offset at which the metadata ends, then one record per entry
//! with big-endian sizes.

use vstd::prelude::*;
use byteorder::ByteOrder;
use crate::cipher::{decrypt_name, shift_up, sjis_decoded};
use crate::error::ArcError;

verus! {

/// The length of the header.
pub const HEADER_LEN: usize = 4;

/// The length of an entry's record without its name: one length byte and
/// three 32-bit fields.
pub const ENTRY_FIXED_LEN: usize = 13;

/// The four bytes of `n`, most significant first.
pub open spec fn be_bytes(n: u32) -> Seq<u8> {
    seq![
        (n / 0x100_0000) as u8,
        ((n / 0x1_0000) % 256) as u8,
        ((n / 0x100) % 256) as u8,
        (n % 256) as u8,
    ]
}

/// The four bytes of `n`, least significant first.
pub open spec fn le_bytes(n: u32) -> Seq<u8> {
    seq![
        (n % 256) as u8,
        ((n / 0x100) % 256) as u8,
        ((n / 0x1_0000) % 256) as u8,
        (n / 0x100_0000) as u8,
    ]
}

/// The number that four bytes spell, most significant first.
pub open spec fn be_value(b: Seq<u8>) -> u32
    recommends
        b.len() == 4,
{
    (b[0] * 0x100_0000 + b[1] * 0x1_0000 + b[2] * 0x100 + b[3]) as u32
}

/// The number that four bytes spell, least significant first.
pub open spec fn le_value(b: Seq<u8>) -> u32
    recommends
        b.len() == 4,
{
    (b[3] * 0x100_0000 + b[2] * 0x1_0000 + b[1] * 0x100 + b[0]) as u32
}

/// Reading back what was written gives the number, in either byte order.
pub proof fn lemma_u32_bytes_round_trip(n: u32)
    ensures
        be_bytes(n).len() == 4,
        le_bytes(n).len() == 4,
        be_value(be_bytes(n)) == n,
        le_value(le_bytes(n)) == n,
{
}

/// Calls `byteorder::BigEndian::write_u32` on a four-byte buffer, which
/// stores the number's bytes most significant first.
#[verifier::external_body]
fn write_u32_be(n: u32) -> (out: Vec<u8>)
    ensures
        out@ == be_bytes(n),
{
    let mut buf = [0u8; 4];
    byteorder::BigEndian::write_u32(&mut buf, n);
    buf.to_vec()
}

/// Calls `byteorder::LittleEndian::write_u32` on a four-byte buffer, which
/// stores the number's bytes least significant first.
#[verifier::external_body]
fn write_u32_le(n: u32) -> (out: Vec<u8>)
    ensures
        out@ == le_bytes(n),
{
    let mut buf = [0u8; 4];
    byteorder::LittleEndian::write_u32(&mut buf, n);
    buf.to_vec()
}

/// Calls `byteorder::BigEndian::read_u32`, which reads the first four bytes
/// of the buffer, most significant first, and panics on a shorter one.
#[verifier::external_body]
fn read_u32_be(buf: &[u8]) -> (n: u32)
    requires
        buf@.len() >= 4,
    ensures
        n == be_value(buf@.subrange(0, 4)),
{
    byteorder::BigEndian::read_u32(buf)
}

/// Calls `byteorder::LittleEndian::read_u32`, which reads the first four
/// bytes of the buffer, least significant first, and panics on a shorter one.
#[verifier::external_body]
fn read_u32_le(buf: &[u8]) -> (n: u32)
    requires
        buf@.len() >= 4,
    ensures
        n == le_value(buf@.subrange(0, 4)),
{
    byteorder::LittleEndian::read_u32(buf)
}

/// Appends a copy of `src` to `out`.
pub fn append_bytes(out: &mut Vec<u8>, src: &[u8])
    ensures
        final(out)@ == old(out)@ + src@,
{
    let n: usize = src.len();
    let mut i: usize = 0;
    while i < n
        invariant
            n == src@.len(),
            i <= n,
            out@ == old(out)@ + src@.subrange(0, i as int),
        decreases n - i,
    {
        out.push(src[i]);
        i = i + 1;
        assert(out@ =~= old(out)@ + src@.subrange(0, i as int));
    }
    assert(src@.subrange(0, n as int) =~= src@);
}

/// One record of the metadata block, with its name deciphered.
#[derive(Debug)]
pub struct FileEntry {
    /// The name as it stands in the archive.
    pub encrypted_name: Vec<u8>,
    /// The name in clear.
    pub name: String,
    /// The length of the entry's data in the archive.
    pub compressed_size: u32,
    /// The length of the file once unpacked.
    pub original_size: u32,
    /// Where the entry's data begins, counted from the start of the archive.
    pub offset: u32,
}

/// What a `FileEntry` stands for.
pub struct EntryModel {
    pub encrypted_name: Seq<u8>,
    pub name: Seq<char>,
    pub compressed_size: u32,
    pub original_size: u32,
    pub offset: u32,
}

impl View for FileEntry {
    type V = EntryModel;

    open spec fn view(&self) -> EntryModel {
        EntryModel {
            encrypted_name: self.encrypted_name@,
            name: self.name@,
            compressed_size: self.compressed_size,
            original_size: self.original_size,
            offset: self.offset,
        }
    }
}

/// The models of a list of entries, in order.
pub open spec fn entry_models(entries: Seq<FileEntry>) -> Seq<EntryModel> {
    entries.map_values(|e: FileEntry| e@)
}

/// The record of an entry as it stands in the metadata block.
pub open spec fn record_bytes(
    encrypted_name: Seq<u8>,
    compressed_size: u32,
    original_size: u32,
    offset: u32,
) -> Seq<u8> {
    seq![encrypted_name.len() as u8] + encrypted_name + be_bytes(compressed_size) + be_bytes(
        original_size,
    ) + be_bytes(offset)
}

/// Appends the record of one entry to `out`.
pub fn write_record(
    out: &mut Vec<u8>,
    encrypted_name: &[u8],
    compressed_size: u32,
    original_size: u32,
    offset: u32,
)
    requires
        encrypted_name@.len() <= 255,
    ensures
        final(out)@ == old(out)@ + record_bytes(
            encrypted_name@,
            compressed_size,
            original_size,
            offset,
        ),
{
    out.push(encrypted_name.len() as u8);
    append_bytes(out, encrypted_name);
    let c = write_u32_be(compressed_size);
    append_bytes(out, c.as_slice());
    let o = write_u32_be(original_size);
    append_bytes(out, o.as_slice());
    let d = write_u32_be(offset);
    append_bytes(out, d.as_slice());
    assert(out@ =~= old(out)@ + record_bytes(
        encrypted_name@,
        compressed_size,
        original_size,
        offset,
    ));
}

/// Appends the header to `out`.
pub fn write_header(out: &mut Vec<u8>, metadata_end: u32)
    ensures
        final(out)@ == old(out)@ + le_bytes(metadata_end),
{
    let h = write_u32_le(metadata_end);
    append_bytes(out, h.as_slice());
}

/// How reading the metadata of an archive ends.
pub enum Parsed {
    /// Every record up to the end of the metadata was read.
    Entries(Seq<EntryModel>),
    /// The archive ends inside the header or inside a record.
    Truncated,
    /// The name of a record, given here as it stands in the archive, cannot
    /// be deciphered to text.
    BadName(Seq<u8>),
}

/// Whether a whole record lies in `bytes` from `pos` on.
pub open spec fn record_in_bounds(bytes: Seq<u8>, pos: int) -> bool {
    0 <= pos < bytes.len() && pos + 13 + bytes[pos] <= bytes.len()
}

/// The stored name of the record at `pos`.
pub open spec fn record_name(bytes: Seq<u8>, pos: int) -> Seq<u8> {
    bytes.subrange(pos + 1, pos + 1 + bytes[pos])
}

/// The record at `pos`, its name deciphered to `name`.
pub open spec fn record_at(bytes: Seq<u8>, pos: int, name: Seq<char>) -> EntryModel {
    let fields = pos + 1 + bytes[pos];
    EntryModel {
        encrypted_name: record_name(bytes, pos),
        name,
        compressed_size: be_value(bytes.subrange(fields, fields + 4)),
        original_size: be_value(bytes.subrange(fields + 4, fields + 8)),
        offset: be_value(bytes.subrange(fields + 8, fields + 12)),
    }
}

/// `outcome` with `first` put before its entries, where it has any.
pub open spec fn with_first(first: EntryModel, outcome: Parsed) -> Parsed {
    match outcome {
        Parsed::Entries(rest) => Parsed::Entries(seq![first] + rest),
        other => other,
    }
}

/// Reads records one after another from `pos` until the position reaches
/// `end`. A record that begins before `end` is read whole, wherever it ends.
pub open spec fn parse_entries(bytes: Seq<u8>, pos: int, end: int) -> Parsed
    decreases bytes.len() - pos,
{
    if pos >= end {
        Parsed::Entries(Seq::empty())
    } else if !record_in_bounds(bytes, pos) {
        Parsed::Truncated
    } else {
        let name = sjis_decoded(shift_up(record_name(bytes, pos)));
        if name.is_none() {
            Parsed::BadName(record_name(bytes, pos))
        } else {
            with_first(
                record_at(bytes, pos, name.unwrap()),
                parse_entries(bytes, pos + 13 + bytes[pos], end),
            )
        }
    }
}

/// The offset at which the header says the metadata ends.
pub open spec fn header_value(bytes: Seq<u8>) -> u32
    recommends
        bytes.len() >= 4,
{
    le_value(bytes.subrange(0, 4))
}

/// Reads the header and then the records that it announces.
pub open spec fn parse_archive(bytes: Seq<u8>) -> Parsed {
    if bytes.len() < 4 {
        Parsed::Truncated
    } else {
        parse_entries(bytes, 4, header_value(bytes) as int)
    }
}

/// `outcome` with `done` put before its entries, where it has any.
pub open spec fn with_prefix(done: Seq<EntryModel>, outcome: Parsed) -> Parsed {
    match outcome {
        Parsed::Entries(rest) => Parsed::Entries(done + rest),
        other => other,
    }
}

/// What the error of a read past the end of the archive says.
pub open spec fn unexpected_end_message() -> Seq<char> {
    "failed to fill whole buffer"@
}

/// Whether `r` reports the outcome `parsed`.
pub open spec fn reports(r: Result<Vec<FileEntry>, ArcError>, parsed: Parsed) -> bool {
    match parsed {
        Parsed::Entries(es) => r matches Ok(v) && entry_models(v@) == es,
        Parsed::Truncated => r matches Err(ArcError::Io(m)) && m@ == unexpected_end_message(),
        Parsed::BadName(b) => r matches Err(ArcError::NameDecodeError(v)) && v@ == b,
    }
}

/// The error that a read past the end of the archive gives: `Io`, with the
/// message above.
pub(crate) fn unexpected_end() -> (e: ArcError)
    ensures
        e matches ArcError::Io(m) && m@ == unexpected_end_message(),
{
    ArcError::Io("failed to fill whole buffer".to_owned())
}

/// Reads the header of an archive and every record of its metadata block.
/// An archive that ends before a record does is refused with `Io`, a name
/// that cannot be deciphered with `NameDecodeError`.
pub fn read_metadata(archive: &[u8]) -> (r: Result<Vec<FileEntry>, ArcError>)
    ensures
        reports(r, parse_archive(archive@)),
        archive@.len() >= 4 && archive@.len() < header_value(archive@) ==> r is Err,
{
    let len: usize = archive.len();
    if len < 4 {
        return Err(unexpected_end());
    }
    let end: u32 = read_u32_le(archive);
    let mut entries: Vec<FileEntry> = Vec::new();
    let mut pos: usize = 4;
    proof {
        lemma_short_archive(archive@, 4, end as int);
    }
    while pos < len && (pos as u64) < (end as u64)
        invariant
            len == archive@.len(),
            4 <= pos <= len,
            end == header_value(archive@),
            parse_archive(archive@) == with_prefix(
                entry_models(entries@),
                parse_entries(archive@, pos as int, end as int),
            ),
        decreases len - pos,
    {
        let name_len: usize = archive[pos] as usize;
        if len - pos < 13 + name_len {
            return Err(unexpected_end());
        }
        let fields: usize = pos + 1 + name_len;
        let encrypted = vstd::slice::slice_subrange(archive, pos + 1, fields);
        let compressed_size = read_u32_be(vstd::slice::slice_subrange(archive, fields, len));
        let original_size = read_u32_be(vstd::slice::slice_subrange(archive, fields + 4, len));
        let offset = read_u32_be(vstd::slice::slice_subrange(archive, fields + 8, len));
        proof {
            let b = archive@;
            assert(b.subrange(fields as int, len as int).subrange(0, 4) =~= b.subrange(
                fields as int,
                fields + 4,
            ));
            assert(b.subrange(fields + 4, len as int).subrange(0, 4) =~= b.subrange(
                fields + 4,
                fields + 8,
            ));
            assert(b.subrange(fields + 8, len as int).subrange(0, 4) =~= b.subrange(
                fields + 8,
                fields + 12,
            ));
        }
        let name = match decrypt_name(encrypted) {
            Ok(name) => name,
            Err(e) => {
                return Err(e);
            },
        };
        let entry = FileEntry {
            encrypted_name: vstd::slice::slice_to_vec(encrypted),
            name,
            compressed_size,
            original_size,
            offset,
        };
        proof {
            let rest = parse_entries(archive@, pos + 13 + name_len, end as int);
            assert(entry@ == record_at(archive@, pos as int, entry.name@));
            assert(entry_models(entries@.push(entry)) =~= entry_models(entries@).push(entry@));
            match rest {
                Parsed::Entries(more) => {
                    assert(entry_models(entries@) + (seq![entry@] + more) =~= entry_models(
                        entries@,
                    ).push(entry@) + more);
                },
                _ => {},
            }
        }
        entries.push(entry);
        pos = pos + 13 + name_len;
    }
    proof {
        if pos as int >= end as int {
            assert(entry_models(entries@) + Seq::<EntryModel>::empty() =~= entry_models(
                entries@,
            ));
        }
    }
    if (pos as u64) < (end as u64) {
        return Err(unexpected_end());
    }
    Ok(entries)
}

/// An archive that is shorter than its header announces is never read to
/// the end: from any position inside it the records run into its end or
/// into a bad name.
pub proof fn lemma_short_archive(bytes: Seq<u8>, pos: int, end: int)
    requires
        0 <= pos <= bytes.len(),
    ensures
        bytes.len() < end ==> !(parse_entries(bytes, pos, end) is Entries),
    decreases bytes.len() - pos,
{
    if bytes.len() < end && record_in_bounds(bytes, pos) {
        lemma_short_archive(bytes, pos + 13 + bytes[pos], end);
    }
}

/// An archive that ends before the offset that its header announces, or
/// inside the header, never reads as a list of entries: reading it is
/// refused.
pub proof fn lemma_truncated_archive(bytes: Seq<u8>)
    requires
        bytes.len() < 4 || bytes.len() < header_value(bytes),
    ensures
        !(parse_archive(bytes) is Entries),
{
    if bytes.len() >= 4 {
        lemma_short_archive(bytes, 4, header_value(bytes) as int);
    }
}

} // verus!
