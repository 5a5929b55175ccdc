//! Packing: names are enciphered, files compressed, offsets laid out once
//! every stored size is known, and the archive written as one byte string.

use vstd::prelude::*;
use crate::cipher::{encodable, encrypt_name, shift_down, sjis_encoded};
use crate::codec::{append_bytes, le_bytes, record_bytes, write_header, write_record};
use crate::compress::{compress_payload, compression_attempted, compress_capacity, lzss_compressed, payload};
use crate::error::ArcError;

verus! {

/// A file found under the input directory: its path relative to that
/// directory, and its bytes.
#[derive(Debug)]
pub struct SourceFile {
    pub path: String,
    pub data: Vec<u8>,
}

/// What a `SourceFile` stands for.
pub struct SourceModel {
    pub path: Seq<char>,
    pub data: Seq<u8>,
}

impl View for SourceFile {
    type V = SourceModel;

    open spec fn view(&self) -> SourceModel {
        SourceModel { path: self.path@, data: self.data@ }
    }
}

/// A file ready to be laid out: its enciphered name, its size before
/// compression, and the bytes that will be stored for it.
#[derive(Debug)]
pub struct PackFileInfo {
    pub encrypted_name: Vec<u8>,
    pub original_size: u32,
    pub compressed_data: Vec<u8>,
}

/// What a `PackFileInfo` stands for.
pub struct PackModel {
    pub encrypted_name: Seq<u8>,
    pub original_size: u32,
    pub compressed_data: Seq<u8>,
}

impl View for PackFileInfo {
    type V = PackModel;

    open spec fn view(&self) -> PackModel {
        PackModel {
            encrypted_name: self.encrypted_name@,
            original_size: self.original_size,
            compressed_data: self.compressed_data@,
        }
    }
}

/// The models of a list of prepared files, in order.
pub open spec fn pack_models(files: Seq<PackFileInfo>) -> Seq<PackModel> {
    files.map_values(|f: PackFileInfo| f@)
}

/// The models of a list of source files, in order.
pub open spec fn source_models(files: Seq<SourceFile>) -> Seq<SourceModel> {
    files.map_values(|f: SourceFile| f@)
}

/// `text` with every `from` turned into `to`.
pub open spec fn replaced(text: Seq<char>, from: char, to: char) -> Seq<char> {
    text.map_values(
        |c: char|
            if c == from {
                to
            } else {
                c
            },
    )
}

/// A relative path as the archive names it: with backslashes between its
/// components.
pub open spec fn archive_name(path: Seq<char>) -> Seq<char> {
    replaced(path, '/', '\\')
}

/// Calls `str::replace` with a one-character pattern and a one-character
/// replacement, which exchanges every occurrence of the character and leaves
/// the rest of the text as it is.
#[verifier::external_body]
fn replace_char(text: &str, from: char, to: &str) -> (out: String)
    requires
        to@.len() == 1,
    ensures
        out@ == replaced(text@, from, to@[0]),
{
    text.replace(from, to)
}

/// Turns a relative path of the host into the name that the archive holds.
pub fn normalize_separators(path: &str) -> (out: String)
    ensures
        out@ == archive_name(path@),
{
    proof {
        reveal_strlit("\\");
    }
    replace_char(path, '/', "\\")
}

/// Turns the name that an archive holds into a relative path with forward
/// slashes, which every host accepts.
pub fn host_relative_path(name: &str) -> (out: String)
    ensures
        out@ == replaced(name@, '\\', '/'),
{
    proof {
        reveal_strlit("/");
    }
    replace_char(name, '\\', "/")
}

/// Whether the archive name of a source file can be encoded.
pub open spec fn name_encodable(f: SourceModel) -> bool {
    encodable(archive_name(f.path))
}

/// The enciphered archive name of a source file.
pub open spec fn encrypted_name_of(f: SourceModel) -> Seq<u8> {
    shift_down(sjis_encoded(archive_name(f.path)).unwrap())
}

/// Whether a source file can be prepared: its name can be encoded and its
/// length fits the size field.
pub open spec fn packable(f: SourceModel) -> bool {
    name_encodable(f) && f.data.len() <= u32::MAX
}

/// The prepared form of a source file.
pub open spec fn packed(f: SourceModel, compress: bool) -> PackModel {
    PackModel {
        encrypted_name: encrypted_name_of(f),
        original_size: f.data.len() as u32,
        compressed_data: payload(f.data, compress),
    }
}

/// Whether `e` is the error that preparing `f` gives: the name first, then
/// the size.
pub open spec fn pack_error(e: ArcError, f: SourceModel) -> bool {
    if !name_encodable(f) {
        e matches ArcError::NameEncodeError(s) && s@ == archive_name(f.path)
    } else {
        e is InvalidFormat
    }
}

/// A prepared file is never stored longer than it is, and its two sizes are
/// equal exactly where its own bytes are stored: so wherever the compressor
/// was not run, failed, or did not make the file strictly shorter. Where it
/// was run and did, what it returned is stored.
pub proof fn lemma_compression_sentinel(f: SourceModel, compress: bool)
    requires
        packable(f),
    ensures
        packed(f, compress).compressed_data.len() <= packed(f, compress).original_size,
        packed(f, compress).compressed_data.len() == packed(f, compress).original_size
            <==> packed(f, compress).compressed_data == f.data,
        !compression_attempted(f.data, compress) ==> packed(f, compress).compressed_data
            == f.data,
        lzss_compressed(f.data, compress_capacity(f.data.len())).is_none() ==> packed(
            f,
            compress,
        ).compressed_data == f.data,
        lzss_compressed(f.data, compress_capacity(f.data.len())) matches Some(c) && c.len()
            >= f.data.len() ==> packed(f, compress).compressed_data == f.data,
        compression_attempted(f.data, compress) && lzss_compressed(
            f.data,
            compress_capacity(f.data.len()),
        ).is_some() && lzss_compressed(f.data, compress_capacity(f.data.len())).unwrap().len()
            < f.data.len() ==> packed(f, compress).compressed_data == lzss_compressed(
            f.data,
            compress_capacity(f.data.len()),
        ).unwrap(),
{
}

/// Normalizes and enciphers the name of one file. Fails with
/// `NameEncodeError`, carrying the archive name, exactly when that name cannot
/// be encoded.
pub fn pack_name(path: &str) -> (r: Result<Vec<u8>, ArcError>)
    ensures
        match r {
            Ok(v) => encodable(archive_name(path@)) && v@ == shift_down(
                sjis_encoded(archive_name(path@)).unwrap(),
            ),
            Err(e) => !encodable(archive_name(path@)) && (e matches ArcError::NameEncodeError(s)
                && s@ == archive_name(path@)),
        },
{
    let name = normalize_separators(path);
    encrypt_name(name.as_str())
}

/// Decides what to store for one file whose name is already enciphered.
/// Fails with `InvalidFormat` exactly when the file is too long for the size
/// field.
pub fn pack_data(encrypted_name: Vec<u8>, data: &[u8], compress: bool) -> (r: Result<
    PackFileInfo,
    ArcError,
>)
    ensures
        match r {
            Ok(p) => {
                &&& data@.len() <= u32::MAX
                &&& p.encrypted_name@ == encrypted_name@
                &&& p.original_size == data@.len()
                &&& p.compressed_data@ == payload(data@, compress)
            },
            Err(e) => data@.len() > u32::MAX && e is InvalidFormat,
        },
{
    if data.len() as u64 > u32::MAX as u64 {
        return Err(ArcError::InvalidFormat("the file is too large for the archive".to_owned()));
    }
    let compressed_data = compress_payload(data, compress);
    Ok(PackFileInfo { encrypted_name, original_size: data.len() as u32, compressed_data })
}

/// Prepares one file: normalizes and enciphers its name and decides what to
/// store. This is one independent unit of work.
pub fn pack_file(path: &str, data: &[u8], compress: bool) -> (r: Result<PackFileInfo, ArcError>)
    ensures
        match r {
            Ok(p) => packable(SourceModel { path: path@, data: data@ }) && p@ == packed(
                SourceModel { path: path@, data: data@ },
                compress,
            ),
            Err(e) => !packable(SourceModel { path: path@, data: data@ }) && pack_error(
                e,
                SourceModel { path: path@, data: data@ },
            ),
        },
        r matches Ok(p) ==> p.compressed_data@.len() <= p.original_size && (
        p.compressed_data@.len() == p.original_size ==> p.compressed_data@ == data@),
{
    let encrypted_name = match pack_name(path) {
        Ok(v) => v,
        Err(e) => {
            return Err(e);
        },
    };
    pack_data(encrypted_name, data, compress)
}

/// The length of the records of the first `n` files.
pub open spec fn metadata_len(files: Seq<PackModel>, n: int) -> int
    decreases n,
{
    if n <= 0 {
        0
    } else {
        metadata_len(files, n - 1) + 13 + files[n - 1].encrypted_name.len()
    }
}

/// The length of the stored bytes of the first `n` files.
pub open spec fn data_len(files: Seq<PackModel>, n: int) -> int
    decreases n,
{
    if n <= 0 {
        0
    } else {
        data_len(files, n - 1) + files[n - 1].compressed_data.len()
    }
}

/// Where the metadata ends and the data begins.
pub open spec fn metadata_end(files: Seq<PackModel>) -> int {
    4 + metadata_len(files, files.len() as int)
}

/// Where the data of file `i` begins: after the metadata and the stored
/// bytes of every file before it.
pub open spec fn data_offset(files: Seq<PackModel>, i: int) -> int {
    metadata_end(files) + data_len(files, i)
}

/// The length of the whole archive.
pub open spec fn archive_len(files: Seq<PackModel>) -> int {
    data_offset(files, files.len() as int)
}

/// Whether the files fit the format: every name in one length byte, and
/// every stored size and every offset in 32 bits. The last file may end
/// wherever its size takes it.
pub open spec fn fits(files: Seq<PackModel>) -> bool {
    &&& forall|i: int| 0 <= i < files.len() ==> (#[trigger] files[i]).encrypted_name.len() <= 255
    &&& forall|i: int|
        0 <= i < files.len() ==> (#[trigger] files[i]).compressed_data.len() <= u32::MAX
    &&& forall|i: int| 0 <= i < files.len() ==> #[trigger] data_offset(files, i) <= u32::MAX
}

/// Files that fit have the end of their metadata in 32 bits.
pub proof fn lemma_fits_metadata_end(files: Seq<PackModel>)
    requires
        fits(files),
    ensures
        4 <= metadata_end(files) <= u32::MAX,
{
    lemma_lengths_grow(files, 0, files.len() as int);
    if files.len() > 0 {
        assert(data_offset(files, 0) <= u32::MAX);
    }
}

/// The lengths of the records and of the stored bytes grow with the number
/// of files counted.
pub proof fn lemma_lengths_grow(files: Seq<PackModel>, i: int, j: int)
    requires
        0 <= i <= j,
    ensures
        0 <= metadata_len(files, i) <= metadata_len(files, j),
        0 <= data_len(files, i) <= data_len(files, j),
    decreases j,
{
    if i < j {
        lemma_lengths_grow(files, i, j - 1);
    } else if 0 < j {
        lemma_lengths_grow(files, i - 1, j - 1);
    }
}

/// The offsets of an archive: the end of its metadata and the start of each
/// file's data.
#[derive(Debug)]
pub struct Layout {
    pub metadata_end: u32,
    pub offsets: Vec<u32>,
}

/// Assigns the offsets: the metadata ends after the header and one record
/// per file; the data of each file begins where that of the one before it
/// ends, the first at the end of the metadata. `None` exactly where the
/// files do not fit the format.
pub fn layout(files: &Vec<PackFileInfo>) -> (r: Option<Layout>)
    ensures
        match r {
            Some(l) => {
                &&& fits(pack_models(files@))
                &&& l.metadata_end == metadata_end(pack_models(files@))
                &&& l.metadata_end >= 4
                &&& l.offsets@.len() == files@.len()
                &&& forall|i: int|
                    0 <= i < files@.len() ==> l.offsets@[i] == data_offset(pack_models(files@), i)
                &&& forall|i: int| 0 <= i < files@.len() ==> l.offsets@[i] >= l.metadata_end
            },
            None => !fits(pack_models(files@)),
        },
{
    let ghost ms = pack_models(files@);
    let n: usize = files.len();
    let mut end: u64 = 4;
    let mut i: usize = 0;
    while i < n
        invariant
            n == files@.len(),
            ms == pack_models(files@),
            i <= n,
            end == 4 + metadata_len(ms, i as int),
            end <= u32::MAX,
            forall|j: int| 0 <= j < i ==> (#[trigger] ms[j]).encrypted_name.len() <= 255,
        decreases n - i,
    {
        let name_len: usize = files[i].encrypted_name.len();
        proof {
            lemma_lengths_grow(ms, i + 1, n as int);
            lemma_lengths_grow(ms, n as int, n as int);
        }
        if name_len > 255 {
            return None;
        }
        end = end + 13 + name_len as u64;
        if end > u32::MAX as u64 {
            assert(data_offset(ms, 0) > u32::MAX);
            return None;
        }
        i = i + 1;
    }
    proof {
        lemma_lengths_grow(ms, 0, n as int);
    }
    let mut offsets: Vec<u32> = Vec::with_capacity(n);
    let mut next: u64 = end;
    let mut k: usize = 0;
    while k < n
        invariant
            n == files@.len(),
            ms == pack_models(files@),
            k <= n,
            end == metadata_end(ms),
            next == data_offset(ms, k as int),
            4 <= end <= u32::MAX,
            end <= next <= 2 * u32::MAX,
            forall|j: int| 0 <= j < n ==> (#[trigger] ms[j]).encrypted_name.len() <= 255,
            forall|j: int| 0 <= j < k ==> (#[trigger] ms[j]).compressed_data.len() <= u32::MAX,
            forall|j: int| 0 <= j < k ==> #[trigger] data_offset(ms, j) <= u32::MAX,
            offsets@.len() == k,
            forall|j: int| 0 <= j < k ==> offsets@[j] == data_offset(ms, j),
            forall|j: int| 0 <= j < k ==> offsets@[j] >= end,
        decreases n - k,
    {
        let stored: usize = files[k].compressed_data.len();
        proof {
            lemma_lengths_grow(ms, k + 1, n as int);
        }
        assert(ms[k as int] == files@[k as int]@);
        if next > u32::MAX as u64 || stored as u64 > u32::MAX as u64 {
            return None;
        }
        offsets.push(next as u32);
        next = next + stored as u64;
        k = k + 1;
    }
    Some(Layout { metadata_end: end as u32, offsets })
}

/// The records of the first `n` files, one after another.
pub open spec fn metadata_block(files: Seq<PackModel>, n: int) -> Seq<u8>
    decreases n,
{
    if n <= 0 {
        Seq::empty()
    } else {
        metadata_block(files, n - 1) + record_bytes(
            files[n - 1].encrypted_name,
            files[n - 1].compressed_data.len() as u32,
            files[n - 1].original_size,
            data_offset(files, n - 1) as u32,
        )
    }
}

/// The stored bytes of the first `n` files, one after another.
pub open spec fn data_block(files: Seq<PackModel>, n: int) -> Seq<u8>
    decreases n,
{
    if n <= 0 {
        Seq::empty()
    } else {
        data_block(files, n - 1) + files[n - 1].compressed_data
    }
}

/// The archive: header, records, then data, with nothing in between.
pub open spec fn archive_bytes(files: Seq<PackModel>) -> Seq<u8> {
    le_bytes(metadata_end(files) as u32) + metadata_block(files, files.len() as int) + data_block(
        files,
        files.len() as int,
    )
}

/// Writes the archive for files that are already prepared. Fails with
/// `InvalidFormat` exactly where they do not fit the format.
pub fn build_archive(files: &Vec<PackFileInfo>) -> (r: Result<Vec<u8>, ArcError>)
    ensures
        match r {
            Ok(bytes) => fits(pack_models(files@)) && bytes@ == archive_bytes(
                pack_models(files@),
            ),
            Err(e) => !fits(pack_models(files@)) && e is InvalidFormat,
        },
{
    let l = match layout(files) {
        Some(l) => l,
        None => {
            return Err(
                ArcError::InvalidFormat("the files do not fit a 32-bit archive".to_owned()),
            );
        },
    };
    let ghost ms = pack_models(files@);
    let n: usize = files.len();
    let mut out: Vec<u8> = Vec::new();
    write_header(&mut out, l.metadata_end);
    assert(out@ =~= le_bytes(metadata_end(ms) as u32));
    let mut i: usize = 0;
    while i < n
        invariant
            n == files@.len(),
            ms == pack_models(files@),
            fits(ms),
            i <= n,
            l.offsets@.len() == n,
            forall|j: int| 0 <= j < n ==> l.offsets@[j] == data_offset(ms, j),
            out@ == le_bytes(metadata_end(ms) as u32) + metadata_block(ms, i as int),
        decreases n - i,
    {
        let f = &files[i];
        proof {
            assert(ms[i as int] == f@);
            lemma_lengths_grow(ms, i + 1, n as int);
            lemma_lengths_grow(ms, 0, i as int);
            lemma_lengths_grow(ms, 0, n as int);
        }
        write_record(
            &mut out,
            f.encrypted_name.as_slice(),
            f.compressed_data.len() as u32,
            f.original_size,
            l.offsets[i],
        );
        i = i + 1;
        assert(out@ =~= le_bytes(metadata_end(ms) as u32) + metadata_block(ms, i as int));
    }
    let mut k: usize = 0;
    assert(out@ =~= le_bytes(metadata_end(ms) as u32) + metadata_block(ms, n as int) + data_block(
        ms,
        0,
    ));
    while k < n
        invariant
            n == files@.len(),
            ms == pack_models(files@),
            k <= n,
            out@ == le_bytes(metadata_end(ms) as u32) + metadata_block(ms, n as int) + data_block(
                ms,
                k as int,
            ),
        decreases n - k,
    {
        assert(ms[k as int] == files@[k as int]@);
        append_bytes(&mut out, files[k].compressed_data.as_slice());
        k = k + 1;
        assert(out@ =~= le_bytes(metadata_end(ms) as u32) + metadata_block(ms, n as int)
            + data_block(ms, k as int));
    }
    Ok(out)
}

/// The prepared forms of a list of source files, in order.
pub open spec fn packed_all(files: Seq<SourceModel>, compress: bool) -> Seq<PackModel> {
    files.map_values(|f: SourceModel| packed(f, compress))
}

/// Whether `r` is what packing `files` owes. Every name is encoded before
/// any file is prepared: so the error is that of the first name that cannot
/// be encoded; else `InvalidFormat` where a file is too long for the size
/// field or the prepared files do not fit; else the archive of the prepared
/// files.
pub open spec fn pack_result(r: Result<Vec<u8>, ArcError>, files: Seq<SourceModel>, compress: bool)
    -> bool {
    match r {
        Ok(bytes) => {
            &&& forall|i: int| 0 <= i < files.len() ==> packable(#[trigger] files[i])
            &&& fits(packed_all(files, compress))
            &&& bytes@ == archive_bytes(packed_all(files, compress))
        },
        Err(e) => {
            ||| exists|i: int|
                {
                    &&& 0 <= i < files.len()
                    &&& !name_encodable(#[trigger] files[i])
                    &&& (e matches ArcError::NameEncodeError(s) && s@ == archive_name(
                        files[i].path,
                    ))
                    &&& forall|j: int| 0 <= j < i ==> name_encodable(#[trigger] files[j])
                }
            ||| {
                &&& forall|i: int| 0 <= i < files.len() ==> name_encodable(#[trigger] files[i])
                &&& exists|i: int| 0 <= i < files.len() && !packable(#[trigger] files[i])
                &&& e is InvalidFormat
            }
            ||| {
                &&& forall|i: int| 0 <= i < files.len() ==> packable(#[trigger] files[i])
                &&& !fits(packed_all(files, compress))
                &&& e is InvalidFormat
            }
        },
    }
}

/// Packs the files, in the order given, into the bytes of an archive: first
/// every name is enciphered, then every file prepared, then the offsets laid
/// out and the archive written. No files give the archive of four bytes that
/// holds the header alone.
pub fn handle_pack(files: &Vec<SourceFile>, compress: bool) -> (r: Result<Vec<u8>, ArcError>)
    ensures
        pack_result(r, source_models(files@), compress),
        files@.len() == 0 ==> (r matches Ok(bytes) && bytes@ == seq![4u8, 0u8, 0u8, 0u8]),
        (exists|i: int|
            0 <= i < files@.len() && !name_encodable(#[trigger] source_models(files@)[i])) ==> r
            matches Err(ArcError::NameEncodeError(_)),
{
    let ghost src = source_models(files@);
    let n: usize = files.len();
    let mut names: Vec<Vec<u8>> = Vec::with_capacity(n);
    let mut i: usize = 0;
    while i < n
        invariant
            n == files@.len(),
            src == source_models(files@),
            i <= n,
            names@.len() == i,
            forall|j: int| 0 <= j < i ==> name_encodable(#[trigger] src[j]),
            forall|j: int| 0 <= j < i ==> (#[trigger] names@[j])@ == encrypted_name_of(src[j]),
        decreases n - i,
    {
        let f = &files[i];
        assert(src[i as int] == f@);
        match pack_name(f.path.as_str()) {
            Ok(name) => {
                names.push(name);
            },
            Err(e) => {
                assert(!name_encodable(src[i as int]));
                return Err(e);
            },
        }
        i = i + 1;
    }
    let mut prepared: Vec<PackFileInfo> = Vec::with_capacity(n);
    let mut k: usize = 0;
    while k < n
        invariant
            n == files@.len(),
            src == source_models(files@),
            k <= n,
            names@.len() == n,
            prepared@.len() == k,
            forall|j: int| 0 <= j < n ==> name_encodable(#[trigger] src[j]),
            forall|j: int| 0 <= j < n ==> (#[trigger] names@[j])@ == encrypted_name_of(src[j]),
            forall|j: int| 0 <= j < k ==> packable(#[trigger] src[j]),
            forall|j: int| 0 <= j < k ==> (#[trigger] prepared@[j])@ == packed(src[j], compress),
        decreases n - k,
    {
        let f = &files[k];
        assert(src[k as int] == f@);
        let name = vstd::slice::slice_to_vec(names[k].as_slice());
        match pack_data(name, f.data.as_slice(), compress) {
            Ok(p) => {
                prepared.push(p);
            },
            Err(e) => {
                assert(!packable(src[k as int]));
                return Err(e);
            },
        }
        k = k + 1;
    }
    assert(pack_models(prepared@) =~= packed_all(src, compress));
    proof {
        lemma_empty_archive();
    }
    build_archive(&prepared)
}

/// The archive of no files is the header alone: four bytes that give 4 as
/// the end of the metadata.
pub proof fn lemma_empty_archive()
    ensures
        fits(Seq::<PackModel>::empty()),
        metadata_end(Seq::<PackModel>::empty()) == 4,
        archive_bytes(Seq::<PackModel>::empty()) == le_bytes(4),
        archive_bytes(Seq::<PackModel>::empty()) == seq![4u8, 0u8, 0u8, 0u8],
{
    let e = Seq::<PackModel>::empty();
    assert(metadata_len(e, 0) == 0);
    assert(data_len(e, 0) == 0);
    assert(metadata_block(e, 0) =~= Seq::<u8>::empty());
    assert(data_block(e, 0) =~= Seq::<u8>::empty());
    assert(archive_bytes(e) =~= le_bytes(4));
    assert(le_bytes(4) =~= seq![4u8, 0u8, 0u8, 0u8]);
}

} // verus!
