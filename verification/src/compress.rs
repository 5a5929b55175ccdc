//! The compression policy: a file is stored compressed only where that makes
//! it strictly smaller, so that equal sizes always mean "stored as it is".

use vstd::prelude::*;

verus! {

/// What `Lzss::compress_stack` of the crate `lzss` yields, with 12 offset
/// bits, 4 length bits and a zero fill byte, on `data` and an output slice
/// of `capacity` bytes: the bytes written, or `None` where it fails.
pub uninterp spec fn lzss_compressed(data: Seq<u8>, capacity: nat) -> Option<Seq<u8>>;

/// What `Lzss::decompress_stack` of the crate `lzss` yields, with the same
/// parameters, on `data` and an output slice of `capacity` bytes: the bytes
/// written, or the text of its error.
pub uninterp spec fn lzss_decompressed(data: Seq<u8>, capacity: nat) -> Result<
    Seq<u8>,
    Seq<char>,
>;

/// No buffer is longer than half the address space.
pub open spec fn buffer_fits(capacity: nat) -> bool {
    capacity <= usize::MAX / 2
}

/// Calls `lzss::Lzss::compress_stack` from a `SliceReader` over `data` into
/// a `SliceWriter` over a fresh buffer of `capacity` bytes, and cuts the
/// buffer to the count it returns. The contract names the result.
#[verifier::external_body]
fn lzss_compress(data: &[u8], capacity: usize) -> (r: Option<Vec<u8>>)
    requires
        buffer_fits(capacity as nat),
    ensures
        match r {
            Some(v) => lzss_compressed(data@, capacity as nat) == Some(v@),
            None => lzss_compressed(data@, capacity as nat).is_none(),
        },
{
    let mut out = vec![0u8; capacity];
    let reader = lzss::SliceReader::new(data);
    let writer = lzss::SliceWriter::new(&mut out);
    match lzss::Lzss::<12, 4, 0, 4096, 8192>::compress_stack(reader, writer) {
        Ok(written) => {
            out.truncate(written);
            Some(out)
        },
        Err(_) => None,
    }
}

/// Calls `lzss::Lzss::decompress_stack` from a `SliceReader` over `data`
/// into a `SliceWriter` over a fresh buffer of `capacity` bytes, and cuts the
/// buffer to the count it returns; an error is handed on as its text. The
/// contract names the result.
#[verifier::external_body]
fn lzss_decompress(data: &[u8], capacity: usize) -> (r: Result<Vec<u8>, String>)
    requires
        buffer_fits(capacity as nat),
    ensures
        match r {
            Ok(v) => lzss_decompressed(data@, capacity as nat) == Ok::<Seq<u8>, Seq<char>>(v@),
            Err(m) => lzss_decompressed(data@, capacity as nat) == Err::<Seq<u8>, Seq<char>>(m@),
        },
{
    let mut out = vec![0u8; capacity];
    let reader = lzss::SliceReader::new(data);
    let writer = lzss::SliceWriter::new(&mut out);
    match lzss::Lzss::<12, 4, 0, 4096, 8192>::decompress_stack(reader, writer) {
        Ok(written) => {
            out.truncate(written);
            Ok(out)
        },
        Err(e) => Err(e.to_string()),
    }
}

/// The bytes to store for `data`, given what the compressor made of it: the
/// compressed form where it is strictly shorter, else `data` itself.
pub open spec fn chosen(data: Seq<u8>, compressed: Option<Seq<u8>>) -> Seq<u8> {
    match compressed {
        Some(c) => if c.len() < data.len() {
            c
        } else {
            data
        },
        None => data,
    }
}

/// The room given to the compressor: twice the input.
pub open spec fn compress_capacity(len: nat) -> nat {
    2 * len
}

/// The room given to the decompressor: four times the announced size.
pub open spec fn decompress_capacity(original_size: u32) -> nat {
    4 * (original_size as nat)
}

/// Whether the compressor is run on `data` at all: only on request, on a
/// file that is not empty, and where its output buffer can be allocated.
pub open spec fn compression_attempted(data: Seq<u8>, compress: bool) -> bool {
    compress && data.len() > 0 && buffer_fits(compress_capacity(data.len()))
}

/// The bytes stored for `data` under the given setting.
pub open spec fn payload(data: Seq<u8>, compress: bool) -> Seq<u8> {
    if compression_attempted(data, compress) {
        chosen(data, lzss_compressed(data, compress_capacity(data.len())))
    } else {
        data
    }
}

/// What is stored for a file is strictly shorter than the file or the file
/// itself: equal sizes always mean stored bytes.
pub proof fn lemma_payload_never_longer(data: Seq<u8>, compress: bool)
    ensures
        payload(data, compress).len() < data.len() || payload(data, compress) == data,
        !compress ==> payload(data, compress) == data,
        data.len() == 0 ==> payload(data, compress) == data,
{
}

/// Decides what to store once the compressor has run: its output where that
/// is strictly shorter than the file, the file itself where it is not or the
/// compressor failed. Equal lengths therefore always mean stored bytes.
pub fn choose_payload(data: &[u8], compressed: Option<Vec<u8>>) -> (out: Vec<u8>)
    ensures
        out@ == chosen(
            data@,
            match compressed {
                Some(c) => Some(c@),
                None => None,
            },
        ),
        out@.len() < data@.len() || out@ == data@,
{
    match compressed {
        Some(c) => {
            if c.len() < data.len() {
                c
            } else {
                vstd::slice::slice_to_vec(data)
            }
        },
        None => vstd::slice::slice_to_vec(data),
    }
}

/// The bytes to store for one file: compressed on request where that makes
/// them strictly fewer, and the file's own bytes in every other case.
pub fn compress_payload(data: &[u8], compress: bool) -> (out: Vec<u8>)
    ensures
        out@ == payload(data@, compress),
        out@.len() < data@.len() || out@ == data@,
        !compress ==> out@ == data@,
{
    let len: usize = data.len();
    if compress && len > 0 && len <= usize::MAX / 4 {
        let compressed = lzss_compress(data, 2 * len);
        choose_payload(data, compressed)
    } else {
        vstd::slice::slice_to_vec(data)
    }
}

/// How recovering a file from its stored bytes ends.
pub enum Inflated {
    /// The file's bytes.
    Data(Seq<u8>),
    /// The announced size asks for a buffer that cannot be allocated.
    TooLarge,
    /// The decompressor failed, with this message.
    Failed(Seq<char>),
}

/// Equal sizes mean that `stored` is the file; otherwise it is decompressed
/// into a buffer of four times the announced size.
pub open spec fn inflated(stored: Seq<u8>, original_size: u32) -> Inflated {
    if stored.len() == original_size {
        Inflated::Data(stored)
    } else if !buffer_fits(decompress_capacity(original_size)) {
        Inflated::TooLarge
    } else {
        match lzss_decompressed(stored, decompress_capacity(original_size)) {
            Ok(d) => Inflated::Data(d),
            Err(m) => Inflated::Failed(m),
        }
    }
}

/// Recovers a file from its stored bytes and its announced size.
pub fn inflate(stored: &[u8], original_size: u32) -> (r: Result<Vec<u8>, crate::error::ArcError>)
    ensures
        match inflated(stored@, original_size) {
            Inflated::Data(d) => r matches Ok(v) && v@ == d,
            Inflated::TooLarge => r matches Err(crate::error::ArcError::InvalidFormat(_)),
            Inflated::Failed(m) => r matches Err(crate::error::ArcError::LzssDecompressError(s))
                && s@ == m,
        },
{
    if stored.len() as u64 == original_size as u64 {
        return Ok(vstd::slice::slice_to_vec(stored));
    }
    let capacity: u64 = 4 * (original_size as u64);
    if capacity > (usize::MAX / 2) as u64 {
        return Err(
            crate::error::ArcError::InvalidFormat(
                "the announced size is too large to unpack".to_owned(),
            ),
        );
    }
    match lzss_decompress(stored, capacity as usize) {
        Ok(v) => Ok(v),
        Err(m) => Err(crate::error::ArcError::LzssDecompressError(m)),
    }
}

} // verus!
