//! The failures that packing and unpacking can report.

use vstd::prelude::*;

verus! {

/// Every way in which an archive operation can fail. Paths and messages are
/// carried as text, offending names as the bytes or string that was refused.
#[derive(Debug)]
pub enum ArcError {
    /// A read ran past the end of the archive, or the host refused an I/O
    /// operation.
    Io(String),
    /// The input path does not exist.
    NotFound(String),
    /// A value does not fit the fields of the archive format.
    InvalidFormat(String),
    /// The bytes of an entry name are no valid text in the legacy charset.
    NameDecodeError(Vec<u8>),
    /// A name holds a character that the legacy charset cannot express.
    NameEncodeError(String),
    /// The compressor failed.
    LzssCompressError(String),
    /// The decompressor failed.
    LzssDecompressError(String),
    /// Walking the input directory failed.
    WalkdirError(String),
    /// A discovered file does not lie under the input directory.
    StripPrefixError(String),
    /// A path has no final component.
    NoFilename(String),
    /// No output path was given and none can be derived from the input.
    CannotDeriveOutputPath(String),
}

} // verus!
