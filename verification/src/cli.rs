//! The commands of the tool, as plain values.

use vstd::prelude::*;

verus! {

/// A parsed command line.
#[derive(Debug)]
pub struct Cli {
    pub command: Commands,
}

/// What the tool is asked to do.
#[derive(Debug)]
pub enum Commands {
    /// Pack a directory into an archive.
    Pack {
        /// The directory to pack.
        input: String,
        /// The archive to write; derived from the input where absent.
        output: Option<String>,
        /// Whether files are compressed where that makes them smaller.
        compress: bool,
    },
    /// Unpack an archive into a directory.
    Unpack {
        /// The archive to read.
        input: String,
        /// The directory to fill; derived from the input where absent.
        output: Option<String>,
    },
}

} // verus!
