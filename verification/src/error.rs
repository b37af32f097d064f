//! The errors of the reader.

use vstd::prelude::*;

verus! {

/// What can go wrong while a dictionary file is opened or read.
#[derive(Debug, Clone, Copy, PartialEq, Eq, Structural)]
pub enum MdictError {
    /// A read reaches past the end of the file.
    Io,
    /// The header cannot be decoded, or the sections it introduces are implausible.
    BadHeader,
    /// A block is compressed with a codec that this reader has no decoder for.
    UnsupportedCompression,
    /// The file is encrypted where the requested data lies.
    UnsupportedEncryption,
    /// A block fails its checksum, has the wrong length, or ends too early.
    CorruptBlock,
}

} // verus!
