//! Errors of the library.
use vstd::prelude::*;

verus! {

/// Failure of the DEFLATE compressor.
#[derive(Debug, Clone, PartialEq, Eq)]
pub enum CompressError {
    /// The output buffer was too small for the compressed data.
    InsufficientSpace,
    /// Any other failure of the engine.
    Other(String),
}

/// Failure of the DEFLATE decompressor.
#[derive(Debug, Clone, PartialEq, Eq)]
pub enum DecompressError {
    /// The output buffer was too small for the decompressed data.
    InsufficientSpace,
    /// The input is not valid DEFLATE data.
    BadData,
    /// Any other failure of the engine.
    Other(String),
}

/// A BGZF error.
#[derive(Debug, Clone, PartialEq, Eq)]
pub enum BGZFError {
    /// Failed to parse a header at the given byte position.
    HeaderParseError { position: u64 },
    /// Not a tabix index.
    NotTabix,
    /// A gzip member without the BGZF block-size subfield.
    NotBGZF,
    /// Not gzip data: the magic bytes do not match.
    NotGzip,
    /// A compress unit must be smaller than 64 KiB.
    TooLargeCompressUnit,
    /// The input ended inside a structure.
    UnexpectedEof,
    /// Bytes that should hold UTF-8 text do not.
    Utf8Error,
    /// The DEFLATE compressor failed.
    CompressionError(CompressError),
    /// The DEFLATE decompressor failed.
    DecompressionError(DecompressError),
    /// The compression level is out of range.
    InvalidCompressionLevel,
    /// The header names a compression method other than DEFLATE.
    UnsupportedCompressionMethod,
    /// The header sets a reserved flag bit.
    UnsupportedFlag,
    /// The extra subfields do not fill the declared extra length exactly.
    InvalidExtraField,
    /// The flags of a header disagree with the fields it holds.
    InvalidFlags,
    /// The declared extra length disagrees with the subfields.
    InvalidExtraFieldLength,
    /// The CRC32 of a decompressed block does not match its footer.
    UnmatchedCrc,
    /// A block decompressed to another length than its footer states.
    UnmatchedLength,
    /// A virtual offset that no index entry knows.
    InvalidBgzfPosition,
    /// A malformed or empty index.
    InvalidIndex,
    /// A record or an index is malformed in another way.
    InvalidData,
    /// An offset of the stream no longer fits in 64 bits.
    StreamTooLong,
}

} // verus!
