//! The error type shared by every parsing and decoding routine.

use vstd::prelude::*;

verus! {

/// Parse error.
#[derive(Debug, Copy, Clone, Ord, PartialOrd, Eq, PartialEq, Hash)]
pub enum ParseError {
    /// The image uses an unsupported bit depth.
    UnsupportedBpp(u16),
    /// Unexpected end of file.
    UnexpectedEndOfFile,
    /// The file does not start with `GIF87a` or `GIF89a`; carries the first
    /// three bytes that were read.
    InvalidFileSignature([u8; 3]),
    /// Unsupported compression method.
    UnsupportedCompressionMethod(u32),
    /// Unsupported header length.
    UnsupportedHeaderLength(u32),
    /// Unsupported channel masks.
    UnsupportedChannelMasks,
    /// Invalid image dimensions.
    InvalidImageDimensions,
    /// A byte that the format does not allow at this place, or an LZW code
    /// that the dictionary cannot resolve.
    InvalidByte,
    /// Bytes remain after the trailer byte.
    JunkAfterTrailerByte,
}

} // verus!
