//! A streaming decoder for GIF87a/GIF89a images that works on a borrowed byte
//! buffer and fixed-capacity tables.
//!
//! A file is parsed into a header and segments ([`header`], [`segment`]);
//! the segments are grouped into frames ([`frame`]); the image data of a
//! frame run through the sub-block reader, the bit reader and the LZW decoder
//! ([`subblock`], [`bitstream`], [`lzw`]) and come out as pixels ([`draw`]).
//! Every function states what it returns over the bytes it is given, and the
//! verifier checks the code against that. [`encoder`] holds the encoder that
//! the decoder inverts, as a specification.

pub mod bitstream;
pub mod color;
pub mod draw;
pub mod encoder;
pub mod error;
pub mod frame;
pub mod header;
pub mod lzw;
pub mod parser;
pub mod segment;
pub mod subblock;

pub use color::{ColorTable, Rgb};
pub use draw::{Area, FramePixels, Pixel};
pub use error::ParseError;
pub use frame::{Frame, FrameIterator, Gif};
pub use header::{Header, RawGif, Version};
pub use segment::{ExtensionBlock, GraphicControl, ImageBlock, Segment};
pub use subblock::{ByteSource, LenPrefixRawDataView};
