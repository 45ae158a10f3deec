//! The logical screen descriptor at the head of a GIF file.

use vstd::prelude::*;
use vstd::arithmetic::power2::pow2;
use crate::color::{color_count, color_table_bytes, ColorTable};
use crate::error::ParseError;
use crate::parser::{le_u16, take, take1, take_slice, u16_le};

verus! {

/// The version of the format that a file declares.
#[non_exhaustive]
#[derive(Copy, Clone, Eq, PartialEq, Ord, PartialOrd, Hash, Debug)]
pub enum Version {
    V87a,
    V89a,
}

/// What the logical screen descriptor says of the image.
#[derive(Copy, Clone, Eq, PartialEq, Ord, PartialOrd, Hash, Debug)]
pub struct Header {
    pub version: Version,
    pub width: u16,
    pub height: u16,
    pub has_global_color_table: bool,
    /// Three bits.
    pub color_resolution: u8,
    pub bg_color_index: u8,
}

/// The version spelled by three bytes: `87a` or `89a`.
pub open spec fn version_of(b0: u8, b1: u8, b2: u8) -> Option<Version> {
    if b0 == 0x38 && b1 == 0x37 && b2 == 0x61 {
        Some(Version::V87a)
    } else if b0 == 0x38 && b1 == 0x39 && b2 == 0x61 {
        Some(Version::V89a)
    } else {
        None
    }
}

/// The header at the front of `s`, with the number of bytes that it and the
/// global color table take.
///
/// The file starts with `GIF` and a version; width and height follow, little
/// endian, then the packed flags, the background color index and the pixel
/// aspect ratio, then the global color table where the flags announce one.
pub open spec fn header_at(s: Seq<u8>) -> Result<(Header, nat), ParseError> {
    if s.len() < 3 {
        Err(ParseError::UnexpectedEndOfFile)
    } else if !(s[0] == 0x47 && s[1] == 0x49 && s[2] == 0x46) {
        Err(ParseError::InvalidFileSignature([s[0], s[1], s[2]]))
    } else if s.len() < 6 {
        Err(ParseError::UnexpectedEndOfFile)
    } else if version_of(s[3], s[4], s[5]) is None {
        Err(ParseError::InvalidFileSignature([s[0], s[1], s[2]]))
    } else if s.len() < 13 + 3 * color_count(s[10]) {
        Err(ParseError::UnexpectedEndOfFile)
    } else {
        Ok(
            (
                Header {
                    version: version_of(s[3], s[4], s[5])->Some_0,
                    width: u16_le(s[6], s[7]),
                    height: u16_le(s[8], s[9]),
                    has_global_color_table: s[10] & 0x80 != 0,
                    color_resolution: (s[10] & 0x70) >> 4,
                    bg_color_index: s[11],
                },
                13 + 3 * color_count(s[10]),
            ),
        )
    }
}

/// Where the flags announce a global color table, it has two to the power of
/// their low three bits plus one entries of three bytes, right after the
/// thirteen bytes of the descriptor.
pub proof fn lemma_global_color_table_len(s: Seq<u8>)
    requires
        header_at(s) is Ok,
    ensures
        header_at(s)->Ok_0.1 == 13 + 3 * color_count(s[10]),
        header_at(s)->Ok_0.0.has_global_color_table ==> color_count(s[10]) == pow2(
            ((s[10] & 0x07) + 1) as nat,
        ),
        !header_at(s)->Ok_0.0.has_global_color_table ==> color_count(s[10]) == 0,
{
}

impl Header {
    /// Parses the header and the global color table, and returns them with
    /// the input that follows.
    pub fn parse(input: &[u8]) -> (r: Result<(&[u8], (Header, Option<ColorTable<'_>>)), ParseError>)
        ensures
            header_at(input@) matches Ok((h, n)) ==> (r matches Ok((rest, (header, table)))
                && header == h && n <= input@.len() && rest@ == input@.skip(n as int) && (table
                is Some <==> h.has_global_color_table) && (table matches Some(t) ==> t@
                == input@.subrange(13, n as int))),
            header_at(input@) matches Err(e) ==> (r matches Err(e2) && e2 == e),
    {
        let ghost s = input@;
        let (input1, magic) = match take::<3>(input) {
            Ok(v) => v,
            Err(e) => {
                return Err(e);
            },
        };
        assert(magic == [s[0], s[1], s[2]]) by {
            assert(magic@ =~= [s[0], s[1], s[2]]@);
        }
        if !(magic[0] == 0x47 && magic[1] == 0x49 && magic[2] == 0x46) {
            return Err(ParseError::InvalidFileSignature(magic));
        }
        let (input2, ver) = match take::<3>(input1) {
            Ok(v) => v,
            Err(e) => {
                return Err(e);
            },
        };
        assert(ver@[0] == s[3] && ver@[1] == s[4] && ver@[2] == s[5]);
        let version = if ver[0] == 0x38 && ver[1] == 0x37 && ver[2] == 0x61 {
            Version::V87a
        } else if ver[0] == 0x38 && ver[1] == 0x39 && ver[2] == 0x61 {
            Version::V89a
        } else {
            return Err(ParseError::InvalidFileSignature(magic));
        };
        assert(input2@ == s.skip(6));
        let (input3, screen_width) = match le_u16(input2) {
            Ok(v) => v,
            Err(e) => {
                return Err(e);
            },
        };
        let (input4, screen_height) = match le_u16(input3) {
            Ok(v) => v,
            Err(e) => {
                return Err(e);
            },
        };
        let (input5, flags) = match take1(input4) {
            Ok(v) => v,
            Err(e) => {
                return Err(e);
            },
        };
        let has_global_color_table = flags & 0b1000_0000 != 0;
        let global_color_table_bytes = color_table_bytes(flags);
        let color_resolution = (flags & 0b0111_0000) >> 4;

        let (input6, bg_color_index) = match take1(input5) {
            Ok(v) => v,
            Err(e) => {
                return Err(e);
            },
        };
        let (input7, _pixel_aspect_ratio) = match take1(input6) {
            Ok(v) => v,
            Err(e) => {
                return Err(e);
            },
        };
        assert(input7@ == s.skip(13));
        assert(flags == s[10] && bg_color_index == s[11]);

        let (rest, color_table) = if global_color_table_bytes > 0 {
            // each color table entry is 3 bytes long
            let (rest, table) = match take_slice(input7, global_color_table_bytes) {
                Ok(v) => v,
                Err(e) => {
                    return Err(e);
                },
            };
            assert(table@ == s.subrange(13, 13 + global_color_table_bytes));
            (rest, Some(ColorTable::new(table)))
        } else {
            (input7, None)
        };

        Ok(
            (
                rest,
                (
                    Header {
                        version,
                        width: screen_width,
                        height: screen_height,
                        has_global_color_table,
                        color_resolution,
                        bg_color_index,
                    },
                    color_table,
                ),
            ),
        )
    }
}

/// The header, the global color table, and the bytes that follow them.
#[derive(Copy, Clone, Eq, PartialEq, Ord, PartialOrd, Hash, Debug)]
pub struct RawGif<'a> {
    /// Image header.
    pub header: Header,
    pub global_color_table: Option<ColorTable<'a>>,
    /// The segments of the file: all that follows the header and the global
    /// color table.
    pub image_data: &'a [u8],
}

impl<'a> RawGif<'a> {
    /// Parses the head of a file and keeps the rest for the segment parser.
    pub fn from_slice(bytes: &'a [u8]) -> (r: Result<Self, ParseError>)
        ensures
            header_at(bytes@) matches Ok((h, n)) ==> (r matches Ok(raw) && raw.header == h && n
                <= bytes@.len() && raw.image_data@ == bytes@.skip(n as int) && (
            raw.global_color_table is Some <==> h.has_global_color_table) && (
            raw.global_color_table matches Some(t) ==> t@ == bytes@.subrange(13, n as int))),
            header_at(bytes@) matches Err(e) ==> (r matches Err(e2) && e2 == e),
    {
        match Header::parse(bytes) {
            Ok((remaining, (header, color_table))) => Ok(
                Self { header, global_color_table: color_table, image_data: remaining },
            ),
            Err(e) => Err(e),
        }
    }
}

} // verus!
