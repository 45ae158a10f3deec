//! The segments that follow the header: image blocks, extension blocks and
//! the trailer.

use vstd::prelude::*;
use vstd::slice::slice_subrange;
use crate::color::{color_count, color_table_bytes, ColorTable};
use crate::error::ParseError;
use crate::parser::{
    chain_len, eat_len_prefixed_subblocks, le_u16, lemma_chain_len_bounds, parsed_as, take, take1,
    take_slice, u16_le,
};

verus! {

/// The content of a graphic control extension.
#[derive(Copy, Clone, Eq, PartialEq, Ord, PartialOrd, Hash, Debug)]
pub struct GraphicControl {
    pub is_transparent: bool,
    pub transparent_color_index: u8,
    /// In hundredths of a second.
    pub delay_centis: u16,
}

/// An image descriptor with its color table and its compressed data.
#[derive(Copy, Clone, Eq, PartialEq, Ord, PartialOrd, Hash, Debug)]
pub struct ImageBlock<'a> {
    pub left: u16,
    pub top: u16,
    pub width: u16,
    pub height: u16,
    pub is_interlaced: bool,
    pub lzw_min_code_size: u8,
    pub local_color_table: Option<ColorTable<'a>>,
    /// The chain of sub-blocks that holds the compressed data, length
    /// prefixes and terminator included.
    pub image_data: &'a [u8],
}

/// An image block, with sequences in place of borrowed bytes.
pub struct ImageBlockView {
    pub left: u16,
    pub top: u16,
    pub width: u16,
    pub height: u16,
    pub is_interlaced: bool,
    pub lzw_min_code_size: u8,
    pub local_color_table: Option<Seq<u8>>,
    pub image_data: Seq<u8>,
}

impl<'a> View for ImageBlock<'a> {
    type V = ImageBlockView;

    open spec fn view(&self) -> ImageBlockView {
        ImageBlockView {
            left: self.left,
            top: self.top,
            width: self.width,
            height: self.height,
            is_interlaced: self.is_interlaced,
            lzw_min_code_size: self.lzw_min_code_size,
            local_color_table: match self.local_color_table {
                Some(table) => Some(table@),
                None => None,
            },
            image_data: self.image_data@,
        }
    }
}

/// The image block at the front of `s`, which starts after the `0x2C`
/// separator, with the number of bytes that it takes.
///
/// Four little-endian numbers give left, top, width and height; the packed
/// flags follow, then the local color table where they announce one, the LZW
/// minimum code size, and the chain of data sub-blocks.
#[verifier::opaque]
pub open spec fn image_block_at(s: Seq<u8>) -> Result<(ImageBlockView, nat), ParseError> {
    if s.len() < 9 {
        Err(ParseError::UnexpectedEndOfFile)
    } else {
        let table = (3 * color_count(s[8])) as int;
        if s.len() < 10 + table {
            Err(ParseError::UnexpectedEndOfFile)
        } else {
            match chain_len(s.skip(10 + table)) {
                None => Err(ParseError::UnexpectedEndOfFile),
                Some(data) => Ok(
                    (
                        ImageBlockView {
                            left: u16_le(s[0], s[1]),
                            top: u16_le(s[2], s[3]),
                            width: u16_le(s[4], s[5]),
                            height: u16_le(s[6], s[7]),
                            is_interlaced: s[8] & 0x40 != 0,
                            lzw_min_code_size: s[9 + table],
                            local_color_table: if s[8] & 0x80 != 0 {
                                Some(s.subrange(9, 9 + table))
                            } else {
                                None
                            },
                            image_data: s.subrange(10 + table, 10 + table + data),
                        },
                        (10 + table + data) as nat,
                    ),
                ),
            }
        }
    }
}

/// The data of an image block that parses is a complete chain of
/// sub-blocks, and nothing more.
pub proof fn lemma_image_data_is_chain(s: Seq<u8>)
    requires
        image_block_at(s) is Ok,
    ensures
        chain_len(image_block_at(s)->Ok_0.0.image_data) == Some(
            image_block_at(s)->Ok_0.0.image_data.len(),
        ),
{
    reveal(image_block_at);
    let table = (3 * color_count(s[8])) as int;
    let tail = s.skip(10 + table);
    lemma_chain_len_bounds(tail);
    crate::parser::lemma_chain_prefix(tail);
    let data = chain_len(tail)->Some_0 as int;
    assert(tail.take(data) =~= s.subrange(10 + table, 10 + table + data));
}

impl<'a> ImageBlock<'a> {
    /// Parses an image block; `input` starts after the `0x2C` separator.
    pub fn parse(input: &'a [u8]) -> (r: Result<(&'a [u8], Self), ParseError>)
        ensures
            parsed_as(r, input@, image_block_at(input@)),
    {
        reveal(image_block_at);
        let ghost s = input@;
        let (input1, left) = match le_u16(input) {
            Ok(v) => v,
            Err(e) => {
                return Err(e);
            },
        };
        let (input2, top) = match le_u16(input1) {
            Ok(v) => v,
            Err(e) => {
                return Err(e);
            },
        };
        let (input3, width) = match le_u16(input2) {
            Ok(v) => v,
            Err(e) => {
                return Err(e);
            },
        };
        let (input4, height) = match le_u16(input3) {
            Ok(v) => v,
            Err(e) => {
                return Err(e);
            },
        };
        let (input5, flags) = match take1(input4) {
            Ok(v) => v,
            Err(e) => {
                return Err(e);
            },
        };
        assert(input5@ == s.skip(9));
        let is_interlaced = flags & 0b0100_0000 != 0;
        let local_color_table_bytes = color_table_bytes(flags);

        let (input6, local_color_table) = if local_color_table_bytes > 0 {
            // each color table entry is 3 bytes long
            let (rest, table) = match take_slice(input5, local_color_table_bytes) {
                Ok(v) => v,
                Err(e) => {
                    return Err(e);
                },
            };
            assert(table@ == s.subrange(9, 9 + local_color_table_bytes));
            (rest, Some(ColorTable::new(table)))
        } else {
            (input5, None)
        };
        assert(input6@ == s.skip(9 + local_color_table_bytes));

        let (input7, lzw_min_code_size) = match take1(input6) {
            Ok(v) => v,
            Err(e) => {
                return Err(e);
            },
        };
        assert(input7@ == s.skip(10 + local_color_table_bytes));

        let rest = match eat_len_prefixed_subblocks(input7) {
            Ok(rest) => rest,
            Err(e) => {
                return Err(e);
            },
        };
        proof {
            lemma_chain_len_bounds(input7@);
        }
        let n = input7.len() - rest.len();
        let image_data = slice_subrange(input7, 0, n);
        let block = Self {
            left,
            top,
            width,
            height,
            is_interlaced,
            lzw_min_code_size,
            local_color_table,
            image_data,
        };
        proof {
            let expected = image_block_at(s)->Ok_0;
            assert(rest@ =~= s.skip(expected.1 as int));
            assert(image_data@ =~= expected.0.image_data);
            assert(block@ == expected.0);
        }
        Ok((rest, block))
    }
}

/// An extension block.
#[derive(Copy, Clone, Eq, PartialEq, Ord, PartialOrd, Hash, Debug)]
pub enum ExtensionBlock<'a> {
    GraphicControl(GraphicControl),
    /// A comment; carries the input from its first data byte on.
    Comment(&'a [u8]),
    /// A plain text extension; carries the input from the byte after its
    /// first length prefix on.
    PlainText(&'a [u8]),
    NetscapeApplication { repetitions: u16 },
    /// An application extension other than the looping one; its content is
    /// skipped.
    Application,
    /// An extension with another label; carries the label and the input
    /// from the byte after its first length prefix on.
    Unknown(u8, &'a [u8]),
}

/// An extension block, with sequences in place of borrowed bytes.
pub enum ExtensionBlockView {
    GraphicControl(GraphicControl),
    Comment(Seq<u8>),
    PlainText(Seq<u8>),
    NetscapeApplication { repetitions: u16 },
    Application,
    Unknown(u8, Seq<u8>),
}

impl<'a> View for ExtensionBlock<'a> {
    type V = ExtensionBlockView;

    open spec fn view(&self) -> ExtensionBlockView {
        match *self {
            ExtensionBlock::GraphicControl(control) => ExtensionBlockView::GraphicControl(control),
            ExtensionBlock::Comment(bytes) => ExtensionBlockView::Comment(bytes@),
            ExtensionBlock::PlainText(bytes) => ExtensionBlockView::PlainText(bytes@),
            ExtensionBlock::NetscapeApplication { repetitions } => {
                ExtensionBlockView::NetscapeApplication { repetitions }
            },
            ExtensionBlock::Application => ExtensionBlockView::Application,
            ExtensionBlock::Unknown(label, bytes) => ExtensionBlockView::Unknown(label, bytes@),
        }
    }
}

/// Whether `s`, which starts at the label of an application extension, holds
/// the looping extension: an 11-byte block `NETSCAPE2.0`, then a 3-byte block
/// that starts with 1, then the terminator.
pub open spec fn is_netscape_loop(s: Seq<u8>) -> bool {
    &&& s.len() >= 18
    &&& s[1] == 11
    &&& s.subrange(2, 13) == seq![
        0x4eu8,
        0x45u8,
        0x54u8,
        0x53u8,
        0x43u8,
        0x41u8,
        0x50u8,
        0x45u8,
        0x32u8,
        0x2eu8,
        0x30u8,
    ]
    &&& s[13] == 3
    &&& s[14] == 1
    &&& s[17] == 0
}

/// The graphic control extension at the front of `s`, which starts at its
/// label: a block of exactly four bytes (flags, delay, transparent index),
/// then the terminator.
pub open spec fn graphic_control_at(s: Seq<u8>) -> Result<(ExtensionBlockView, nat), ParseError> {
    if s.len() < 2 {
        Err(ParseError::UnexpectedEndOfFile)
    } else if s[1] != 4 {
        Err(ParseError::InvalidByte)
    } else if s.len() < 7 {
        Err(ParseError::UnexpectedEndOfFile)
    } else if s[6] != 0 {
        Err(ParseError::InvalidByte)
    } else {
        Ok(
            (
                ExtensionBlockView::GraphicControl(
                    GraphicControl {
                        is_transparent: s[2] & 0x01 != 0,
                        transparent_color_index: s[5],
                        delay_centis: u16_le(s[3], s[4]),
                    },
                ),
                7,
            ),
        )
    }
}

/// The application extension at the front of `s`, which starts at its label:
/// the looping extension with its count, or any other, skipped from its
/// thirteenth byte on as a chain of sub-blocks.
pub open spec fn application_at(s: Seq<u8>) -> Result<(ExtensionBlockView, nat), ParseError> {
    if s.len() < 13 {
        Err(ParseError::UnexpectedEndOfFile)
    } else if is_netscape_loop(s) {
        Ok((ExtensionBlockView::NetscapeApplication { repetitions: u16_le(s[15], s[16]) }, 18))
    } else {
        match chain_len(s.skip(13)) {
            None => Err(ParseError::UnexpectedEndOfFile),
            Some(n) => Ok((ExtensionBlockView::Application, 13 + n)),
        }
    }
}

/// The extension block at the front of `s`, which starts after the `0x21`
/// introducer, with the number of bytes that it takes.
#[verifier::opaque]
pub open spec fn extension_at(s: Seq<u8>) -> Result<(ExtensionBlockView, nat), ParseError> {
    if s.len() < 1 {
        Err(ParseError::UnexpectedEndOfFile)
    } else if s[0] == 0xff {
        application_at(s)
    } else if s[0] == 0xf9 {
        graphic_control_at(s)
    } else {
        match chain_len(s.skip(1)) {
            None => Err(ParseError::UnexpectedEndOfFile),
            Some(n) => Ok(
                (
                    if s[0] == 0xfe {
                        ExtensionBlockView::Comment(s.skip(2))
                    } else if s[0] == 0x01 {
                        ExtensionBlockView::PlainText(s.skip(2))
                    } else {
                        ExtensionBlockView::Unknown(s[0], s.skip(2))
                    },
                    1 + n,
                ),
            ),
        }
    }
}

impl<'a> ExtensionBlock<'a> {
    /// Parses an extension block; `input` starts after the `0x21`
    /// introducer.
    pub fn parse(input: &'a [u8]) -> (r: Result<(&'a [u8], Self), ParseError>)
        ensures
            parsed_as(r, input@, extension_at(input@)),
    {
        reveal(extension_at);
        let ghost s = input@;
        let (input1, ext_label) = match take1(input) {
            Ok(v) => v,
            Err(e) => {
                return Err(e);
            },
        };
        if ext_label == 0xff {
            let (input2, block_size_1) = match take1(input1) {
                Ok(v) => v,
                Err(e) => {
                    return Err(e);
                },
            };
            let (input3, app_id) = match take::<8>(input2) {
                Ok(v) => v,
                Err(e) => {
                    return Err(e);
                },
            };
            let (input4, app_auth_code) = match take::<3>(input3) {
                Ok(v) => v,
                Err(e) => {
                    return Err(e);
                },
            };
            assert(input4@ == s.skip(13));
            let is_netscape = block_size_1 == 11 && app_id[0] == 0x4e && app_id[1] == 0x45
                && app_id[2] == 0x54 && app_id[3] == 0x53 && app_id[4] == 0x43 && app_id[5] == 0x41
                && app_id[6] == 0x50 && app_id[7] == 0x45 && app_auth_code[0] == 0x32
                && app_auth_code[1] == 0x2e && app_auth_code[2] == 0x30;
            proof {
                let name = seq![
                    0x4eu8,
                    0x45u8,
                    0x54u8,
                    0x53u8,
                    0x43u8,
                    0x41u8,
                    0x50u8,
                    0x45u8,
                    0x32u8,
                    0x2eu8,
                    0x30u8,
                ];
                let got = s.subrange(2, 13);
                assert(forall|i: int| 0 <= i < 8 ==> got[i] == app_id@[i]);
                assert(forall|i: int| 8 <= i < 11 ==> got[i] == app_auth_code@[i - 8]);
                if is_netscape {
                    assert(got =~= name);
                } else if block_size_1 == 11 {
                    assert(got != name) by {
                        if got == name {
                            assert(got[0] == name[0] && got[1] == name[1] && got[2] == name[2]
                                && got[3] == name[3] && got[4] == name[4] && got[5] == name[5]
                                && got[6] == name[6] && got[7] == name[7] && got[8] == name[8]
                                && got[9] == name[9] && got[10] == name[10]);
                        }
                    }
                }
            }
            if is_netscape && input4.len() >= 5 && input4[0] == 3 && input4[1] == 1 && input4[4]
                == 0 {
                let repetitions: u16 = (input4[3] as u16) * 256 + (input4[2] as u16);
                let rest = slice_subrange(input4, 5, input4.len());
                assert(rest@ =~= s.skip(18));
                return Ok((rest, ExtensionBlock::NetscapeApplication { repetitions }));
            }
            assert(!is_netscape_loop(s));
            let rest = match eat_len_prefixed_subblocks(input4) {
                Ok(rest) => rest,
                Err(e) => {
                    return Err(e);
                },
            };
            proof {
                lemma_chain_len_bounds(input4@);
                assert(rest@ =~= s.skip(13 + chain_len(s.skip(13))->Some_0 as int));
            }
            Ok((rest, ExtensionBlock::Application))
        } else if ext_label == 0xf9 {
            // Graphic Control Extension
            let (input2, block_size) = match take1(input1) {
                Ok(v) => v,
                Err(e) => {
                    return Err(e);
                },
            };
            if block_size != 4 {
                return Err(ParseError::InvalidByte);
            }
            let (input3, flags) = match take1(input2) {
                Ok(v) => v,
                Err(e) => {
                    return Err(e);
                },
            };
            let is_transparent = flags & 0b0000_0001 != 0;
            let (input4, delay_centis) = match le_u16(input3) {
                Ok(v) => v,
                Err(e) => {
                    return Err(e);
                },
            };
            let (input5, transparent_color_index) = match take1(input4) {
                Ok(v) => v,
                Err(e) => {
                    return Err(e);
                },
            };
            let (input6, block_terminator) = match take1(input5) {
                Ok(v) => v,
                Err(e) => {
                    return Err(e);
                },
            };
            if block_terminator != 0 {
                return Err(ParseError::InvalidByte);
            }
            assert(input6@ =~= s.skip(7));
            Ok(
                (
                    input6,
                    ExtensionBlock::GraphicControl(
                        GraphicControl { is_transparent, transparent_color_index, delay_centis },
                    ),
                ),
            )
        } else {
            let rest = match eat_len_prefixed_subblocks(input1) {
                Ok(rest) => rest,
                Err(e) => {
                    return Err(e);
                },
            };
            proof {
                lemma_chain_len_bounds(input1@);
                assert(rest@ =~= s.skip(1 + chain_len(s.skip(1))->Some_0 as int));
            }
            let bytes = slice_subrange(input1, 1, input1.len());
            assert(bytes@ =~= s.skip(2));
            if ext_label == 0xfe {
                Ok((rest, ExtensionBlock::Comment(bytes)))
            } else if ext_label == 0x01 {
                Ok((rest, ExtensionBlock::PlainText(bytes)))
            } else {
                Ok((rest, ExtensionBlock::Unknown(ext_label, bytes)))
            }
        }
    }
}

/// One segment of the file.
#[derive(Copy, Clone, Eq, PartialEq, Ord, PartialOrd, Hash, Debug)]
pub enum Segment<'a> {
    Image(ImageBlock<'a>),
    Extension(ExtensionBlock<'a>),
    /// The byte `0x3B`, the last of the file.
    Trailer,
}

/// A segment, with sequences in place of borrowed bytes.
pub enum SegmentView {
    Image(ImageBlockView),
    Extension(ExtensionBlockView),
    Trailer,
}

impl<'a> View for Segment<'a> {
    type V = SegmentView;

    open spec fn view(&self) -> SegmentView {
        match *self {
            Segment::Image(block) => SegmentView::Image(block@),
            Segment::Extension(block) => SegmentView::Extension(block@),
            Segment::Trailer => SegmentView::Trailer,
        }
    }
}

/// The segment at the front of `s`, with the number of bytes that it takes.
///
/// `0x21` introduces an extension block and `0x2C` an image block. `0x3B` is
/// the trailer, after which nothing may follow. No other byte starts a
/// segment.
pub open spec fn segment_at(s: Seq<u8>) -> Result<(SegmentView, nat), ParseError> {
    if s.len() < 1 {
        Err(ParseError::UnexpectedEndOfFile)
    } else if s[0] == 0x21 {
        match extension_at(s.skip(1)) {
            Ok((block, n)) => Ok((SegmentView::Extension(block), 1 + n)),
            Err(e) => Err(e),
        }
    } else if s[0] == 0x2c {
        match image_block_at(s.skip(1)) {
            Ok((block, n)) => Ok((SegmentView::Image(block), 1 + n)),
            Err(e) => Err(e),
        }
    } else if s[0] == 0x3b {
        if s.len() == 1 {
            Ok((SegmentView::Trailer, 1))
        } else {
            Err(ParseError::JunkAfterTrailerByte)
        }
    } else {
        Err(ParseError::InvalidByte)
    }
}

/// A segment that parses takes at least one byte and no more than there are.
pub proof fn lemma_segment_len(s: Seq<u8>)
    ensures
        segment_at(s) matches Ok((_, n)) ==> 1 <= n <= s.len(),
{
    reveal(image_block_at);
    reveal(extension_at);
    if s.len() >= 1 {
        let t = s.skip(1);
        if s[0] == 0x21 {
            if t.len() >= 1 {
                if t[0] == 0xff {
                    if t.len() >= 13 {
                        lemma_chain_len_bounds(t.skip(13));
                    }
                } else if t[0] != 0xf9 {
                    lemma_chain_len_bounds(t.skip(1));
                }
            }
        } else if s[0] == 0x2c {
            if t.len() >= 9 {
                let table = (3 * color_count(t[8])) as int;
                if t.len() >= 10 + table {
                    lemma_chain_len_bounds(t.skip(10 + table));
                }
            }
        }
    }
}

/// The data of an image block that a segment holds is a complete chain of
/// sub-blocks.
pub proof fn lemma_image_segment_is_chain(s: Seq<u8>)
    ensures
        segment_at(s) matches Ok((SegmentView::Image(block), _)) ==> chain_len(block.image_data)
            is Some,
{
    if s.len() >= 1 && s[0] == 0x2c && image_block_at(s.skip(1)) is Ok {
        lemma_image_data_is_chain(s.skip(1));
    }
}

impl<'a> Segment<'a> {
    /// Parses one segment.
    pub fn parse(input: &'a [u8]) -> (r: Result<(&'a [u8], Self), ParseError>)
        ensures
            parsed_as(r, input@, segment_at(input@)),
    {
        let (input1, ext_magic) = match take1(input) {
            Ok(v) => v,
            Err(e) => {
                return Err(e);
            },
        };
        if ext_magic == 0x21 {
            match ExtensionBlock::parse(input1) {
                Ok((rest, ext)) => {
                    assert(rest@ =~= input@.skip(1 + extension_at(input1@)->Ok_0.1 as int));
                    Ok((rest, Segment::Extension(ext)))
                },
                Err(e) => Err(e),
            }
        } else if ext_magic == 0x2c {
            match ImageBlock::parse(input1) {
                Ok((rest, image_block)) => {
                    assert(rest@ =~= input@.skip(1 + image_block_at(input1@)->Ok_0.1 as int));
                    Ok((rest, Segment::Image(image_block)))
                },
                Err(e) => Err(e),
            }
        } else if ext_magic == 0x3b {
            if input1.len() == 0 {
                Ok((input1, Segment::Trailer))
            } else {
                Err(ParseError::JunkAfterTrailerByte)
            }
        } else {
            Err(ParseError::InvalidByte)
        }
    }

    /// The name of the segment's kind.
    pub fn kind_name(&self) -> (name: &'static str)
        ensures
            name@ == (match *self {
                Segment::Image(_) => "Image"@,
                Segment::Extension(_) => "Extension"@,
                Segment::Trailer => "Trailer"@,
            }),
    {
        match self {
            Segment::Image(_) => "Image",
            Segment::Extension(_) => "Extension",
            Segment::Trailer => "Trailer",
        }
    }
}

} // verus!
