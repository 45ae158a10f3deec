use tinygif::{ExtensionBlock, GraphicControl, ImageBlock, ParseError, Segment};

const GCE: [u8; 8] = [0x21, 0xF9, 0x04, 0x00, 0x0A, 0x00, 0x00, 0x00];
const IMAGE: [u8; 15] = [
    0x2C, 0x00, 0x00, 0x00, 0x00, 0x01, 0x00, 0x01, 0x00, 0x00, 0x02, 0x02, 0x44, 0x01, 0x00,
];

#[test]
fn graphic_control_extension() {
    let mut input = GCE.to_vec();
    input.push(0x3b);
    let (rest, seg) = Segment::parse(&input).unwrap();
    assert_eq!(rest, &[0x3b][..]);
    assert_eq!(
        seg,
        Segment::Extension(ExtensionBlock::GraphicControl(GraphicControl {
            is_transparent: false,
            transparent_color_index: 0,
            delay_centis: 10,
        }))
    );
    assert_eq!(seg.kind_name(), "Extension");
}

#[test]
fn graphic_control_fields() {
    let input = [0xF9, 0x04, 0x09, 0x34, 0x12, 0x07, 0x00, 0xaa];
    assert_eq!(
        ExtensionBlock::parse(&input),
        Ok((
            &[0xaa][..],
            ExtensionBlock::GraphicControl(GraphicControl {
                is_transparent: true,
                transparent_color_index: 7,
                delay_centis: 0x1234,
            })
        ))
    );
}

#[test]
fn graphic_control_block_size_must_be_four() {
    assert_eq!(
        ExtensionBlock::parse(&[0xF9, 0x05, 0x00, 0x0A, 0x00, 0x00, 0x00, 0x00]),
        Err(ParseError::InvalidByte)
    );
    // the block size is checked before the rest is read
    assert_eq!(ExtensionBlock::parse(&[0xF9, 0x03]), Err(ParseError::InvalidByte));
}

#[test]
fn graphic_control_terminator_must_be_zero() {
    assert_eq!(
        ExtensionBlock::parse(&[0xF9, 0x04, 0x00, 0x0A, 0x00, 0x00, 0x01]),
        Err(ParseError::InvalidByte)
    );
}

#[test]
fn graphic_control_truncated() {
    let input = [0xF9, 0x04, 0x00, 0x0A, 0x00, 0x00, 0x00];
    for n in 0..7 {
        assert_eq!(ExtensionBlock::parse(&input[..n]), Err(ParseError::UnexpectedEndOfFile));
    }
    assert!(ExtensionBlock::parse(&input).is_ok());
}

#[test]
fn netscape_application_extension() {
    let mut input = vec![0xFF, 0x0B];
    input.extend_from_slice(b"NETSCAPE2.0");
    input.extend_from_slice(&[0x03, 0x01, 0x05, 0x01, 0x00, 0x3b]);
    assert_eq!(
        ExtensionBlock::parse(&input),
        Ok((&[0x3b][..], ExtensionBlock::NetscapeApplication { repetitions: 0x0105 }))
    );
}

#[test]
fn other_application_extension_is_skipped() {
    let mut input = vec![0xFF, 0x0B];
    input.extend_from_slice(b"XMP DataXMP");
    input.extend_from_slice(&[0x02, 0xaa, 0xbb, 0x01, 0xcc, 0x00, 0x3b]);
    assert_eq!(ExtensionBlock::parse(&input), Ok((&[0x3b][..], ExtensionBlock::Application)));
}

#[test]
fn netscape_with_another_sub_block_is_an_application() {
    let mut input = vec![0xFF, 0x0B];
    input.extend_from_slice(b"NETSCAPE2.0");
    input.extend_from_slice(&[0x03, 0x02, 0x05, 0x01, 0x00, 0x3b]);
    assert_eq!(ExtensionBlock::parse(&input), Ok((&[0x3b][..], ExtensionBlock::Application)));

    let mut input = vec![0xFF, 0x0B];
    input.extend_from_slice(b"NETSCAPE2.0");
    input.extend_from_slice(&[0x03, 0x01, 0x05, 0x01, 0x01, 0x09, 0x00, 0x3b]);
    assert_eq!(ExtensionBlock::parse(&input), Ok((&[0x3b][..], ExtensionBlock::Application)));
}

#[test]
fn application_extension_truncated() {
    let mut input = vec![0xFF, 0x0B];
    input.extend_from_slice(b"NETSCAPE2.0");
    input.extend_from_slice(&[0x03, 0x01, 0x05, 0x01, 0x00]);
    for n in 0..input.len() {
        assert_eq!(ExtensionBlock::parse(&input[..n]), Err(ParseError::UnexpectedEndOfFile));
    }
    assert!(ExtensionBlock::parse(&input).is_ok());
}

#[test]
fn comment_extension() {
    let input = [0xFE, 0x02, b'h', b'i', 0x01, b'!', 0x00, 0x3b];
    let (rest, block) = ExtensionBlock::parse(&input).unwrap();
    assert_eq!(rest, &[0x3b][..]);
    assert_eq!(block, ExtensionBlock::Comment(&input[2..]));
    assert_eq!(ExtensionBlock::parse(&input[..6]), Err(ParseError::UnexpectedEndOfFile));
}

#[test]
fn plain_text_and_unknown_extensions_are_skipped() {
    let mut input = vec![0x01, 0x0c];
    input.extend_from_slice(&[0; 12]);
    input.extend_from_slice(&[0x01, b'x', 0x00, 0x3b]);
    let (rest, block) = ExtensionBlock::parse(&input).unwrap();
    assert_eq!(rest, &[0x3b][..]);
    assert_eq!(block, ExtensionBlock::PlainText(&input[2..]));

    let input = [0x42, 0x01, 0x07, 0x00, 0x3b];
    assert_eq!(
        ExtensionBlock::parse(&input),
        Ok((&[0x3b][..], ExtensionBlock::Unknown(0x42, &input[2..])))
    );
    assert_eq!(ExtensionBlock::parse(&[0x42, 0x01, 0x07]), Err(ParseError::UnexpectedEndOfFile));
    assert_eq!(ExtensionBlock::parse(&[]), Err(ParseError::UnexpectedEndOfFile));
}

#[test]
fn image_block() {
    let mut input = IMAGE.to_vec();
    input.push(0x3b);
    let (rest, seg) = Segment::parse(&input).unwrap();
    assert_eq!(rest, &[0x3b][..]);
    match seg {
        Segment::Image(block) => {
            assert_eq!(block.left, 0);
            assert_eq!(block.top, 0);
            assert_eq!(block.width, 1);
            assert_eq!(block.height, 1);
            assert!(!block.is_interlaced);
            assert_eq!(block.lzw_min_code_size, 2);
            assert_eq!(block.local_color_table, None);
            assert_eq!(block.image_data, &[0x02, 0x44, 0x01, 0x00][..]);
        }
        _ => panic!("not an image"),
    }
    assert_eq!(seg.kind_name(), "Image");
}

#[test]
fn image_block_with_local_color_table() {
    let mut input = vec![0x03, 0x00, 0x04, 0x00, 0x05, 0x00, 0x06, 0x00, 0b1100_0001];
    input.extend_from_slice(&[1, 2, 3, 4, 5, 6, 7, 8, 9, 10, 11, 12]);
    input.extend_from_slice(&[0x08, 0x01, 0xaa, 0x02, 0xbb, 0xcc, 0x00, 0x21]);
    let (rest, block) = ImageBlock::parse(&input).unwrap();
    assert_eq!(rest, &[0x21][..]);
    assert_eq!((block.left, block.top, block.width, block.height), (3, 4, 5, 6));
    assert!(block.is_interlaced);
    assert_eq!(block.lzw_min_code_size, 8);
    let table = block.local_color_table.unwrap();
    assert_eq!(table.len(), 4);
    assert_eq!(table.get(3).map(|c| (c.r, c.g, c.b)), Some((10, 11, 12)));
    assert_eq!(block.image_data, &[0x01, 0xaa, 0x02, 0xbb, 0xcc, 0x00][..]);
}

#[test]
fn image_block_truncated() {
    for n in 0..IMAGE.len() {
        assert_eq!(Segment::parse(&IMAGE[..n]), Err(ParseError::UnexpectedEndOfFile));
    }
    assert!(Segment::parse(&IMAGE).is_ok());
}

#[test]
fn trailer() {
    let (rest, seg) = Segment::parse(&[0x3b]).unwrap();
    assert_eq!(rest, &[][..]);
    assert_eq!(seg, Segment::Trailer);
    assert_eq!(seg.kind_name(), "Trailer");
}

#[test]
fn junk_after_trailer() {
    assert_eq!(Segment::parse(&[0x3b, 0x00]), Err(ParseError::JunkAfterTrailerByte));
}

#[test]
fn unknown_segment_marker() {
    assert_eq!(Segment::parse(&[0x00]), Err(ParseError::InvalidByte));
    assert_eq!(Segment::parse(&[0x22, 0xf9, 0x04]), Err(ParseError::InvalidByte));
    assert_eq!(Segment::parse(&[]), Err(ParseError::UnexpectedEndOfFile));
}

#[test]
fn segments_and_header_cover_the_file() {
    let mut file = vec![
        0x47, 0x49, 0x46, 0x38, 0x39, 0x61, 0x01, 0x00, 0x01, 0x00, 0x80, 0x00, 0x00, 0x00, 0x00,
        0x00, 0x00, 0x00, 0x00,
    ];
    file.extend_from_slice(&GCE);
    file.extend_from_slice(&[0x21, 0xFE, 0x01, b'c', 0x00]);
    file.extend_from_slice(&IMAGE);
    file.push(0x3b);

    let (mut rest, _) = tinygif::Header::parse(&file).unwrap();
    let mut joined = file[..file.len() - rest.len()].to_vec();
    let mut kinds = Vec::new();
    while !rest.is_empty() {
        let (next, seg) = Segment::parse(rest).unwrap();
        joined.extend_from_slice(&rest[..rest.len() - next.len()]);
        kinds.push(seg.kind_name());
        rest = next;
    }
    assert_eq!(kinds, vec!["Extension", "Extension", "Image", "Trailer"]);
    assert_eq!(joined, file);
}
