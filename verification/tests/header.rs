use tinygif::{ColorTable, Header, ParseError, RawGif, Version};

const MINIMAL: [u8; 14] = [
    0x47, 0x49, 0x46, 0x38, 0x39, 0x61, 0x01, 0x00, 0x01, 0x00, 0x00, 0x00, 0x00, 0x3B,
];

const WITH_IMAGE: [u8; 35] = [
    0x47, 0x49, 0x46, 0x38, 0x39, 0x61, 0x01, 0x00, 0x01, 0x00, 0x80, 0x00, 0x00, 0x00, 0x00, 0x00,
    0xFF, 0xFF, 0xFF, 0x2C, 0x00, 0x00, 0x00, 0x00, 0x01, 0x00, 0x01, 0x00, 0x00, 0x02, 0x02, 0x44,
    0x01, 0x00, 0x3B,
];

#[test]
fn minimal_header() {
    let (rest, (header, table)) = Header::parse(&MINIMAL).unwrap();
    assert_eq!(rest, &[0x3B][..]);
    assert_eq!(header.version, Version::V89a);
    assert_eq!(header.width, 1);
    assert_eq!(header.height, 1);
    assert!(!header.has_global_color_table);
    assert_eq!(header.color_resolution, 0);
    assert_eq!(header.bg_color_index, 0);
    assert_eq!(table, None);
}

#[test]
fn header_with_global_color_table() {
    let (rest, (header, table)) = Header::parse(&WITH_IMAGE).unwrap();
    assert_eq!(rest, &WITH_IMAGE[19..]);
    assert!(header.has_global_color_table);
    assert_eq!(table, Some(ColorTable::new(&[0, 0, 0, 0xff, 0xff, 0xff])));
    assert_eq!(table.unwrap().len(), 2);
}

#[test]
fn header_fields_are_decoded() {
    let mut bytes = b"GIF87a".to_vec();
    bytes.extend_from_slice(&[0x34, 0x12, 0xcd, 0xab, 0b1101_0010, 7, 0]);
    bytes.extend_from_slice(&[9; 24]);
    bytes.push(0x3b);
    let (rest, (header, table)) = Header::parse(&bytes).unwrap();
    assert_eq!(
        header,
        Header {
            version: Version::V87a,
            width: 0x1234,
            height: 0xabcd,
            has_global_color_table: true,
            color_resolution: 5,
            bg_color_index: 7,
        }
    );
    // 2^(2 + 1) entries
    assert_eq!(table.unwrap().len(), 8);
    assert_eq!(rest, &[0x3b][..]);
}

#[test]
fn largest_global_color_table() {
    let mut bytes = b"GIF89a".to_vec();
    bytes.extend_from_slice(&[1, 0, 1, 0, 0x87, 0, 0]);
    bytes.extend_from_slice(&[5; 768]);
    let (rest, (_, table)) = Header::parse(&bytes).unwrap();
    assert_eq!(table.unwrap().len(), 256);
    assert_eq!(rest, &[][..]);
    bytes.pop();
    assert_eq!(Header::parse(&bytes), Err(ParseError::UnexpectedEndOfFile));
}

#[test]
fn truncated_header() {
    for n in 0..13 {
        assert_eq!(Header::parse(&MINIMAL[..n]), Err(ParseError::UnexpectedEndOfFile), "{}", n);
    }
    assert!(Header::parse(&MINIMAL[..13]).is_ok());
}

#[test]
fn truncated_global_color_table() {
    for n in 13..19 {
        assert_eq!(Header::parse(&WITH_IMAGE[..n]), Err(ParseError::UnexpectedEndOfFile));
    }
    assert!(Header::parse(&WITH_IMAGE[..19]).is_ok());
}

#[test]
fn bad_magic() {
    assert_eq!(
        Header::parse(b"GIX89a\x01\x00\x01\x00\x00\x00\x00"),
        Err(ParseError::InvalidFileSignature(*b"GIX"))
    );
    assert_eq!(Header::parse(b"BM6"), Err(ParseError::InvalidFileSignature(*b"BM6")));
}

#[test]
fn bad_version() {
    assert_eq!(
        Header::parse(b"GIF88a\x01\x00\x01\x00\x00\x00\x00"),
        Err(ParseError::InvalidFileSignature(*b"GIF"))
    );
    assert_eq!(Header::parse(b"GIF89"), Err(ParseError::UnexpectedEndOfFile));
}

#[test]
fn raw_gif_keeps_the_segments() {
    let raw = RawGif::from_slice(&WITH_IMAGE).unwrap();
    assert_eq!(raw.header.width, 1);
    assert_eq!(raw.global_color_table.unwrap().len(), 2);
    assert_eq!(raw.image_data, &WITH_IMAGE[19..]);
    assert_eq!(RawGif::from_slice(&WITH_IMAGE[..5]), Err(ParseError::UnexpectedEndOfFile));
}
