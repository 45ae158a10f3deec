use tinygif::{Area, Frame, Gif, ParseError, Pixel, Rgb, Segment};

const MINIMAL: [u8; 14] = [
    0x47, 0x49, 0x46, 0x38, 0x39, 0x61, 0x01, 0x00, 0x01, 0x00, 0x00, 0x00, 0x00, 0x3B,
];

const NO_GCE: [u8; 35] = [
    0x47, 0x49, 0x46, 0x38, 0x39, 0x61, 0x01, 0x00, 0x01, 0x00, 0x80, 0x00, 0x00, 0x00, 0x00, 0x00,
    0xFF, 0xFF, 0xFF, 0x2C, 0x00, 0x00, 0x00, 0x00, 0x01, 0x00, 0x01, 0x00, 0x00, 0x02, 0x02, 0x44,
    0x01, 0x00, 0x3B,
];

const HEAD: [u8; 19] = [
    0x47, 0x49, 0x46, 0x38, 0x39, 0x61, 0x01, 0x00, 0x01, 0x00, 0x80, 0x00, 0x00, 0x00, 0x00, 0x00,
    0x00, 0x00, 0x00,
];
const GCE: [u8; 8] = [0x21, 0xF9, 0x04, 0x00, 0x0A, 0x00, 0x00, 0x00];
const IMAGE: [u8; 15] = [
    0x2C, 0x00, 0x00, 0x00, 0x00, 0x01, 0x00, 0x01, 0x00, 0x00, 0x02, 0x02, 0x44, 0x01, 0x00,
];

fn gce_and_image() -> Vec<u8> {
    let mut file = HEAD.to_vec();
    file.extend_from_slice(&GCE);
    file.extend_from_slice(&IMAGE);
    file.push(0x3B);
    file
}

fn frames_of<'a>(gif: &'a Gif<'a>) -> Vec<Frame<'a>> {
    let mut frames = gif.frames();
    let mut out = Vec::new();
    while let Some(frame) = frames.next() {
        out.push(frame);
    }
    assert!(frames.next().is_none());
    out
}

fn draw(frame: &Frame) -> Vec<Pixel> {
    let mut pixels = frame.pixels();
    let mut out = Vec::new();
    while let Some(pixel) = pixels.next() {
        out.push(pixel);
    }
    assert_eq!(pixels.next(), None);
    out
}

/// A file of one frame per entry: a global table of four colors, then for
/// each frame a graphic control extension and an image whose data are one
/// sub-block.
fn file_with(width: u16, height: u16, frames: &[(u8, u16, Vec<u8>)]) -> Vec<u8> {
    let mut file = b"GIF89a".to_vec();
    file.extend_from_slice(&width.to_le_bytes());
    file.extend_from_slice(&height.to_le_bytes());
    file.extend_from_slice(&[0x81, 0, 0]);
    file.extend_from_slice(&[0, 0, 0, 255, 0, 0, 0, 255, 0, 0, 0, 255]);
    for (flags, delay, data) in frames {
        file.extend_from_slice(&[0x21, 0xF9, 0x04, *flags]);
        file.extend_from_slice(&delay.to_le_bytes());
        file.extend_from_slice(&[0x02, 0x00]);
        file.push(0x2C);
        file.extend_from_slice(&[0, 0, 0, 0]);
        file.extend_from_slice(&width.to_le_bytes());
        file.extend_from_slice(&height.to_le_bytes());
        file.extend_from_slice(&[0x00, 0x02, data.len() as u8]);
        file.extend_from_slice(data);
        file.push(0x00);
    }
    file.push(0x3B);
    file
}

/// clear, 1, 2, 3, 0, end
const FOUR_INDICES: [u8; 3] = [0x8c, 0x06, 0x05];

#[test]
fn minimal_empty_gif() {
    let gif = Gif::from_slice(&MINIMAL).unwrap();
    assert_eq!(gif.width(), 1);
    assert_eq!(gif.height(), 1);
    assert_eq!(frames_of(&gif).len(), 0);
    assert_eq!(gif.frames().count(), 0);
    // the trailer parses without error
    let (rest, (header, table)) = tinygif::Header::parse(&MINIMAL).unwrap();
    assert!(!header.has_global_color_table);
    assert!(table.is_none());
    assert_eq!(Segment::parse(rest), Ok((&[][..], Segment::Trailer)));
}

#[test]
fn image_without_graphic_control_is_no_frame() {
    let gif = Gif::from_slice(&NO_GCE).unwrap();
    assert_eq!(gif.width(), 1);
    assert_eq!(gif.height(), 1);
    assert_eq!(gif.frames().count(), 0);
    assert!(gif.frames().next().is_none());
}

#[test]
fn graphic_control_and_image_make_one_frame() {
    let file = gce_and_image();
    let gif = Gif::from_slice(&file).unwrap();
    let frames = frames_of(&gif);
    assert_eq!(frames.len(), 1);
    assert_eq!(gif.frames().count(), 1);
    let frame = &frames[0];
    assert_eq!(frame.delay_centis, 10);
    assert!(!frame.is_transparent);
    assert_eq!(frame.transparent_color_index, 0);
    assert_eq!(frame.frame_index, 0);
    assert_eq!(frame.header.width, 1);
    assert_eq!(frame.raw_data, &IMAGE[..]);
    assert_eq!(draw(frame), vec![Pixel { x: 0, y: 0, color: Rgb { r: 0, g: 0, b: 0 } }]);
}

#[test]
fn truncated_file() {
    let file = gce_and_image();
    for n in 0..13 {
        assert_eq!(Gif::from_slice(&file[..n]).err(), Some(ParseError::UnexpectedEndOfFile));
    }
}

#[test]
fn trailing_garbage() {
    let mut file = gce_and_image();
    file.push(0x00);
    let gif = Gif::from_slice(&file).unwrap();
    // the segment parser reports the junk
    let mut rest = &file[19..];
    let mut last = None;
    while last.is_none() {
        match Segment::parse(rest) {
            Ok((next, _)) => rest = next,
            Err(e) => last = Some(e),
        }
    }
    assert_eq!(last, Some(ParseError::JunkAfterTrailerByte));
    // the frame before it is kept
    let frames = frames_of(&gif);
    assert_eq!(frames.len(), 1);
    assert_eq!(frames[0].delay_centis, 10);
    assert_eq!(frames[0].raw_data, &IMAGE[..]);
    assert_eq!(draw(&frames[0]).len(), 1);
}

#[test]
fn missing_trailer_ends_the_frames() {
    let mut file = gce_and_image();
    file.pop();
    let gif = Gif::from_slice(&file).unwrap();
    let frames = frames_of(&gif);
    assert_eq!(frames.len(), 1);
    assert_eq!(frames[0].raw_data, &IMAGE[..]);

    // a second image that is cut short belongs to no frame
    file.extend_from_slice(&IMAGE[..9]);
    let gif = Gif::from_slice(&file).unwrap();
    let frames = frames_of(&gif);
    assert_eq!(frames.len(), 1);
    assert_eq!(frames[0].raw_data, &IMAGE[..]);
}

#[test]
fn frames_are_counted_by_their_graphic_controls() {
    let file = file_with(
        2,
        2,
        &[
            (0, 5, FOUR_INDICES.to_vec()),
            (1, 6, FOUR_INDICES.to_vec()),
            (0, 7, FOUR_INDICES.to_vec()),
        ],
    );
    let gif = Gif::from_slice(&file).unwrap();
    let frames = frames_of(&gif);
    assert_eq!(frames.len(), 3);
    assert_eq!(gif.frames().count(), 3);
    for (i, frame) in frames.iter().enumerate() {
        assert_eq!(frame.frame_index, i);
        assert_eq!(frame.delay_centis, 5 + i as u16);
        assert_eq!(frame.is_transparent, i == 1);
        assert_eq!(frame.transparent_color_index, 2);
        assert_eq!(frame.raw_data.len(), 16);
        assert_eq!(frame.raw_data[0], 0x2C);
    }
    // counting from the middle
    let mut rest = gif.frames();
    assert!(rest.next().is_some());
    assert_eq!(rest.count(), 2);
}

#[test]
fn extensions_between_control_and_image_belong_to_the_frame() {
    let mut file = HEAD.to_vec();
    file.extend_from_slice(&[0x21, 0xFE, 0x01, b'a', 0x00]);
    file.extend_from_slice(&GCE);
    file.extend_from_slice(&[0x21, 0xFE, 0x01, b'b', 0x00]);
    file.extend_from_slice(&IMAGE);
    file.extend_from_slice(&[0x21, 0xFE, 0x01, b'c', 0x00]);
    file.extend_from_slice(&GCE);
    file.extend_from_slice(&IMAGE);
    file.push(0x3B);
    let gif = Gif::from_slice(&file).unwrap();
    let frames = frames_of(&gif);
    assert_eq!(frames.len(), 2);
    assert_eq!(frames[0].raw_data.len(), 5 + 15 + 5);
    assert_eq!(frames[0].raw_data, &file[32..57]);
    assert_eq!(frames[1].raw_data, &IMAGE[..]);
    assert_eq!(draw(&frames[0]).len(), 1);
    assert_eq!(draw(&frames[1]).len(), 1);
}

#[test]
fn two_graphic_controls_in_a_row() {
    let mut file = HEAD.to_vec();
    file.extend_from_slice(&GCE);
    file.extend_from_slice(&GCE);
    file.extend_from_slice(&IMAGE);
    file.push(0x3B);
    let gif = Gif::from_slice(&file).unwrap();
    let frames = frames_of(&gif);
    assert_eq!(frames.len(), 2);
    assert_eq!(frames[0].raw_data, &[][..]);
    assert_eq!(draw(&frames[0]), vec![]);
    assert_eq!(frames[1].raw_data, &IMAGE[..]);
}

#[test]
fn an_invalid_segment_ends_the_frames() {
    let mut file = HEAD.to_vec();
    file.extend_from_slice(&GCE);
    file.extend_from_slice(&IMAGE);
    file.push(0x99);
    file.extend_from_slice(&GCE);
    file.extend_from_slice(&IMAGE);
    file.push(0x3B);
    let gif = Gif::from_slice(&file).unwrap();
    let frames = frames_of(&gif);
    assert_eq!(frames.len(), 1);
    assert_eq!(frames[0].raw_data, &IMAGE[..]);

    let mut file = HEAD.to_vec();
    file.push(0x99);
    file.extend_from_slice(&GCE);
    let gif = Gif::from_slice(&file).unwrap();
    assert_eq!(gif.frames().count(), 0);
}

#[test]
fn pixels_come_row_by_row() {
    let file = file_with(2, 2, &[(0, 0, FOUR_INDICES.to_vec())]);
    let gif = Gif::from_slice(&file).unwrap();
    let frames = frames_of(&gif);
    let red = Rgb { r: 255, g: 0, b: 0 };
    let green = Rgb { r: 0, g: 255, b: 0 };
    let blue = Rgb { r: 0, g: 0, b: 255 };
    let black = Rgb { r: 0, g: 0, b: 0 };
    assert_eq!(
        draw(&frames[0]),
        vec![
            Pixel { x: 0, y: 0, color: red },
            Pixel { x: 1, y: 0, color: green },
            Pixel { x: 0, y: 1, color: blue },
            Pixel { x: 1, y: 1, color: black },
        ]
    );
}

#[test]
fn the_transparent_index_is_not_drawn() {
    let file = file_with(2, 2, &[(1, 0, FOUR_INDICES.to_vec())]);
    let gif = Gif::from_slice(&file).unwrap();
    let frames = frames_of(&gif);
    let pixels = draw(&frames[0]);
    assert_eq!(pixels.len(), 3);
    // the indices are 1 2 3 0, and 2 is transparent
    assert_eq!(pixels.iter().map(|p| (p.x, p.y)).collect::<Vec<_>>(), vec![(0, 0), (0, 1), (1, 1)]);
}

#[test]
fn image_position_offsets_the_pixels() {
    let mut file = HEAD.to_vec();
    file.extend_from_slice(&GCE);
    // left 3, top 5, width 2, height 2, local table of four colors
    file.extend_from_slice(&[0x2C, 3, 0, 5, 0, 2, 0, 2, 0, 0x81]);
    file.extend_from_slice(&[10, 11, 12, 20, 21, 22, 30, 31, 32, 40, 41, 42]);
    file.extend_from_slice(&[0x02, 0x03]);
    file.extend_from_slice(&FOUR_INDICES);
    file.extend_from_slice(&[0x00, 0x3B]);
    let gif = Gif::from_slice(&file).unwrap();
    let frames = frames_of(&gif);
    assert_eq!(
        draw(&frames[0]),
        vec![
            Pixel { x: 3, y: 5, color: Rgb { r: 20, g: 21, b: 22 } },
            Pixel { x: 4, y: 5, color: Rgb { r: 30, g: 31, b: 32 } },
            Pixel { x: 3, y: 6, color: Rgb { r: 40, g: 41, b: 42 } },
            Pixel { x: 4, y: 6, color: Rgb { r: 10, g: 11, b: 12 } },
        ]
    );
    for pixel in draw(&frames[0]) {
        assert!(3 <= pixel.x && pixel.x < 3 + 2);
        assert!(5 <= pixel.y && pixel.y < 5 + 2);
    }
}

#[test]
fn without_a_local_table_the_global_one_is_used() {
    let file = gce_and_image();
    let gif = Gif::from_slice(&file).unwrap();
    let frames = frames_of(&gif);
    assert!(frames[0].global_color_table.is_some());
    assert_eq!(draw(&frames[0])[0].color, Rgb { r: 0, g: 0, b: 0 });
}

#[test]
fn without_any_color_table_nothing_is_drawn() {
    let mut file = MINIMAL[..13].to_vec();
    file.extend_from_slice(&GCE);
    file.extend_from_slice(&IMAGE);
    file.push(0x3B);
    let gif = Gif::from_slice(&file).unwrap();
    let frames = frames_of(&gif);
    assert_eq!(frames.len(), 1);
    assert!(frames[0].global_color_table.is_none());
    assert_eq!(draw(&frames[0]), vec![]);
}

#[test]
fn an_index_past_the_color_table_is_not_drawn() {
    // the table of the file has two colors; the indices are 1 2 3 0
    let mut file = HEAD.to_vec();
    file.extend_from_slice(&GCE);
    file.extend_from_slice(&[0x2C, 0, 0, 0, 0, 2, 0, 2, 0, 0x00, 0x02, 0x03]);
    file.extend_from_slice(&FOUR_INDICES);
    file.extend_from_slice(&[0x00, 0x3B]);
    let gif = Gif::from_slice(&file).unwrap();
    let frames = frames_of(&gif);
    let pixels = draw(&frames[0]);
    assert_eq!(pixels.iter().map(|p| (p.x, p.y)).collect::<Vec<_>>(), vec![(0, 0), (1, 1)]);
}

#[test]
fn images_that_cannot_be_decoded_are_skipped() {
    for (width, min_code_size) in [(0u8, 2u8), (1, 1), (1, 9), (1, 0), (1, 255)] {
        let mut file = HEAD.to_vec();
        file.extend_from_slice(&GCE);
        file.extend_from_slice(&[0x2C, 0, 0, 0, 0, width, 0, 1, 0, 0x00, min_code_size]);
        file.extend_from_slice(&[0x02, 0x44, 0x01, 0x00]);
        file.extend_from_slice(&IMAGE);
        file.push(0x3B);
        let gif = Gif::from_slice(&file).unwrap();
        let frames = frames_of(&gif);
        assert_eq!(frames.len(), 1);
        // only the second image is drawn
        assert_eq!(draw(&frames[0]), vec![Pixel { x: 0, y: 0, color: Rgb { r: 0, g: 0, b: 0 } }]);
    }
}

#[test]
fn an_invalid_code_ends_the_image() {
    // clear, 1, 7: the third code is above the next one to be assigned
    let file = file_with(2, 2, &[(0, 0, vec![0xcc, 0x01]), (0, 0, FOUR_INDICES.to_vec())]);
    let gif = Gif::from_slice(&file).unwrap();
    let frames = frames_of(&gif);
    assert_eq!(frames.len(), 2);
    assert_eq!(draw(&frames[0]).len(), 1);
    assert_eq!(draw(&frames[1]).len(), 4);
}

#[test]
fn drawing_within_an_area() {
    let file = file_with(2, 2, &[(0, 0, FOUR_INDICES.to_vec())]);
    let gif = Gif::from_slice(&file).unwrap();
    let frames = frames_of(&gif);
    let collect = |area: Area| {
        let mut pixels = frames[0].pixels_within(area);
        let mut out = Vec::new();
        while let Some(pixel) = pixels.next() {
            out.push((pixel.x, pixel.y));
        }
        out
    };
    assert_eq!(
        collect(Area { left: 0, top: 0, width: 2, height: 2 }),
        vec![(0, 0), (1, 0), (0, 1), (1, 1)]
    );
    assert_eq!(collect(Area { left: 1, top: 0, width: 1, height: 2 }), vec![(1, 0), (1, 1)]);
    assert_eq!(collect(Area { left: 0, top: 1, width: 5, height: 5 }), vec![(0, 1), (1, 1)]);
    assert_eq!(collect(Area { left: -3, top: -3, width: 4, height: 4 }), vec![(0, 0)]);
    assert_eq!(collect(Area { left: 0, top: 0, width: 0, height: 2 }), vec![]);
    assert_eq!(collect(Area { left: 2, top: 2, width: 2, height: 2 }), vec![]);
}

#[test]
fn a_frame_can_be_drawn_again() {
    let file = file_with(2, 2, &[(0, 0, FOUR_INDICES.to_vec())]);
    let gif = Gif::from_slice(&file).unwrap();
    let frames = frames_of(&gif);
    assert_eq!(draw(&frames[0]), draw(&frames[0]));
}
