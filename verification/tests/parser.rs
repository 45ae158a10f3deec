use tinygif::parser::{eat_len_prefixed_subblocks, le_u16, take, take1, take_slice};
use tinygif::ParseError;

#[test]
fn test_eat_len_prefixed_subblocks() {
    let input = b"\x02\x01\x02\x00";
    let input = eat_len_prefixed_subblocks(input).unwrap();
    assert_eq!(input, b"");

    let input = b"\x00\x01\x02\x00";
    let input = eat_len_prefixed_subblocks(input).unwrap();
    assert_eq!(input, b"\x01\x02\x00");
}

#[test]
fn eat_len_prefixed_subblocks_needs_terminator() {
    assert_eq!(eat_len_prefixed_subblocks(b""), Err(ParseError::UnexpectedEndOfFile));
    assert_eq!(eat_len_prefixed_subblocks(b"\x02\x01"), Err(ParseError::UnexpectedEndOfFile));
    assert_eq!(eat_len_prefixed_subblocks(b"\x01\x07"), Err(ParseError::UnexpectedEndOfFile));
}

#[test]
fn primitives_fail_on_short_input() {
    assert_eq!(take1(b""), Err(ParseError::UnexpectedEndOfFile));
    assert_eq!(take::<3>(b"GI"), Err(ParseError::UnexpectedEndOfFile));
    assert_eq!(take::<1>(b""), Err(ParseError::UnexpectedEndOfFile));
    assert_eq!(take_slice(b"", 1), Err(ParseError::UnexpectedEndOfFile));
    assert_eq!(take_slice(b"abc", 4), Err(ParseError::UnexpectedEndOfFile));
    assert_eq!(le_u16(b""), Err(ParseError::UnexpectedEndOfFile));
    assert_eq!(le_u16(b"\x01"), Err(ParseError::UnexpectedEndOfFile));
}

#[test]
fn primitives_return_value_and_tail() {
    assert_eq!(take1(b"\x07\x08"), Ok((&b"\x08"[..], 7)));
    assert_eq!(take::<3>(b"GIF89a"), Ok((&b"89a"[..], *b"GIF")));
    assert_eq!(take_slice(b"abcd", 3), Ok((&b"d"[..], &b"abc"[..])));
    assert_eq!(take_slice(b"abcd", 0), Ok((&b"abcd"[..], &b""[..])));
    assert_eq!(le_u16(b"\x34\x12\xff"), Ok((&b"\xff"[..], 0x1234)));
    assert_eq!(le_u16(b"\xff\xff"), Ok((&b""[..], 0xffff)));
}
