use tinygif::{ByteSource, LenPrefixRawDataView};

fn drain(data: &[u8]) -> Vec<u8> {
    let mut view = LenPrefixRawDataView::new(data);
    let mut out = Vec::new();
    while let Some(b) = view.next() {
        out.push(b);
    }
    // the end, once reached, stays reached
    assert_eq!(view.next(), None);
    assert_eq!(view.next(), None);
    out
}

#[test]
fn empty_chain_emits_nothing() {
    assert_eq!(drain(&[0]), Vec::<u8>::new());
}

#[test]
fn empty_chain_ignores_what_follows_the_terminator() {
    assert_eq!(drain(&[0, 1, 2, 3]), Vec::<u8>::new());
}

#[test]
fn one_block() {
    assert_eq!(drain(&[3, 10, 20, 30, 0]), vec![10, 20, 30]);
}

#[test]
fn several_blocks_are_joined() {
    assert_eq!(drain(&[2, 1, 2, 1, 3, 3, 4, 5, 6, 0]), vec![1, 2, 3, 4, 5, 6]);
}

#[test]
fn reader_stops_at_the_terminator() {
    assert_eq!(drain(&[1, 9, 0, 2, 7, 7, 0]), vec![9]);
}

#[test]
fn emits_the_sum_of_the_length_prefixes() {
    let mut data = Vec::new();
    data.push(255u8);
    for i in 0..255u32 {
        data.push(i as u8);
    }
    data.push(7);
    for i in 0..7u8 {
        data.push(100 + i);
    }
    data.push(1);
    data.push(42);
    data.push(0);
    let out = drain(&data);
    assert_eq!(out.len(), 255 + 7 + 1);
    assert_eq!(out[0], 0);
    assert_eq!(out[254], 254);
    assert_eq!(out[255], 100);
    assert_eq!(out[262], 42);
}
