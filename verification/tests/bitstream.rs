use tinygif::bitstream::BitStream;
use tinygif::LenPrefixRawDataView;

fn chain(bytes: &[u8]) -> Vec<u8> {
    let mut data = Vec::new();
    for block in bytes.chunks(255) {
        data.push(block.len() as u8);
        data.extend_from_slice(block);
    }
    data.push(0);
    data
}

#[test]
fn reads_bits_least_significant_first() {
    let data = chain(&[0b1010_0110]);
    let mut bs = BitStream::new(LenPrefixRawDataView::new(&data));
    assert_eq!(bs.next_bits(1), Some(0));
    assert_eq!(bs.next_bits(2), Some(0b11));
    assert_eq!(bs.next_bits(3), Some(0b100));
    assert_eq!(bs.next_bits(2), Some(0b10));
    assert_eq!(bs.next_bits(1), None);
}

#[test]
fn codes_cross_byte_boundaries() {
    let data = chain(&[0x44, 0x01]);
    let mut bs = BitStream::new(LenPrefixRawDataView::new(&data));
    assert_eq!(bs.next_bits(3), Some(4));
    assert_eq!(bs.next_bits(3), Some(0));
    assert_eq!(bs.next_bits(3), Some(5));
    assert_eq!(bs.next_bits(3), Some(0));
    assert_eq!(bs.next_bits(3), Some(0));
    assert_eq!(bs.next_bits(3), None);
}

#[test]
fn a_code_may_span_three_bytes() {
    let data = chain(&[0x80, 0xff, 0x01]);
    let mut bs = BitStream::new(LenPrefixRawDataView::new(&data));
    assert_eq!(bs.next_bits(7), Some(0));
    // bit 7 of the first byte, the whole second byte, bit 0 of the third
    assert_eq!(bs.next_bits(10), Some(0x3ff));
    assert_eq!(bs.next_bits(7), Some(0));
    assert_eq!(bs.next_bits(1), None);
}

#[test]
fn fifteen_bits_at_once() {
    let data = chain(&[0xff, 0xff, 0xab]);
    let mut bs = BitStream::new(LenPrefixRawDataView::new(&data));
    assert_eq!(bs.next_bits(15), Some(0x7fff));
    assert_eq!(bs.next_bits(9), Some(0x157));
    assert_eq!(bs.next_bits(1), None);
}

#[test]
fn whole_bytes() {
    let data = chain(&[0x12, 0x34, 0x56]);
    let mut bs = BitStream::new(LenPrefixRawDataView::new(&data));
    assert_eq!(bs.next_bits(8), Some(0x12));
    assert_eq!(bs.next_bits(8), Some(0x34));
    assert_eq!(bs.next_bits(8), Some(0x56));
    assert_eq!(bs.next_bits(8), None);
}

#[test]
fn empty_source_is_at_end() {
    let data = chain(&[]);
    let mut bs = BitStream::new(LenPrefixRawDataView::new(&data));
    assert_eq!(bs.next_bits(1), None);
    assert_eq!(bs.next_bits(15), None);
}

#[test]
fn a_partial_code_is_dropped() {
    let data = chain(&[0xff]);
    let mut bs = BitStream::new(LenPrefixRawDataView::new(&data));
    assert_eq!(bs.next_bits(5), Some(0x1f));
    // three bits are left, four are asked for
    assert_eq!(bs.next_bits(4), None);
}

#[test]
fn values_stay_below_two_to_the_width() {
    let bytes: Vec<u8> = (0..200u32).map(|i| (i * 37 + 11) as u8).collect();
    for n in 1..=15u8 {
        let data = chain(&bytes);
        let mut bs = BitStream::new(LenPrefixRawDataView::new(&data));
        let mut count = 0;
        while let Some(v) = bs.next_bits(n) {
            assert!((v as u32) < (1u32 << n));
            count += 1;
        }
        assert_eq!(count, 1600 / n as usize);
    }
}
