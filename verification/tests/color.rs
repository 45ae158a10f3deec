use tinygif::{ColorTable, Rgb};

#[test]
fn color_table_len_counts_whole_entries() {
    assert_eq!(ColorTable::new(&[]).len(), 0);
    assert_eq!(ColorTable::new(&[1, 2, 3]).len(), 1);
    assert_eq!(ColorTable::new(&[1, 2, 3, 4, 5, 6]).len(), 2);
    assert_eq!(ColorTable::new(&[1, 2, 3, 4, 5]).len(), 1);
}

#[test]
fn color_table_get_reads_red_green_blue() {
    let table = ColorTable::new(&[0x11, 0x22, 0x33, 0xff, 0x00, 0x80]);
    assert_eq!(table.get(0), Some(Rgb { r: 0x11, g: 0x22, b: 0x33 }));
    assert_eq!(table.get(1), Some(Rgb { r: 0xff, g: 0x00, b: 0x80 }));
}

#[test]
fn color_table_get_is_bounds_checked() {
    let table = ColorTable::new(&[0x11, 0x22, 0x33, 0xff, 0x00, 0x80]);
    assert_eq!(table.get(2), None);
    assert_eq!(table.get(255), None);
    assert_eq!(ColorTable::new(&[]).get(0), None);
    // a trailing partial entry is no entry
    assert_eq!(ColorTable::new(&[1, 2, 3, 4]).get(1), None);
}

#[test]
fn color_table_get_is_a_function_of_the_bytes() {
    let bytes: Vec<u8> =
        (0..=255u32).flat_map(|i| [i as u8, (i * 3) as u8, (255 - i) as u8]).collect();
    let copy = bytes.clone();
    let a = ColorTable::new(&bytes);
    let b = ColorTable::new(&copy);
    assert_eq!(a.len(), 256);
    for i in 0..=255u8 {
        assert_eq!(a.get(i), Some(Rgb { r: i, g: i.wrapping_mul(3), b: 255 - i }));
        assert_eq!(a.get(i), a.get(i));
        assert_eq!(a.get(i), b.get(i));
    }
}
