use bitcoin_codec::little_endian::{push_le, read_le};

#[test]
fn push_le_appends_the_low_bytes_first() {
    let mut out = vec![0xEE];
    push_le(&mut out, 0x0102_0304_0506_0708, 8);
    assert_eq!(out, vec![0xEE, 8, 7, 6, 5, 4, 3, 2, 1]);
}

#[test]
fn push_le_keeps_only_the_width_asked_for() {
    let mut out = Vec::new();
    push_le(&mut out, 0x0102_0304, 2);
    assert_eq!(out, vec![0x04, 0x03]);
    push_le(&mut out, 0xFF, 0);
    assert_eq!(out, vec![0x04, 0x03]);
    push_le(&mut out, 1, 4);
    assert_eq!(out, vec![0x04, 0x03, 1, 0, 0, 0]);
}

#[test]
fn read_le_reads_a_field_in_the_middle() {
    let bytes = [0xAA, 0x34, 0x12, 0xBB];
    assert_eq!(read_le(&bytes, 1, 2), 0x1234);
    assert_eq!(read_le(&bytes, 0, 4), 0xBB12_34AA);
    assert_eq!(read_le(&bytes, 4, 0), 0);
}

#[test]
fn read_le_reads_the_largest_value() {
    assert_eq!(read_le(&[0xFF; 8], 0, 8), u64::MAX);
}

#[test]
fn read_le_undoes_push_le() {
    for value in [0u64, 1, 0xFF, 0x100, 0xDEAD_BEEF, u64::MAX] {
        let mut out = Vec::new();
        push_le(&mut out, value, 8);
        assert_eq!(read_le(&out, 0, 8), value);
    }
}
