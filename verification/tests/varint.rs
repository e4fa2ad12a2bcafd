use chunkstream::varint::{read_varint, write_varint};

#[test]
fn single_byte_values() {
    let mut out = Vec::new();
    write_varint(&mut out, 0);
    write_varint(&mut out, 1);
    write_varint(&mut out, 127);
    assert_eq!(out, vec![0x00, 0x01, 0x7F]);
    assert_eq!(read_varint(&out, 0), Some((0, 1)));
    assert_eq!(read_varint(&out, 1), Some((1, 2)));
    assert_eq!(read_varint(&out, 2), Some((127, 3)));
}

#[test]
fn multi_byte_value() {
    let mut out = Vec::new();
    write_varint(&mut out, 300);
    assert_eq!(out, vec![0xAC, 0x02]);
    assert_eq!(read_varint(&out, 0), Some((300, 2)));
}

#[test]
fn largest_value() {
    let mut out = Vec::new();
    write_varint(&mut out, u64::MAX);
    assert_eq!(out, vec![0xFF, 0xFF, 0xFF, 0xFF, 0xFF, 0xFF, 0xFF, 0xFF, 0xFF, 0x01]);
    assert_eq!(read_varint(&out, 0), Some((u64::MAX, 10)));
}

#[test]
fn truncated_integer() {
    assert_eq!(read_varint(&[], 0), None);
    assert_eq!(read_varint(&[0x80], 0), None);
    assert_eq!(read_varint(&[0xFF, 0xFF], 0), None);
}

#[test]
fn out_of_range_integer() {
    let bytes = [0xFFu8, 0xFF, 0xFF, 0xFF, 0xFF, 0xFF, 0xFF, 0xFF, 0xFF, 0x02];
    assert_eq!(read_varint(&bytes, 0), None);
}

#[test]
fn non_canonical_zero_still_reads() {
    // a redundant continuation byte is accepted: 0x80 0x00 is zero
    assert_eq!(read_varint(&[0x80, 0x00], 0), Some((0, 2)));
}
