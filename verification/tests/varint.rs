use bellwright_gold_editor::varint::{encode_varint, read_varint};

#[test]
fn varint_roundtrip() {
    for &v in &[
        0u64,
        1,
        127,
        128,
        316,
        2000,
        16383,
        16384,
        20000,
        999999,
        123456,
        u32::MAX as u64,
    ] {
        let bytes = encode_varint(v);
        let (decoded, consumed, len) = read_varint(&bytes, 0).expect("decode");
        assert_eq!(decoded, v, "value {v}");
        assert_eq!(consumed, bytes.len());
        assert_eq!(len, bytes.len());
    }
}

#[test]
fn varint_byte_widths() {
    assert_eq!(encode_varint(316), vec![0xbc, 0x02]); // 2 bytes
    assert_eq!(encode_varint(2000), vec![0xd0, 0x0f]); // 2 bytes
    assert_eq!(encode_varint(20000), vec![0xa0, 0x9c, 0x01]); // 3 bytes
    assert_eq!(encode_varint(50), vec![0x32]); // 1 byte
}

#[test]
fn truncated_varint_is_none() {
    assert!(read_varint(&[0x80], 0).is_none()); // continuation bit set, no more bytes
}

#[test]
fn varint_decodes_at_an_offset() {
    let buf = [0xff, 0xff, 0xa0, 0x9c, 0x01, 0x33];
    assert_eq!(read_varint(&buf, 2), Some((20000, 5, 3)));
    assert_eq!(read_varint(&buf, 5), Some((0x33, 6, 1)));
    assert_eq!(read_varint(&buf, 6), None);
}

#[test]
fn varint_roundtrip_inside_a_buffer() {
    let mut buf = vec![0x08, 0x01];
    buf.extend_from_slice(&encode_varint(123456789));
    buf.push(0x3a);
    assert_eq!(read_varint(&buf, 2), Some((123456789, buf.len() - 1, buf.len() - 3)));
}

#[test]
fn varint_widest_values() {
    let max = encode_varint(u64::MAX);
    assert_eq!(max.len(), 10);
    assert_eq!(max[9], 0x01);
    assert_eq!(read_varint(&max, 0), Some((u64::MAX, 10, 10)));
    assert_eq!(encode_varint(16383), vec![0xff, 0x7f]);
    assert_eq!(encode_varint(16384), vec![0x80, 0x80, 0x01]);
}

#[test]
fn varint_longer_than_ten_bytes_is_none() {
    let buf = [0x80u8; 11];
    assert_eq!(read_varint(&buf, 0), None);
    let mut eleven = vec![0x80u8; 10];
    eleven.push(0x01);
    assert_eq!(read_varint(&eleven, 0), None);
}
