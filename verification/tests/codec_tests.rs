use rottnest::codec::{push_u64_le, read_u64_le};

#[test]
fn little_endian_round_trip() {
    let mut buf: Vec<u8> = Vec::new();
    push_u64_le(&mut buf, 0);
    push_u64_le(&mut buf, 1);
    push_u64_le(&mut buf, 0xDEAD_BEEF_CAFE_F00D);
    push_u64_le(&mut buf, u64::MAX);
    assert_eq!(buf.len(), 32);
    assert_eq!(read_u64_le(&buf, 0), 0);
    assert_eq!(read_u64_le(&buf, 8), 1);
    assert_eq!(read_u64_le(&buf, 16), 0xDEAD_BEEF_CAFE_F00D);
    assert_eq!(read_u64_le(&buf, 24), u64::MAX);
    assert_eq!(buf[8], 1);
    assert_eq!(buf[9], 0);
}
