use rdb::coding::{decode_u16, decode_u32, encode_u16, encode_u32};

#[test]
fn test_encode_u16() {
    let bytes = encode_u16(0xAABB);
    assert_eq!(bytes, vec![0xBB, 0xAA]);
}

#[test]
fn test_encode_u32() {
    let bytes = encode_u32(0xAABBCCDD);
    assert_eq!(bytes, vec![0xDD, 0xCC, 0xBB, 0xAA]);
}

#[test]
fn test_decode_u16() {
    let value = decode_u16(&vec![0xAA, 0xBB]);
    assert_eq!(value, 0xBBAA);
}

#[test]
fn test_decode_u32() {
    let value = decode_u32(&vec![0xAA, 0xBB, 0xCC, 0xDD]);
    assert_eq!(value, 0xDDCCBBAA);
}

#[test]
fn test_encoding_module_encode_u32() {
    let bytes = rdb::encoding::encode_u32(0x01020304);
    assert_eq!(bytes, vec![0x04, 0x03, 0x02, 0x01]);
}

#[test]
fn test_put_roundtrip() {
    let mut buf = vec![0u8; 4];
    rdb::coding::put_u32(0xDEADBEEF, &mut buf);
    assert_eq!(rdb::coding::decode_u32(&buf), 0xDEADBEEF);

    let mut buf2 = vec![0u8; 2];
    rdb::coding::put_u16(0x1234, &mut buf2);
    assert_eq!(rdb::coding::decode_u16(&buf2), 0x1234);
}
