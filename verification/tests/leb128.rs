use zfmt::leb128::{decode, encode, encoded_len};

fn roundtrip(v: u64) {
    let mut buf = [0u8; 10];
    let n = encode(v, &mut buf);
    let (decoded, consumed) = decode(&buf[..n]).unwrap();
    assert_eq!(decoded, v, "roundtrip failed for {}", v);
    assert_eq!(consumed, n);
    assert_eq!(n, encoded_len(v));
}

#[test]
fn roundtrip_values() {
    for v in [0u64, 1, 127, 128, 255, 300, 16383, 16384, u32::MAX as u64, u64::MAX] {
        roundtrip(v);
    }
}

#[test]
fn single_byte_range() {
    let mut buf = [0u8; 1];
    assert_eq!(encode(0, &mut buf), 1);
    assert_eq!(buf[0], 0x00);
    assert_eq!(encode(127, &mut buf), 1);
    assert_eq!(buf[0], 0x7f);
}

#[test]
fn two_byte_128() {
    let mut buf = [0u8; 2];
    let n = encode(128, &mut buf);
    assert_eq!(n, 2);
    assert_eq!(&buf[..2], &[0x80, 0x01]);
}

#[test]
fn decode_truncated_returns_none() {
    assert_eq!(decode(&[0x80]), None);
}

#[test]
fn encoded_len_values() {
    assert_eq!(encoded_len(0), 1);
    assert_eq!(encoded_len(127), 1);
    assert_eq!(encoded_len(128), 2);
    assert_eq!(encoded_len(16383), 2);
    assert_eq!(encoded_len(16384), 3);
}

#[test]
fn leb128_ten_byte_maximum() {
    let mut buf = [0u8; 10];
    assert_eq!(encode(u64::MAX, &mut buf), 10);
    assert_eq!(buf[9], 0x01);
    assert_eq!(decode(&buf), Some((u64::MAX, 10)));
}
