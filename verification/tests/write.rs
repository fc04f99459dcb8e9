use zfmt::write::{Error, FixedBuf, Write};

#[test]
fn fixed_buf_basic() {
    let mut buf = FixedBuf::<16>::new();
    buf.write_str("hello").unwrap();
    buf.write_char(' ').unwrap();
    buf.write_str("world").unwrap();
    assert_eq!(buf.as_str(), "hello world");
}

#[test]
fn fixed_buf_overflow() {
    let mut buf = FixedBuf::<4>::new();
    buf.write_str("abc").unwrap();
    assert_eq!(buf.write_str("de"), Err(Error));
    assert_eq!(buf.as_str(), "abc");
}

#[test]
fn fixed_buf_clear_and_len() {
    let mut buf = FixedBuf::<8>::new();
    assert!(buf.is_empty());
    buf.write_str("abcd").unwrap();
    assert_eq!(buf.len(), 4);
    assert_eq!(buf.as_slice(), b"abcd");
    buf.clear();
    assert!(buf.is_empty());
    assert_eq!(buf.write_str("123456789"), Err(Error));
    assert_eq!(buf.write_str("12345678"), Ok(()));
}
