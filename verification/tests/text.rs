use ayaya::text::{push_bytes, push_char, push_decimal, push_str, u8_decimal};

fn digits(n: u8) -> Vec<u8> {
    let mut buf = [0u8; 3];
    let len = u8_decimal(n, &mut buf);
    buf[..len].to_vec()
}

#[test]
fn u8_decimal_writes_digits_without_leading_zeros() {
    assert_eq!(digits(0), b"0".to_vec());
    assert_eq!(digits(7), b"7".to_vec());
    assert_eq!(digits(10), b"10".to_vec());
    assert_eq!(digits(99), b"99".to_vec());
    assert_eq!(digits(100), b"100".to_vec());
    assert_eq!(digits(208), b"208".to_vec());
    assert_eq!(digits(255), b"255".to_vec());
}

#[test]
fn u8_decimal_matches_to_string_for_every_byte() {
    for n in 0..=255u8 {
        assert_eq!(digits(n), n.to_string().into_bytes());
    }
}

#[test]
fn push_decimal_appends_digits() {
    let mut out = b"x=".to_vec();
    push_decimal(&mut out, 68865);
    assert_eq!(out, b"x=68865".to_vec());
    let mut out = Vec::new();
    push_decimal(&mut out, 0);
    assert_eq!(out, b"0".to_vec());
    let mut out = Vec::new();
    push_decimal(&mut out, u64::MAX);
    assert_eq!(out, u64::MAX.to_string().into_bytes());
}

#[test]
fn push_char_encodes_utf8() {
    for c in ['a', '\u{1b}', '\u{7f}', '\u{80}', 'é', '\u{7ff}', '\u{800}', '▓', '\u{ffff}', '\u{10000}', '😀', '\u{10ffff}'] {
        let mut out = vec![1u8];
        push_char(&mut out, c);
        let mut buf = [0u8; 4];
        let mut expected = vec![1u8];
        expected.extend_from_slice(c.encode_utf8(&mut buf).as_bytes());
        assert_eq!(out, expected);
    }
}

#[test]
fn push_str_appends_bytes() {
    let mut out = b"a".to_vec();
    push_str(&mut out, "b░c");
    assert_eq!(out, "ab░c".as_bytes().to_vec());
}

#[test]
fn u8_decimal_writes_into_the_caller_buffer() {
    let mut buf = [9u8; 3];
    assert_eq!(u8_decimal(42, &mut buf), 2);
    assert_eq!(&buf[..2], b"42");
    assert_eq!(u8_decimal(7, &mut buf), 1);
    assert_eq!(buf[0], b'7');
    assert_eq!(u8_decimal(201, &mut buf), 3);
    assert_eq!(buf, *b"201");
}

#[test]
fn push_bytes_appends_a_prefix() {
    let mut out = vec![1u8];
    push_bytes(&mut out, &[2, 3, 4], 2);
    assert_eq!(out, vec![1, 2, 3]);
}

#[test]
fn u8_decimal_leaves_the_rest_of_the_buffer() {
    let mut buf = *b"999";
    assert_eq!(u8_decimal(0, &mut buf), 1);
    assert_eq!(buf, *b"099");
    let mut buf = *b"777";
    assert_eq!(u8_decimal(42, &mut buf), 2);
    assert_eq!(buf, *b"427");
}
