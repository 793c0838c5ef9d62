use rafka::bigendian::{push_be, value_be};
use rafka::error::{Error, ErrorKind};
use rafka::text::{chars_of, decimal_text, digit_text, digits_text, hex2_text, parse_u64};

fn parse(s: &str) -> Option<u64> {
    let chars = chars_of(s);
    let end = chars.len();
    parse_u64(&chars, end)
}

#[test]
fn numbers_in_decimal() {
    assert_eq!(decimal_text(0), "0");
    assert_eq!(decimal_text(9), "9");
    assert_eq!(decimal_text(10), "10");
    assert_eq!(decimal_text(1_048_576), "1048576");
    assert_eq!(decimal_text(u64::MAX), "18446744073709551615");
}

#[test]
fn numbers_with_leading_zeros() {
    assert_eq!(digits_text(42, 5), "00042");
    assert_eq!(digits_text(123, 2), "23");
    assert_eq!(digits_text(7, 0), "");
}

#[test]
fn bytes_in_hexadecimal() {
    assert_eq!(hex2_text(0), "00");
    assert_eq!(hex2_text(0x0f), "0f");
    assert_eq!(hex2_text(0xa9), "a9");
    assert_eq!(hex2_text(255), "ff");
    assert_eq!(digit_text(11), "b");
}

#[test]
fn numbers_are_parsed() {
    assert_eq!(parse("0"), Some(0));
    assert_eq!(parse("00012"), Some(12));
    assert_eq!(parse("+12"), Some(12));
    assert_eq!(parse("18446744073709551615"), Some(u64::MAX));
    assert_eq!(parse("18446744073709551616"), None);
    assert_eq!(parse(""), None);
    assert_eq!(parse("+"), None);
    assert_eq!(parse("-1"), None);
    assert_eq!(parse("1x"), None);
    assert_eq!(parse("++1"), None);
    for s in ["0", "7", "+7", "", "+", "12a", " 1", "99999999999999999999", "٣"] {
        assert_eq!(parse(s), s.parse::<u64>().ok());
    }
    assert_eq!(parse_u64(&chars_of("123.log"), 3), Some(123));
}

#[test]
fn big_endian_bytes() {
    let mut buf = vec![9];
    push_be(&mut buf, 0x0102, 4);
    assert_eq!(buf, vec![9, 0, 0, 1, 2]);
    assert_eq!(value_be(&[1, 2, 3]), 0x010203);
    assert_eq!(value_be(&[]), 0);
    for v in [0u64, 1, 255, 256, 1 << 40, u64::MAX] {
        let mut bytes = Vec::new();
        push_be(&mut bytes, v, 8);
        assert_eq!(bytes, v.to_be_bytes());
        assert_eq!(value_be(&bytes), v);
    }
}

#[test]
fn errors_have_a_kind_and_a_message() {
    let e = Error::new(ErrorKind::InvalidInput, "no such thing");
    assert_eq!(e.kind, ErrorKind::InvalidInput);
    assert_eq!(e.message, "no such thing");
}
