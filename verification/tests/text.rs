use simple_nats::text::{bytes_eq, format_decimal, parse_decimal, split_fields};

#[test]
fn decimal_numbers() {
    assert_eq!(parse_decimal(b"0"), Some(0));
    assert_eq!(parse_decimal(b"5"), Some(5));
    assert_eq!(parse_decimal(b"1048576"), Some(1048576));
    assert_eq!(parse_decimal(b"+17"), Some(17));
    assert_eq!(parse_decimal(b"007"), Some(7));
    assert_eq!(parse_decimal(b""), None);
    assert_eq!(parse_decimal(b"+"), None);
    assert_eq!(parse_decimal(b"-1"), None);
    assert_eq!(parse_decimal(b"1 "), None);
    assert_eq!(parse_decimal(b"1x"), None);
    assert_eq!(parse_decimal(b"++1"), None);
    assert_eq!(parse_decimal(usize::MAX.to_string().as_bytes()), Some(usize::MAX));
    assert_eq!(parse_decimal(b"340282366920938463463374607431768211456"), None);
}

#[test]
fn decimal_digits_are_written() {
    assert_eq!(format_decimal(0), b"0");
    assert_eq!(format_decimal(9), b"9");
    assert_eq!(format_decimal(10), b"10");
    assert_eq!(format_decimal(1048576), b"1048576");
    assert_eq!(format_decimal(u64::MAX), u64::MAX.to_string().as_bytes());
    for n in [1usize, 42, 512, 65535, 99999] {
        assert_eq!(parse_decimal(&format_decimal(n as u64)), Some(n));
    }
}

#[test]
fn fields_of_a_line() {
    assert_eq!(split_fields(b"subject 5"), vec![b"subject".to_vec(), b"5".to_vec()]);
    assert_eq!(split_fields(b"  a   b  "), vec![b"a".to_vec(), b"b".to_vec()]);
    assert_eq!(split_fields(b"a\tb c"), vec![b"a\tb".to_vec(), b"c".to_vec()]);
    assert!(split_fields(b"").is_empty());
    assert!(split_fields(b"   ").is_empty());
}

#[test]
fn byte_strings_are_compared() {
    assert!(bytes_eq(b"", b""));
    assert!(bytes_eq(b"abc", b"abc"));
    assert!(!bytes_eq(b"abc", b"abd"));
    assert!(!bytes_eq(b"abc", b"ab"));
}
