use oxidado::text::{bytes_eq, encode_u32, parse_u32, split_first, split_first_two};

#[test]
fn encodes_numbers_in_decimal() {
    assert_eq!(encode_u32(0), b"0".to_vec());
    assert_eq!(encode_u32(7), b"7".to_vec());
    assert_eq!(encode_u32(120), b"120".to_vec());
    assert_eq!(encode_u32(4294967295), b"4294967295".to_vec());
}

#[test]
fn parses_numbers_as_str_parse_does() {
    assert_eq!(parse_u32(b"42"), Some(42));
    assert_eq!(parse_u32(b"+7"), Some(7));
    assert_eq!(parse_u32(b"007"), Some(7));
    assert_eq!(parse_u32(b"4294967295"), Some(4294967295));
    assert_eq!(parse_u32(b""), None);
    assert_eq!(parse_u32(b"+"), None);
    assert_eq!(parse_u32(b"-1"), None);
    assert_eq!(parse_u32(b"12a"), None);
    assert_eq!(parse_u32(b" 1"), None);
    assert_eq!(parse_u32(b"4294967296"), None);
    assert_eq!(parse_u32(b"99999999999999999999"), None);
}

#[test]
fn parse_agrees_with_std() {
    for text in ["0", "15", "+3", "-3", "", "+", "4294967295", "4294967296", "1x", "00"] {
        assert_eq!(parse_u32(text.as_bytes()), text.parse::<u32>().ok(), "{}", text);
    }
}

#[test]
fn decimal_text_reads_back() {
    for n in [0u32, 1, 9, 10, 99, 100, 65535, 4294967295] {
        assert_eq!(parse_u32(&encode_u32(n)), Some(n));
    }
}

#[test]
fn splits_like_str_split() {
    assert_eq!(split_first_two(b"3:Oxidado", b':'), Some((b"3".to_vec(), b"Oxidado".to_vec())));
    assert_eq!(split_first_two(b"3:a:b", b':'), Some((b"3".to_vec(), b"a".to_vec())));
    assert_eq!(split_first_two(b":", b':'), Some((Vec::new(), Vec::new())));
    assert_eq!(split_first_two(b"abc", b':'), None);
    assert_eq!(split_first(b"5 de Copas", b' '), b"5".to_vec());
    assert_eq!(split_first(b"Copas", b' '), b"Copas".to_vec());
    assert_eq!(split_first(b"", b' '), Vec::<u8>::new());
}

#[test]
fn compares_bytes() {
    assert!(bytes_eq(b"hablada", b"hablada"));
    assert!(!bytes_eq(b"hablada", b"hablad"));
    assert!(!bytes_eq(b"hablada", b"Hablada"));
    assert!(bytes_eq(b"", b""));
}
