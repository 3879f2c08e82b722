use minix_fs::text::{
    next_word, parse_unsigned_str, push_decimal, push_utf8_or_invalid, valid_utf8, white_space,
};

#[test]
fn parse_unsigned_str_reads_decimal_numbers() {
    assert_eq!(parse_unsigned_str("0", 10), Some(0));
    assert_eq!(parse_unsigned_str("10", 10), Some(10));
    assert_eq!(parse_unsigned_str("11", 10), None);
    assert_eq!(parse_unsigned_str("+42", 100), Some(42));
    assert_eq!(parse_unsigned_str("4 2", 100), None);
    assert_eq!(parse_unsigned_str("", 100), None);
    assert_eq!(parse_unsigned_str("١", 100), None);
    assert_eq!(parse_unsigned_str("18446744073709551616", usize::MAX), None);
    assert_eq!(parse_unsigned_str("4096", usize::MAX), Some(4096));
}

#[test]
fn push_decimal_writes_digits() {
    let mut v = b"n=".to_vec();
    push_decimal(&mut v, 0);
    assert_eq!(v, b"n=0");
    let mut w = Vec::new();
    push_decimal(&mut w, 32768);
    assert_eq!(w, b"32768");
}

#[test]
fn next_word_skips_white_space() {
    let s = " \tget\u{3000}a/b  ";
    let n = s.chars().count();
    assert_eq!(next_word(s, n, 0), Some((2, 5)));
    assert_eq!(next_word(s, n, 5), Some((6, 9)));
    assert_eq!(next_word(s, n, 9), None);
    assert!(white_space('\u{85}'));
    assert!(!white_space('x'));
}

#[test]
fn valid_utf8_follows_the_standard() {
    let cases: Vec<Vec<u8>> = vec![
        b"plain".to_vec(),
        "é漢字🎉".as_bytes().to_vec(),
        vec![0xC0, 0x80],
        vec![0xE0, 0x80, 0x80],
        vec![0xED, 0xA0, 0x80],
        vec![0xF4, 0x90, 0x80, 0x80],
        vec![0xF0, 0x9F, 0x8E],
        vec![0x80],
        vec![0xFF],
        vec![],
    ];
    for c in &cases {
        assert_eq!(valid_utf8(c), std::str::from_utf8(c).is_ok(), "{c:?}");
        let mut out = b">".to_vec();
        push_utf8_or_invalid(&mut out, c);
        let expected = std::str::from_utf8(c).unwrap_or("<invalid utf8>");
        assert_eq!(&out[1..], expected.as_bytes());
    }
}
