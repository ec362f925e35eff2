use memtrack::text::{
    copy_range, digit_to_char, from_chars, hex_digit, is_whitespace, line_end, parse_uint,
    push_chars, push_uint, split_whitespace, to_chars,
};

fn words_of(line: &str) -> Vec<String> {
    split_whitespace(&to_chars(line)).iter().map(|w| from_chars(w)).collect()
}

fn read(token: &str, radix: u128, max: u128) -> Option<u128> {
    parse_uint(&to_chars(token), radix, max)
}

fn written(n: u128, radix: u128) -> String {
    let mut out = String::new();
    push_uint(&mut out, n, radix);
    out
}

#[test]
fn whitespace_is_the_unicode_set() {
    for c in [' ', '\t', '\n', '\u{b}', '\u{c}', '\r', '\u{85}', '\u{a0}', '\u{1680}', '\u{2000}',
        '\u{200a}', '\u{2028}', '\u{2029}', '\u{202f}', '\u{205f}', '\u{3000}']
    {
        assert!(is_whitespace(c), "{:?}", c);
        assert_eq!(is_whitespace(c), c.is_whitespace());
    }
    for c in ['a', '0', '+', '-', '\u{8}', '\u{e}', '\u{200b}', '\u{feff}', '\u{2060}'] {
        assert!(!is_whitespace(c), "{:?}", c);
        assert_eq!(is_whitespace(c), c.is_whitespace());
    }
}

#[test]
fn split_drops_empty_pieces() {
    assert_eq!(words_of("  t 1a\t2b \n"), vec!["t", "1a", "2b"]);
    assert_eq!(words_of(""), Vec::<String>::new());
    assert_eq!(words_of(" \n\t "), Vec::<String>::new());
    assert_eq!(words_of("one"), vec!["one"]);
    assert_eq!(words_of("a\u{a0}b\u{3000}c"), vec!["a", "b", "c"]);
}

#[test]
fn split_agrees_with_std() {
    for line in ["+ 80 3 7f00\n", "x 8 /bin/cat", "   ", "a  b   c", "\ta\n", "é ü", "#comment here"] {
        let expected: Vec<String> = line.split_whitespace().map(|w| w.to_string()).collect();
        assert_eq!(words_of(line), expected);
    }
}

#[test]
fn parse_uint_reads_hex_and_decimal() {
    let max = u64::MAX as u128;
    assert_eq!(read("ff", 16, max), Some(255));
    assert_eq!(read("FF", 16, max), Some(255));
    assert_eq!(read("+ff", 16, max), Some(255));
    assert_eq!(read("000ff", 16, max), Some(255));
    assert_eq!(read("0", 16, max), Some(0));
    assert_eq!(read("80", 16, max), Some(128));
    assert_eq!(read("7fff5fbff8c0", 16, max), Some(0x7fff5fbff8c0));
    assert_eq!(read("100", 10, max), Some(100));
    assert_eq!(read("+100", 10, max), Some(100));
    assert_eq!(read("1500", 10, max), Some(1500));
}

#[test]
fn parse_uint_refuses_what_is_no_number() {
    let max = u64::MAX as u128;
    assert_eq!(read("", 16, max), None);
    assert_eq!(read("+", 16, max), None);
    assert_eq!(read("-1", 16, max), None);
    assert_eq!(read("++1", 16, max), None);
    assert_eq!(read("1+", 16, max), None);
    assert_eq!(read("g", 16, max), None);
    assert_eq!(read("0x10", 16, max), None);
    assert_eq!(read("1a", 10, max), None);
    assert_eq!(read("12 ", 10, max), None);
}

#[test]
fn parse_uint_refuses_what_is_too_large() {
    assert_eq!(read("ffff", 16, 0xffff), Some(0xffff));
    assert_eq!(read("10000", 16, 0xffff), None);
    assert_eq!(read("65535", 10, 0xffff), Some(65535));
    assert_eq!(read("65536", 10, 0xffff), None);
    assert_eq!(read("ffffffffffffffffffffffffffffffff", 16, u128::MAX), Some(u128::MAX));
    assert_eq!(read("100000000000000000000000000000000", 16, u128::MAX), None);
    assert_eq!(read("340282366920938463463374607431768211455", 10, u128::MAX), Some(u128::MAX));
    assert_eq!(read("340282366920938463463374607431768211456", 10, u128::MAX), None);
    assert_eq!(read("0000000000000000000000000000000000000001", 16, 1), Some(1));
}

#[test]
fn parse_uint_agrees_with_std() {
    for token in ["0", "7", "ff", "+a", "-a", "", "+", "zz", "123456789abcdef0", "ffffffffffffffff",
        "10000000000000000", "00"]
    {
        assert_eq!(read(token, 16, u64::MAX as u128), u64::from_str_radix(token, 16).ok().map(|v| v as u128));
        assert_eq!(read(token, 10, u16::MAX as u128), token.parse::<u16>().ok().map(|v| v as u128));
    }
}

#[test]
fn push_uint_writes_the_shortest_digits() {
    assert_eq!(written(0, 16), "0");
    assert_eq!(written(0, 10), "0");
    assert_eq!(written(128, 16), "80");
    assert_eq!(written(255, 16), "ff");
    assert_eq!(written(0xdeadbeef, 16), "deadbeef");
    assert_eq!(written(100, 10), "100");
    assert_eq!(written(u128::MAX, 16), "ffffffffffffffffffffffffffffffff");
    assert_eq!(written(u128::MAX, 10), "340282366920938463463374607431768211455");
}

#[test]
fn push_uint_appends() {
    let mut out = String::from("t ");
    push_uint(&mut out, 0x1234, 16);
    assert_eq!(out, "t 1234");
    push_chars(&mut out, &to_chars(" é\n"));
    assert_eq!(out, "t 1234 é\n");
}

#[test]
fn digits_round_trip() {
    for n in [0u128, 1, 9, 10, 15, 16, 255, 256, 4095, 65535, 65536, u64::MAX as u128, u128::MAX] {
        assert_eq!(read(&written(n, 16), 16, u128::MAX), Some(n));
        assert_eq!(read(&written(n, 10), 10, u128::MAX), Some(n));
        assert_eq!(written(n, 16), format!("{:x}", n));
        assert_eq!(written(n, 10), format!("{}", n));
    }
}

#[test]
fn hex_digits_both_ways() {
    assert_eq!(hex_digit('0'), Some(0));
    assert_eq!(hex_digit('9'), Some(9));
    assert_eq!(hex_digit('a'), Some(10));
    assert_eq!(hex_digit('f'), Some(15));
    assert_eq!(hex_digit('A'), Some(10));
    assert_eq!(hex_digit('F'), Some(15));
    assert_eq!(hex_digit('g'), None);
    assert_eq!(hex_digit('/'), None);
    assert_eq!(hex_digit(':'), None);
    assert_eq!(hex_digit('`'), None);
    assert_eq!(hex_digit('@'), None);
    for d in 0u8..16 {
        assert_eq!(hex_digit(digit_to_char(d)), Some(d));
    }
    assert_eq!(digit_to_char(11), 'b');
}

#[test]
fn chars_round_trip() {
    for s in ["", "abc", "/usr/lib/libc.so", "é\u{1F600}x"] {
        assert_eq!(from_chars(&to_chars(s)), s);
        assert_eq!(to_chars(s), s.chars().collect::<Vec<char>>());
    }
}

#[test]
fn lines_end_behind_the_line_feed() {
    let text = to_chars("ab\ncd\n\nlast");
    assert_eq!(line_end(&text, 0), 3);
    assert_eq!(line_end(&text, 1), 3);
    assert_eq!(line_end(&text, 3), 6);
    assert_eq!(line_end(&text, 6), 7);
    assert_eq!(line_end(&text, 7), 11);
    assert_eq!(line_end(&text, 11), 11);
    assert_eq!(from_chars(&copy_range(&text, 3, 6)), "cd\n");
    assert_eq!(from_chars(&copy_range(&text, 4, 4)), "");
}
