use ip_scanner::ipv4::{format_ipv4, read_ipv4, read_octet};
use ip_scanner::text::{
    char_is_whitespace, char_to_digit, digit_to_char, find_char, push_decimal, push_text,
    read_decimal, to_chars, to_text, trim_bounds,
};

fn chars(s: &str) -> Vec<char> {
    s.chars().collect()
}

fn parse(s: &str) -> Option<u32> {
    let c = chars(s);
    read_ipv4(&c, 0, c.len())
}

#[test]
fn white_space_is_what_std_calls_white_space() {
    let mut count = 0;
    for u in 0..=0x10ffffu32 {
        if let Some(c) = char::from_u32(u) {
            assert_eq!(char_is_whitespace(c), c.is_whitespace(), "U+{:04X}", u);
            if char_is_whitespace(c) {
                count += 1;
            }
        }
    }
    assert_eq!(count, 25);
}

#[test]
fn text_to_characters_and_back() {
    let c = to_chars("a-β/c");
    assert_eq!(c, vec!['a', '-', 'β', '/', 'c']);
    assert_eq!(to_text(&c, 1, 4), "-β/");
    assert_eq!(to_text(&c, 2, 2), "");
    let mut s = String::from("x");
    push_text(&mut s, "yz");
    assert_eq!(s, "xyz");
}

#[test]
fn trimming_matches_std() {
    for s in ["", " ", "a", "  a b \t\r\n", "\u{a0}x\u{3000}", "x  ", "  x", "\u{200b}x"] {
        let c = chars(s);
        let (a, b) = trim_bounds(&c, 0, c.len());
        assert_eq!(to_text(&c, a, b), s.trim(), "{:?}", s);
    }
    let c = chars("ab  cd  ef");
    assert_eq!(trim_bounds(&c, 2, 8), (4, 6));
    assert_eq!(trim_bounds(&c, 2, 4), (4, 4));
}

#[test]
fn finding_a_character() {
    let c = chars("a.b.c");
    assert_eq!(find_char(&c, 0, 5, '.'), 1);
    assert_eq!(find_char(&c, 2, 5, '.'), 3);
    assert_eq!(find_char(&c, 4, 5, '.'), 5);
    assert_eq!(find_char(&c, 0, 1, '.'), 1);
    assert_eq!(find_char(&c, 3, 3, '.'), 3);
}

#[test]
fn decimal_numerals() {
    for (n, text) in [(0u64, "0"), (7, "7"), (10, "10"), (255, "255"), (3389, "3389"), (u64::MAX, "18446744073709551615")] {
        let mut s = String::new();
        push_decimal(&mut s, n);
        assert_eq!(s, text);
        assert_eq!(s, n.to_string());
    }
    for d in 0..10u8 {
        assert_eq!(digit_to_char(d), (b'0' + d) as char);
        assert_eq!(char_to_digit((b'0' + d) as char), Some(d));
    }
    assert_eq!(char_to_digit('a'), None);
    assert_eq!(char_to_digit('٣'), None);
    let c = chars("x0123y");
    assert_eq!(read_decimal(&c, 1, 5, 1000), Some(123));
    assert_eq!(read_decimal(&c, 1, 5, 100), Some(100));
    assert_eq!(read_decimal(&c, 1, 5, 123), Some(123));
    assert_eq!(read_decimal(&c, 1, 1, 100), None);
    assert_eq!(read_decimal(&c, 0, 3, 100), None);
    assert_eq!(read_decimal(&c, 4, 6, 100), None);
}

#[test]
fn octets() {
    for (s, v) in [("0", Some(0u8)), ("9", Some(9)), ("10", Some(10)), ("255", Some(255)), ("256", None), ("00", None), ("01", None), ("", None), ("1000", None), ("0255", None), ("1a", None), ("+1", None)] {
        let c = chars(s);
        assert_eq!(read_octet(&c, 0, c.len()), v, "{:?}", s);
    }
}

#[test]
fn dotted_quads_are_written_and_read_back() {
    for a in [0u32, 1, 255, 256, 0x0a00_0005, 0xc0a8_01fe, 0x7f00_0001, u32::MAX] {
        let text = format_ipv4(a);
        assert_eq!(parse(&text), Some(a), "{}", text);
    }
    assert_eq!(format_ipv4(0xc0a8_0101), "192.168.1.1");
    assert_eq!(format_ipv4(0), "0.0.0.0");
    assert_eq!(format_ipv4(u32::MAX), "255.255.255.255");
    assert_eq!(parse("10.0.0.5"), Some(0x0a00_0005));
}

#[test]
fn dotted_quads_are_read_as_the_network_parser_reads_them() {
    let samples = [
        "1.2.3.4", "0.0.0.0", "255.255.255.255", "256.1.1.1", "1.2.3", "1.2.3.4.5", "1..3.4",
        ".1.2.3", "1.2.3.", "01.2.3.4", "1.2.3.04", "1.2.3.4 ", " 1.2.3.4", "1.2.3.+4", "a.b.c.d",
        "", "...", "1.2.3.0x4", "１.2.3.4", "1.2.3.4\n", "127.1", "0.0.0.00", "192.168.100.200",
        "999.999.999.999", "1.2.3.1000",
    ];
    for s in samples {
        let theirs = s.parse::<ipnetwork::Ipv4Network>().ok().map(|n| u32::from(n.ip()));
        assert_eq!(parse(s), theirs, "{:?}", s);
    }
}
