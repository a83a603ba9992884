use rustdecks::text::{
    chars_eq, char_from_u32, codes_of, parse_i64, parse_unsigned, push_decimal, string_of,
    to_ascii_lowercase, trim_bounds,
};

fn codes(s: &str) -> Vec<u32> {
    codes_of(&s.chars().collect::<Vec<_>>())
}

#[test]
fn integer_syntax_follows_rust() {
    assert_eq!(parse_i64(&codes("42")), Some(42));
    assert_eq!(parse_i64(&codes("+7")), Some(7));
    assert_eq!(parse_i64(&codes("-9223372036854775808")), Some(i64::MIN));
    assert_eq!(parse_i64(&codes("9223372036854775807")), Some(i64::MAX));
    assert_eq!(parse_i64(&codes("9223372036854775808")), None);
    assert_eq!(parse_i64(&codes("-")), None);
    assert_eq!(parse_i64(&codes("+")), None);
    assert_eq!(parse_i64(&codes("")), None);
    assert_eq!(parse_i64(&codes("1 ")), None);
    assert_eq!(parse_unsigned(&codes("ff"), 16, 255), Some(255));
    assert_eq!(parse_unsigned(&codes("100"), 16, 255), None);
    assert_eq!(parse_unsigned(&codes("FF"), 16, 255), Some(255));
    assert_eq!(parse_unsigned(&codes("-1"), 10, 255), None);
    for s in ["0", "+0", "255", "256", "x", "+", "++1", "0x10"] {
        assert_eq!(
            parse_unsigned(&codes(s), 10, 255),
            s.parse::<u8>().ok().map(u64::from),
            "{s}"
        );
    }
}

#[test]
fn strings_and_chars() {
    let cs: Vec<char> = "  Hi \t".chars().collect();
    assert_eq!(trim_bounds(&cs), (2, 4));
    let blank: Vec<char> = "   ".chars().collect();
    let (a, b) = trim_bounds(&blank);
    assert_eq!(a, b);
    assert_eq!(to_ascii_lowercase(&['Q', 'é', '1']), vec!['q', 'é', '1']);
    assert!(chars_eq(&['a', 'b'], &['a', 'b']));
    assert!(!chars_eq(&['a'], &['a', 'b']));
    assert_eq!(string_of(&['o', 'k']), "ok");
    let mut s = String::from("n=");
    push_decimal(&mut s, 0);
    push_decimal(&mut s, 1234567890123);
    assert_eq!(s, "n=01234567890123");
    assert_eq!(char_from_u32(0x41), Some('A'));
    assert_eq!(char_from_u32(0xD800), None);
    assert_eq!(char_from_u32(0x110000), None);
}
