use joshuto::input::{is_whitespace, parse_usize, split_whitespace};

#[test]
fn parse_plain_numbers() {
    assert_eq!(parse_usize("0"), Some(0));
    assert_eq!(parse_usize("7"), Some(7));
    assert_eq!(parse_usize("0042"), Some(42));
    assert_eq!(parse_usize("+15"), Some(15));
    assert_eq!(parse_usize("1234567890"), Some(1234567890));
}

#[test]
fn parse_rejects_what_is_no_number() {
    assert_eq!(parse_usize(""), None);
    assert_eq!(parse_usize("+"), None);
    assert_eq!(parse_usize("-1"), None);
    assert_eq!(parse_usize("-0"), None);
    assert_eq!(parse_usize(" 1"), None);
    assert_eq!(parse_usize("1 "), None);
    assert_eq!(parse_usize("1x"), None);
    assert_eq!(parse_usize("++1"), None);
    assert_eq!(parse_usize("vim"), None);
    assert_eq!(parse_usize("\u{0661}"), None);
}

#[test]
fn parse_at_the_limit() {
    let max = usize::MAX.to_string();
    assert_eq!(parse_usize(&max), Some(usize::MAX));
    let over = format!("{}0", max);
    assert_eq!(parse_usize(&over), None);
    let mut next = max.clone().into_bytes();
    let last = next.len() - 1;
    next[last] += 1;
    let next = String::from_utf8(next).unwrap();
    assert_eq!(parse_usize(&next), None);
    assert_eq!(parse_usize("99999999999999999999999999999999999999999"), None);
}

#[test]
fn parse_agrees_with_std() {
    let cases = ["", "0", "+0", "-0", "12", "+12", "1+2", "0x10", "18446744073709551615",
        "18446744073709551616", "4294967295", "4294967296", "000000000000000000000001", "١٢"];
    for text in cases {
        assert_eq!(parse_usize(text), text.parse::<usize>().ok(), "{:?}", text);
    }
}

#[test]
fn whitespace_agrees_with_std_on_every_char() {
    let mut code: u32 = 0;
    while code <= 0x10ffff {
        if let Some(c) = char::from_u32(code) {
            assert_eq!(is_whitespace(c), c.is_whitespace(), "U+{:04X}", code);
        }
        code += 1;
    }
}

#[test]
fn split_into_words() {
    assert_eq!(split_whitespace("vim -p  a.txt"), vec!["vim", "-p", "a.txt"]);
    assert_eq!(split_whitespace("  mpv\t--loop\n"), vec!["mpv", "--loop"]);
    assert_eq!(split_whitespace("feh"), vec!["feh"]);
}

#[test]
fn split_of_blank_text_is_empty() {
    assert!(split_whitespace("").is_empty());
    assert!(split_whitespace(" \t \n").is_empty());
}

#[test]
fn split_agrees_with_std() {
    let cases = ["", " ", "a", " a", "a ", "a b", "a  b", "\u{3000}x\u{2003}y\u{a0}z", "x\u{200b}y",
        "é è\tê", "one two three  four\u{85}five"];
    for text in cases {
        let expected: Vec<String> = text.split_whitespace().map(String::from).collect();
        assert_eq!(split_whitespace(text), expected, "{:?}", text);
    }
}
