use protocol::number::{decimal_text, parse_hex_pair, parse_number};
use protocol::text::{
    contains, is_before, is_whitespace, join, lines_of, same, skip_back, split_text, trim, words_of,
};

#[test]
fn texts_are_split_and_joined() {
    assert_eq!(split_text("a,,b,", ','), vec!["a", "", "b", ""]);
    assert_eq!(split_text("", ','), vec![""]);
    assert_eq!(words_of("  a  b "), vec!["a", "b"]);
    let parts = vec!["a".to_string(), "b".to_string(), "".to_string()];
    assert_eq!(join(&parts, ", "), "a, b, ");
    assert_eq!(join(&Vec::new(), ", "), "");
}

#[test]
fn lines_end_with_a_break() {
    for text in ["", "a", "a\n", "a\r\nb\n\nc\r", "\n", "\r\n"] {
        let expected: Vec<&str> = text.lines().collect();
        assert_eq!(lines_of(text), expected);
    }
}

#[test]
fn whitespace_is_that_of_the_standard_library() {
    for code in 0..0x11_0000u32 {
        if let Some(c) = char::from_u32(code) {
            assert_eq!(is_whitespace(c), c.is_whitespace(), "{}", code);
        }
    }
    for text in ["", " ", " a b\t\n", "\u{2003}x\u{a0}"] {
        assert_eq!(trim(text), text.trim());
    }
    let chars: Vec<char> = "ab  ".chars().collect();
    assert_eq!(skip_back(&chars, 4), 2);
    assert_eq!(skip_back(&chars, 1), 1);
}

#[test]
fn texts_compare_like_those_of_the_standard_library() {
    let texts = ["", "a", "ab", "b", "B", "ä", "10-core.js", "9-x.js", "\u{ffff}", "\u{10000}"];
    for a in texts {
        for b in texts {
            assert_eq!(is_before(a, b), a < b);
            assert_eq!(same(a, b), a == b);
        }
    }
    assert!(contains(&vec!["x".to_string()], "x"));
    assert!(!contains(&vec!["x".to_string()], "y"));
}

#[test]
fn numbers_are_written_and_read() {
    for n in [0, 7, 10, 4096, u64::MAX] {
        assert_eq!(decimal_text(n), n.to_string());
        assert_eq!(parse_number(&decimal_text(n)), Some(n));
    }
    for text in ["", "+", "+7", "-1", "007", "1x", "18446744073709551616", " 1"] {
        assert_eq!(parse_number(text), text.parse().ok());
    }
    for a in " +-/09:@AFGZ`afgz{".chars() {
        for b in " +-/09:@AFGZ`afgz{".chars() {
            let text: String = [a, b].iter().collect();
            assert_eq!(parse_hex_pair(a, b), u8::from_str_radix(&text, 16).ok(), "{}", text);
        }
    }
    assert_eq!(parse_hex_pair('f', 'F'), Some(255));
    assert_eq!(parse_hex_pair('+', '5'), Some(5));
}
