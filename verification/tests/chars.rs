use minilang::chars::{
    alphanumeric, chars_of, digit, is_all_alphanumeric, run_ender, single, string_of,
};
use minilang::integer::parse_integer;

fn chars(text: &str) -> Vec<char> {
    text.chars().collect()
}

#[test]
fn single_character_tokens_are_five() {
    for c in [';', '\n', ' ', '(', ')'] {
        assert!(single(c));
        assert!(run_ender(c));
    }
    for c in ['"', 'a', '0', '\t', '\r', ',', '-', '{'] {
        assert!(!single(c));
    }
}

#[test]
fn quote_ends_a_run_too() {
    assert!(run_ender('"'));
    for c in ['a', '0', '\t', '\r', ',', '-', '\'', '\u{e9}'] {
        assert!(!run_ender(c));
    }
}

#[test]
fn digits_are_zero_to_nine() {
    for c in '0'..='9' {
        assert!(digit(c));
    }
    for c in ['/', ':', 'a', '-', '+', ' ', '\u{663}'] {
        assert!(!digit(c));
    }
}

#[test]
fn alphanumeric_agrees_with_std_on_every_character() {
    for code in 0u32..=0x10FFFF {
        if let Some(c) = char::from_u32(code) {
            assert_eq!(alphanumeric(c), c.is_alphanumeric(), "at {:x}", code);
        }
    }
}

#[test]
fn alphanumeric_within_ascii() {
    for c in ['a', 'z', 'A', 'Z', '0', '9', 'm', 'Q', '5'] {
        assert!(alphanumeric(c));
    }
    for c in ['`', '{', '@', '[', '/', ':', ' ', '\n', ';', '(', ')', '"', '_', '-', '\x7f'] {
        assert!(!alphanumeric(c));
    }
}

#[test]
fn alphanumeric_beyond_ascii() {
    for c in ['\u{e9}', '\u{4eac}', '\u{663}', '\u{3b1}'] {
        assert!(alphanumeric(c));
    }
    for c in ['\u{20ac}', '\u{2014}', '\u{a0}', '\u{1f49d}'] {
        assert!(!alphanumeric(c));
    }
}

#[test]
fn all_alphanumeric_looks_at_every_character() {
    assert!(is_all_alphanumeric(&chars("")));
    assert!(is_all_alphanumeric(&chars("abc123")));
    assert!(is_all_alphanumeric(&chars("caf\u{e9}")));
    assert!(!is_all_alphanumeric(&chars("abc_123")));
    assert!(!is_all_alphanumeric(&chars("-abc")));
    assert!(!is_all_alphanumeric(&chars("abc-")));
}

#[test]
fn string_of_and_chars_of_are_inverse() {
    for text in ["", "a", "hello world", "caf\u{e9} \u{4eac}\n"] {
        assert_eq!(string_of(&chars(text)), text);
        assert_eq!(chars_of(text), chars(text));
        assert_eq!(string_of(&chars_of(text)), text);
    }
}

#[test]
fn parse_integer_reads_decimal_numbers() {
    assert_eq!(parse_integer(&chars("0")), Some(0));
    assert_eq!(parse_integer(&chars("42")), Some(42));
    assert_eq!(parse_integer(&chars("-42")), Some(-42));
    assert_eq!(parse_integer(&chars("0042")), Some(42));
    assert_eq!(parse_integer(&chars("-0")), Some(0));
    assert_eq!(parse_integer(&chars("1000000000")), Some(1000000000));
}

#[test]
fn parse_integer_keeps_to_32_bits() {
    assert_eq!(parse_integer(&chars("2147483647")), Some(i32::MAX));
    assert_eq!(parse_integer(&chars("2147483648")), None);
    assert_eq!(parse_integer(&chars("-2147483648")), Some(i32::MIN));
    assert_eq!(parse_integer(&chars("-2147483649")), None);
    assert_eq!(parse_integer(&chars("4294967296")), None);
    assert_eq!(parse_integer(&chars("18446744073709551616")), None);
    assert_eq!(parse_integer(&chars("-99999999999999999999999999")), None);
    assert_eq!(parse_integer(&chars("000000000000000000000002147483647")), Some(i32::MAX));
}

#[test]
fn parse_integer_refuses_what_is_no_integer() {
    for text in ["", "-", "+", "+1", "--1", "1-", "1 ", " 1", "1a", "a", "1.0", "0x10", "\u{663}"] {
        assert_eq!(parse_integer(&chars(text)), None, "{:?}", text);
    }
}

#[test]
fn parse_integer_agrees_with_std_but_for_the_plus_sign() {
    let texts =
        ["0", "7", "-7", "123456789", "-123456789", "2147483647", "-2147483648", "x", "12x"];
    for text in texts {
        assert_eq!(parse_integer(&chars(text)), text.parse::<i32>().ok(), "{:?}", text);
    }
}
