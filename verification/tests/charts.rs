use rofi_unicode::codepoint::{CodePoint, CodePointError, CodePointRange};
use rofi_unicode::emoji::{
    parse_emoji_line, parse_emoji_order_line, parse_scalar_value, ParseError,
};
use rofi_unicode::text::{chars_of, is_control, parse_hex, split_whitespace, string_of};

#[test]
fn scalar_value_is_read_in_hexadecimal() {
    assert_eq!(parse_scalar_value("41"), Ok('A'));
    assert_eq!(parse_scalar_value("1F600"), Ok('\u{1F600}'));
    assert_eq!(parse_scalar_value("1f600"), Ok('\u{1F600}'));
    assert_eq!(parse_scalar_value("+e9"), Ok('é'));
    assert_eq!(parse_scalar_value("0000000000041"), Ok('A'));
    assert_eq!(parse_scalar_value("0"), Ok('\0'));
    assert_eq!(parse_scalar_value("10FFFF"), Ok('\u{10FFFF}'));
    assert_eq!(parse_scalar_value("D7FF"), Ok('\u{D7FF}'));
    assert_eq!(parse_scalar_value("E000"), Ok('\u{E000}'));
}

#[test]
fn scalar_value_refuses_what_is_no_number() {
    assert_eq!(parse_scalar_value(""), Err(ParseError::NotHex(String::new())));
    assert_eq!(parse_scalar_value("+"), Err(ParseError::NotHex("+".to_owned())));
    assert_eq!(parse_scalar_value("-41"), Err(ParseError::NotHex("-41".to_owned())));
    assert_eq!(parse_scalar_value("4G"), Err(ParseError::NotHex("4G".to_owned())));
    assert_eq!(parse_scalar_value(" 41"), Err(ParseError::NotHex(" 41".to_owned())));
    assert_eq!(parse_scalar_value("U+41"), Err(ParseError::NotHex("U+41".to_owned())));
    assert_eq!(parse_scalar_value("100000000"), Err(ParseError::NotHex("100000000".to_owned())));
    assert_eq!(parse_scalar_value("4_1"), Err(ParseError::NotHex("4_1".to_owned())));
}

#[test]
fn scalar_value_refuses_surrogates_and_large_numbers() {
    assert_eq!(parse_scalar_value("D800"), Err(ParseError::NotScalar(0xD800)));
    assert_eq!(parse_scalar_value("DFFF"), Err(ParseError::NotScalar(0xDFFF)));
    assert_eq!(parse_scalar_value("110000"), Err(ParseError::NotScalar(0x110000)));
    assert_eq!(parse_scalar_value("FFFFFFFF"), Err(ParseError::NotScalar(0xFFFF_FFFF)));
}

#[test]
fn hexadecimal_agrees_with_the_standard_library() {
    for text in ["0", "ff", "FF", "+10", "ffffffff", "100000000", "", "+", "-1", "12x", "00000000001"] {
        let chars = chars_of(text);
        assert_eq!(parse_hex(&chars), u32::from_str_radix(text, 16).ok(), "{text}");
    }
}

#[test]
fn emoji_line_gives_emoji_and_description() {
    assert_eq!(
        parse_emoji_line("1F600\tgrinning face"),
        Ok(("\u{1F600}".to_owned(), "grinning face"))
    );
    assert_eq!(
        parse_emoji_line("1F468 200D 1F469\tfamily\twith tab"),
        Ok(("\u{1F468}\u{200D}\u{1F469}".to_owned(), "family\twith tab"))
    );
    assert_eq!(parse_emoji_line("263A FE0F\t"), Ok(("\u{263A}\u{FE0F}".to_owned(), "")));
}

#[test]
fn emoji_line_refuses_bad_lines() {
    assert_eq!(parse_emoji_line("1F600 grinning face"), Err(ParseError::NoTab));
    assert_eq!(parse_emoji_line(""), Err(ParseError::NoTab));
    assert_eq!(parse_emoji_line("\tname"), Err(ParseError::NotHex(String::new())));
    assert_eq!(parse_emoji_line("1F600  200D\tname"), Err(ParseError::NotHex(String::new())));
    assert_eq!(parse_emoji_line("1F600 zz D800\tname"), Err(ParseError::NotHex("zz".to_owned())));
    assert_eq!(parse_emoji_line("D800 zz\tname"), Err(ParseError::NotScalar(0xD800)));
}

#[test]
fn order_line_gives_the_first_field() {
    assert_eq!(
        parse_emoji_order_line("U+1F600 ; 6.1 # grinning face"),
        Ok(Some("\u{1F600}".to_owned()))
    );
    assert_eq!(
        parse_emoji_order_line("  U+1F468\tU+200D   U+1F469 ; 2.0 # family"),
        Ok(Some("\u{1F468}\u{200D}\u{1F469}".to_owned()))
    );
    assert_eq!(parse_emoji_order_line("U+41"), Ok(Some("A".to_owned())));
}

#[test]
fn order_line_skips_comments() {
    assert_eq!(parse_emoji_order_line("# a comment"), Ok(None));
    assert_eq!(parse_emoji_order_line(""), Ok(None));
}

#[test]
fn order_line_refuses_bad_lines() {
    assert_eq!(parse_emoji_order_line("   # only white space"), Err(ParseError::Empty));
    assert_eq!(parse_emoji_order_line("; 6.1"), Err(ParseError::Empty));
    assert_eq!(
        parse_emoji_order_line("1F600 ; 6.1"),
        Err(ParseError::NoPrefix("1F600".to_owned()))
    );
    assert_eq!(parse_emoji_order_line("U+ ; 6.1"), Err(ParseError::NotHex(String::new())));
    assert_eq!(parse_emoji_order_line("U+D800 U ; 6.1"), Err(ParseError::NotScalar(0xD800)));
    assert_eq!(parse_emoji_order_line("u+41"), Err(ParseError::NoPrefix("u+41".to_owned())));
}

#[test]
fn words_are_what_stands_between_white_space() {
    let words = |text: &str| -> Vec<String> {
        split_whitespace(&chars_of(text)).iter().map(|w| string_of(w)).collect()
    };
    for text in ["", " ", "a", " a  b\tc\n", "\u{a0}x\u{2003}y", "a\u{200b}b"] {
        let expected: Vec<String> = text.split_whitespace().map(str::to_owned).collect();
        assert_eq!(words(text), expected, "{text:?}");
    }
}

#[test]
fn printable_is_a_scalar_value_that_is_no_control_code() {
    assert_eq!(CodePoint(0x41).as_printable(), Some('A'));
    assert_eq!(CodePoint(0x1F600).as_printable(), Some('\u{1F600}'));
    assert_eq!(CodePoint(0x20).as_printable(), Some(' '));
    assert_eq!(CodePoint(0x0).as_printable(), None);
    assert_eq!(CodePoint(0x1F).as_printable(), None);
    assert_eq!(CodePoint(0x7F).as_printable(), None);
    assert_eq!(CodePoint(0x9F).as_printable(), None);
    assert_eq!(CodePoint(0xA0).as_printable(), Some('\u{a0}'));
    assert_eq!(CodePoint(0xD800).as_printable(), None);
    assert_eq!(CodePoint(0x110000).as_printable(), None);
}

#[test]
fn code_point_is_read_below_the_last() {
    assert_eq!(CodePoint::parse("0041"), Ok(CodePoint(0x41)));
    assert_eq!(CodePoint::parse("D800"), Ok(CodePoint(0xD800)));
    assert_eq!(CodePoint::parse("10FFFE"), Ok(CodePoint(0x10FFFE)));
    assert_eq!(CodePoint::parse("10FFFF"), Err(CodePointError::OutOfRange(0x10FFFF)));
    assert_eq!(CodePoint::parse("FFFFFFFF"), Err(CodePointError::OutOfRange(0xFFFF_FFFF)));
    assert_eq!(CodePoint::parse("100000000"), Err(CodePointError::NotHex));
    assert_eq!(CodePoint::parse("x"), Err(CodePointError::NotHex));
}

#[test]
fn range_is_one_code_point_or_two() {
    let one = |start| CodePointRange { start: CodePoint(start), end: None };
    let two = |start, end| CodePointRange { start: CodePoint(start), end: Some(CodePoint(end)) };
    assert_eq!(CodePointRange::parse("0041"), Ok(one(0x41)));
    assert_eq!(CodePointRange::parse("0041..005A"), Ok(two(0x41, 0x5A)));
    assert_eq!(CodePointRange::parse("5A..41"), Ok(two(0x5A, 0x41)));
    assert_eq!(CodePointRange::parse("41.."), Err(CodePointError::NotHex));
    assert_eq!(CodePointRange::parse("..41"), Err(CodePointError::NotHex));
    assert_eq!(CodePointRange::parse("41...42"), Err(CodePointError::NotHex));
    assert_eq!(CodePointRange::parse("41.42"), Err(CodePointError::NotHex));
    assert_eq!(CodePointRange::parse("41..10FFFF"), Err(CodePointError::OutOfRange(0x10FFFF)));
    assert_eq!(CodePointRange::parse("."), Err(CodePointError::NotHex));
    assert_eq!(CodePointRange::parse(""), Err(CodePointError::NotHex));
}

#[test]
fn control_codes_are_those_of_the_standard_library() {
    for value in 0..=0x10FFFFu32 {
        if let Some(c) = char::from_u32(value) {
            assert_eq!(is_control(c), c.is_control(), "U+{value:04X}");
        }
    }
    assert!(is_control('\u{0}'));
    assert!(is_control('\u{1f}'));
    assert!(!is_control(' '));
    assert!(!is_control('~'));
    assert!(is_control('\u{7f}'));
    assert!(is_control('\u{9f}'));
    assert!(!is_control('\u{a0}'));
}
