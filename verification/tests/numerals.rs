use json_decoder::chars::{chars_of, is_whitespace, same_text, single_char, string_of};
use json_decoder::numeral::{is_float_literal, parse_i64};
use json_decoder::FloatLiteral;

fn int_of(text: &str) -> Option<i64> {
    parse_i64(&chars_of(text))
}

fn is_float(text: &str) -> bool {
    is_float_literal(&chars_of(text))
}

#[test]
fn whitespace_is_what_std_calls_whitespace() {
    let mut code: u32 = 0;
    while code <= 0x10FFFF {
        if let Some(c) = char::from_u32(code) {
            assert_eq!(is_whitespace(c), c.is_whitespace(), "U+{:04X}", code);
        }
        code += 1;
    }
}

#[test]
fn integers_have_their_decimal_value() {
    assert_eq!(int_of("0"), Some(0));
    assert_eq!(int_of("3"), Some(3));
    assert_eq!(int_of("-3"), Some(-3));
    assert_eq!(int_of("+3"), Some(3));
    assert_eq!(int_of("-0"), Some(0));
    assert_eq!(int_of("0042"), Some(42));
    assert_eq!(int_of("1234567890"), Some(1234567890));
    assert_eq!(int_of("9223372036854775807"), Some(i64::MAX));
    assert_eq!(int_of("-9223372036854775808"), Some(i64::MIN));
}

#[test]
fn integers_out_of_range_or_malformed_are_refused() {
    assert_eq!(int_of("9223372036854775808"), None);
    assert_eq!(int_of("-9223372036854775809"), None);
    assert_eq!(int_of("99999999999999999999999999999999999999999999"), None);
    assert_eq!(int_of(""), None);
    assert_eq!(int_of("+"), None);
    assert_eq!(int_of("-"), None);
    assert_eq!(int_of("--1"), None);
    assert_eq!(int_of("1x"), None);
    assert_eq!(int_of("x1"), None);
    assert_eq!(int_of("1 "), None);
    assert_eq!(int_of("1.0"), None);
    assert_eq!(int_of("١"), None);
}

#[test]
fn integers_agree_with_std() {
    let samples = [
        "", "0", "-0", "+0", "7", "-7", "+7", "007", "1_000", "12a", "a12", " 12", "12 ", "-",
        "+", "+-1", "-+1", "9223372036854775807", "9223372036854775808",
        "-9223372036854775808", "-9223372036854775809", "18446744073709551616",
        "000000000000000000000000000000000000001", "1e3", "0x10", "٣",
    ];
    for text in samples {
        assert_eq!(int_of(text), text.parse::<i64>().ok(), "{:?}", text);
    }
}

#[test]
fn float_literals_are_recognized() {
    for text in ["3.0", "3e2", "-3.5", "+3.5", "1.", ".5", "1E5", "1e+5", "1e-5", "1.5e10", "0",
        "42", "inf", "-inf", "+Infinity", "NaN", "nan", "iNf"]
    {
        assert!(is_float(text), "{:?}", text);
    }
    for text in ["", ".", "+", "-", "e5", "1e", "1e+", "1.2.3", "1e5.0", "1 ", " 1", "1f", "infi",
        "na", "nanx", "--1", "1_0.0", "0x1p3", "1,5", "1e5e5", "+-1.0", "infinit", "infinityy"]
    {
        assert!(!is_float(text), "{:?}", text);
    }
}

#[test]
fn float_literals_agree_with_std() {
    let samples = [
        "", ".", "0", "0.", ".0", "1.5", "-1.5", "+1.5", "1e5", "1E5", "1e+5", "1e-5", "1e", "e1",
        "1e+", "1.e1", ".e1", ".5e1", "1.2.3", "1..2", "inf", "INF", "Inf", "infinity", "INFINITY",
        "-infinity", "+inf", "nan", "NAN", "-nan", "+NaN", "infinit", "in", "n", "i", " 1.0",
        "1.0 ", "1_0", "0x10", "1e5e5", "1e5.5", "--1.0", "+-1.0", "-+1.0", "1.0f", "1d", "١.٠",
        "123456789012345678901234567890.123456789e-300", "1e400", "-", "+", "-.", "+.5", "-5.",
        "infinityy", "nann", "Iɴf", "ınf",
    ];
    for text in samples {
        assert_eq!(is_float(text), text.parse::<f64>().is_ok(), "{:?}", text);
    }
}

#[test]
fn float_literal_keeps_its_text() {
    let number = FloatLiteral::parse("3e2").expect("a literal");
    assert_eq!(number.as_str(), "3e2");
    assert_eq!(number.as_str().parse::<f64>().unwrap(), 300.0);
    assert_eq!(number.clone().as_str(), "3e2");
    assert!(FloatLiteral::parse("three").is_none());
    assert!(FloatLiteral::parse("").is_none());
}

#[test]
fn characters_and_strings_pass_into_each_other() {
    assert_eq!(chars_of("a\u{e9}\u{4e2d}"), vec!['a', '\u{e9}', '\u{4e2d}']);
    assert_eq!(chars_of(""), Vec::<char>::new());
    let chars = chars_of("hello");
    assert_eq!(string_of(&chars, 1, 4), "ell");
    assert_eq!(string_of(&chars, 2, 2), "");
    assert_eq!(string_of(&chars, 0, 5), "hello");
}

#[test]
fn same_text_compares_by_characters() {
    assert!(same_text("", ""));
    assert!(same_text("abc", "abc"));
    assert!(!same_text("abc", "abd"));
    assert!(!same_text("abc", "ab"));
    assert!(!same_text("ab", "abc"));
    assert!(same_text("\u{4e2d}x", "\u{4e2d}x"));
}

#[test]
fn single_char_wants_exactly_one() {
    assert_eq!(single_char("{"), Some('{'));
    assert_eq!(single_char("\u{4e2d}"), Some('\u{4e2d}'));
    assert_eq!(single_char(""), None);
    assert_eq!(single_char("{}"), None);
}
