use iterators_task::token::{chars_of, is_whitespace, parse_range, tokenize_range, trim_range};
use iterators_task::tokenize;

#[test]
fn tokenize_plain_numbers() {
    assert_eq!(tokenize("1"), Some(1));
    assert_eq!(tokenize("-4"), Some(-4));
    assert_eq!(tokenize("+7"), Some(7));
    assert_eq!(tokenize("0"), Some(0));
    assert_eq!(tokenize("-0"), Some(0));
    assert_eq!(tokenize("007"), Some(7));
    assert_eq!(tokenize("1234567890"), Some(1234567890));
}

#[test]
fn tokenize_ignores_surrounding_white_space() {
    assert_eq!(tokenize(" 3 "), Some(3));
    assert_eq!(tokenize("\t12\r\n"), Some(12));
    assert_eq!(tokenize("\u{3000}5\u{a0}"), Some(5));
    assert_eq!(tokenize("\u{2003}-9\u{85}\u{1680}"), Some(-9));
}

#[test]
fn tokenize_rejects_what_is_no_integer() {
    assert_eq!(tokenize(""), None);
    assert_eq!(tokenize("   "), None);
    assert_eq!(tokenize("a"), None);
    assert_eq!(tokenize("5b"), None);
    assert_eq!(tokenize("b5"), None);
    assert_eq!(tokenize("-"), None);
    assert_eq!(tokenize("+"), None);
    assert_eq!(tokenize("--1"), None);
    assert_eq!(tokenize("+-1"), None);
    assert_eq!(tokenize("1 2"), None);
    assert_eq!(tokenize("- 1"), None);
    assert_eq!(tokenize("1.0"), None);
    assert_eq!(tokenize("1_000"), None);
    assert_eq!(tokenize("0x10"), None);
    assert_eq!(tokenize("\u{663}"), None);
    assert_eq!(tokenize("\u{200b}1"), None);
}

#[test]
fn tokenize_at_the_limits_of_the_type() {
    assert_eq!(tokenize("2147483647"), Some(i32::MAX));
    assert_eq!(tokenize("+2147483647"), Some(i32::MAX));
    assert_eq!(tokenize("2147483648"), None);
    assert_eq!(tokenize("-2147483648"), Some(i32::MIN));
    assert_eq!(tokenize("-2147483649"), None);
    assert_eq!(tokenize("00000000000000000000002147483647"), Some(i32::MAX));
    assert_eq!(tokenize("99999999999999999999999999999999"), None);
    assert_eq!(tokenize("-99999999999999999999999999999999"), None);
    assert_eq!(tokenize("99999999999999999999x"), None);
}

#[test]
fn tokenize_agrees_with_the_standard_parser() {
    let samples: [&str; 24] = [
        "", " ", "0", "-0", "+0", "42", " 42", "42 ", "\n42\n", "4 2", "+", "-", "+-4", "-+4",
        "2147483647", "2147483648", "-2147483648", "-2147483649", "0000", "١٢", "12a", "a12",
        "\u{2028}3\u{2029}", "\u{feff}3",
    ];
    for sample in samples {
        assert_eq!(tokenize(sample), sample.trim().parse::<i32>().ok(), "{:?}", sample);
    }
}

#[test]
fn white_space_is_what_the_standard_library_calls_so() {
    let mut code: u32 = 0;
    while code <= 0x11_0000 {
        if let Some(c) = char::from_u32(code) {
            assert_eq!(is_whitespace(c), c.is_whitespace(), "{:x}", code);
        }
        code += 1;
    }
}

#[test]
fn chars_of_keeps_every_character() {
    assert_eq!(chars_of("a\u{e9}\u{1f600}\n"), vec!['a', '\u{e9}', '\u{1f600}', '\n']);
    assert_eq!(chars_of(""), Vec::<char>::new());
}

#[test]
fn trim_range_gives_the_bounds_of_the_token() {
    let chars = chars_of("xx  12 \tyy");
    assert_eq!(trim_range(&chars, 2, 8), (4, 6));
    assert_eq!(trim_range(&chars, 2, 4), (4, 4));
    assert_eq!(trim_range(&chars, 0, 10), (0, 10));
    assert_eq!(trim_range(&chars, 5, 5), (5, 5));
}

#[test]
fn parse_range_reads_only_the_range() {
    let chars = chars_of("9-123x");
    assert_eq!(parse_range(&chars, 1, 5), Some(-123));
    assert_eq!(parse_range(&chars, 0, 1), Some(9));
    assert_eq!(parse_range(&chars, 0, 5), None);
    assert_eq!(parse_range(&chars, 2, 6), None);
    assert_eq!(parse_range(&chars, 1, 2), None);
    assert_eq!(parse_range(&chars, 3, 3), None);
}

#[test]
fn tokenize_range_trims_and_parses() {
    let chars = chars_of("a 77 \nb");
    assert_eq!(tokenize_range(&chars, 1, 6), Some(77));
    assert_eq!(tokenize_range(&chars, 0, 6), None);
    assert_eq!(tokenize_range(&chars, 1, 2), None);
}
