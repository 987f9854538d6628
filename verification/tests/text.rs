use shared_numbers::text::{
    chars_of, decimal_text, digit, parse_chars, parse_number, trimmed_length, whitespace,
    ParseFailure,
};
use std::num::IntErrorKind;

fn reference(line: &str) -> Result<i64, ParseFailure> {
    match line.trim_end().parse::<i64>() {
        Ok(number) => Ok(number),
        Err(error) => Err(match error.kind() {
            IntErrorKind::Empty => ParseFailure::Empty,
            IntErrorKind::InvalidDigit => ParseFailure::InvalidDigit,
            IntErrorKind::PosOverflow => ParseFailure::PosOverflow,
            IntErrorKind::NegOverflow => ParseFailure::NegOverflow,
            _ => unreachable!(),
        }),
    }
}

#[test]
fn a_number_with_its_line_feed_is_read() {
    assert_eq!(parse_number("5\n"), Ok(5));
    assert_eq!(parse_number("-17\r\n"), Ok(-17));
    assert_eq!(parse_number("+42"), Ok(42));
    assert_eq!(parse_number("007 \t"), Ok(7));
    assert_eq!(parse_number("0"), Ok(0));
}

#[test]
fn the_ends_of_the_range_are_read() {
    assert_eq!(parse_number("9223372036854775807\n"), Ok(i64::MAX));
    assert_eq!(parse_number("-9223372036854775808\n"), Ok(i64::MIN));
    assert_eq!(parse_number("0000000000000000000000009223372036854775807"), Ok(i64::MAX));
}

#[test]
fn an_empty_line_is_reported_as_empty() {
    assert_eq!(parse_number(""), Err(ParseFailure::Empty));
    assert_eq!(parse_number("\n"), Err(ParseFailure::Empty));
    assert_eq!(parse_number(" \t\r\n"), Err(ParseFailure::Empty));
}

#[test]
fn what_is_no_digit_is_reported_as_invalid() {
    assert_eq!(parse_number("abc\n"), Err(ParseFailure::InvalidDigit));
    assert_eq!(parse_number("+\n"), Err(ParseFailure::InvalidDigit));
    assert_eq!(parse_number("-"), Err(ParseFailure::InvalidDigit));
    assert_eq!(parse_number("12x"), Err(ParseFailure::InvalidDigit));
    assert_eq!(parse_number("1 2"), Err(ParseFailure::InvalidDigit));
    assert_eq!(parse_number("--1"), Err(ParseFailure::InvalidDigit));
    assert_eq!(parse_number("1.5"), Err(ParseFailure::InvalidDigit));
    assert_eq!(parse_number("\u{0663}"), Err(ParseFailure::InvalidDigit));
    assert_eq!(parse_number("9223372036854775807x"), Err(ParseFailure::InvalidDigit));
}

#[test]
fn whitespace_in_front_is_not_cut_off() {
    assert_eq!(parse_number(" 5\n"), Err(ParseFailure::InvalidDigit));
    assert_eq!(parse_number("\t5"), Err(ParseFailure::InvalidDigit));
}

#[test]
fn a_number_out_of_range_is_reported_as_overflow() {
    assert_eq!(parse_number("9223372036854775808"), Err(ParseFailure::PosOverflow));
    assert_eq!(parse_number("+9223372036854775808\n"), Err(ParseFailure::PosOverflow));
    assert_eq!(parse_number("-9223372036854775809"), Err(ParseFailure::NegOverflow));
    assert_eq!(parse_number("99999999999999999999999999"), Err(ParseFailure::PosOverflow));
    assert_eq!(parse_number("-99999999999999999999999999"), Err(ParseFailure::NegOverflow));
}

#[test]
fn an_overflow_is_seen_before_a_later_character() {
    assert_eq!(parse_number("99999999999999999999x"), Err(ParseFailure::PosOverflow));
    assert_eq!(parse_number("-99999999999999999999x"), Err(ParseFailure::NegOverflow));
    assert_eq!(parse_number("92233720368547758070"), Err(ParseFailure::PosOverflow));
}

#[test]
fn reading_agrees_with_the_standard_library() {
    let lines = [
        "", "\n", "0", "-0", "+0", "5\n", "abc\n", "+", "-", "+-1", "12 ", "12\r\n", "12\u{3000}",
        "12\u{a0}\n", "1_000", "0x10", "1e3", "9223372036854775807", "9223372036854775808",
        "-9223372036854775808", "-9223372036854775809", "18446744073709551616", "123456789012345",
        "1234567890123456", "0000000000000000000000000000001", "99999999999999999999x",
        "9223372036854775807x", "x9223372036854775808", "12\u{200b}", "\u{ff11}", "-5 5", "5-",
    ];
    for line in lines {
        assert_eq!(parse_number(line), reference(line));
    }
    let mut seed: u64 = 0x2545_f491_4f6c_dd1d;
    for _ in 0..2000 {
        seed ^= seed << 13;
        seed ^= seed >> 7;
        seed ^= seed << 17;
        let number = seed as i64 >> (seed % 64);
        let line = format!("{}\n", number);
        assert_eq!(parse_number(&line), Ok(number));
        let damaged = format!("{}{}", number, seed % 100);
        assert_eq!(parse_number(&damaged), reference(&damaged));
    }
}

#[test]
fn every_failure_has_its_sentence() {
    assert_eq!(ParseFailure::Empty.description(), "cannot parse integer from empty string");
    assert_eq!(ParseFailure::InvalidDigit.description(), "invalid digit found in string");
    assert_eq!(ParseFailure::PosOverflow.description(), "number too large to fit in target type");
    assert_eq!(ParseFailure::NegOverflow.description(), "number too small to fit in target type");
}

#[test]
fn the_sentences_are_those_of_the_standard_library() {
    for line in ["", "x", "9223372036854775808", "-9223372036854775809"] {
        let ours = parse_number(line).unwrap_err();
        let theirs = line.parse::<i64>().unwrap_err();
        assert_eq!(ours.description(), theirs.to_string());
    }
}

#[test]
fn whitespace_is_what_unicode_calls_white_space() {
    for code in 0..=0x10ffffu32 {
        if let Some(c) = char::from_u32(code) {
            assert_eq!(whitespace(c), c.is_whitespace());
        }
    }
}

#[test]
fn digits_are_the_ten_ascii_digits() {
    for code in 0..=0x10ffffu32 {
        if let Some(c) = char::from_u32(code) {
            assert_eq!(digit(c), c.is_ascii_digit());
        }
    }
}

#[test]
fn characters_come_out_one_by_one() {
    assert_eq!(chars_of(""), Vec::<char>::new());
    assert_eq!(chars_of("a\u{e9}\u{4e2d}\n"), vec!['a', '\u{e9}', '\u{4e2d}', '\n']);
}

#[test]
fn trimming_stops_at_the_last_other_character() {
    assert_eq!(trimmed_length(&chars_of("")), 0);
    assert_eq!(trimmed_length(&chars_of(" \n")), 0);
    assert_eq!(trimmed_length(&chars_of("12\r\n")), 2);
    assert_eq!(trimmed_length(&chars_of(" 1 2 \u{2028}")), 4);
    assert_eq!(trimmed_length(&chars_of("12")), 2);
    for line in ["", "a", "a ", " a", "a\u{85}\u{1680}", "\u{feff}", "a\u{200b} "] {
        assert_eq!(trimmed_length(&chars_of(line)), line.trim_end().chars().count());
    }
}

#[test]
fn a_prefix_is_read_on_its_own() {
    let chars = chars_of("123abc");
    assert_eq!(parse_chars(&chars, 0), Err(ParseFailure::Empty));
    assert_eq!(parse_chars(&chars, 2), Ok(12));
    assert_eq!(parse_chars(&chars, 3), Ok(123));
    assert_eq!(parse_chars(&chars, 4), Err(ParseFailure::InvalidDigit));
}

#[test]
fn numbers_are_written_in_decimal() {
    assert_eq!(decimal_text(0), "0");
    assert_eq!(decimal_text(5), "5");
    assert_eq!(decimal_text(-5), "-5");
    assert_eq!(decimal_text(10), "10");
    assert_eq!(decimal_text(1234567890), "1234567890");
    assert_eq!(decimal_text(i64::MAX), "9223372036854775807");
    assert_eq!(decimal_text(i64::MIN), "-9223372036854775808");
}

#[test]
fn writing_agrees_with_the_standard_library_and_reading_undoes_it() {
    let mut seed: u64 = 0x9e37_79b9_7f4a_7c15;
    for _ in 0..2000 {
        seed ^= seed << 13;
        seed ^= seed >> 7;
        seed ^= seed << 17;
        let number = seed as i64 >> (seed % 64);
        let text = decimal_text(number);
        assert_eq!(text, number.to_string());
        assert_eq!(parse_number(&text), Ok(number));
    }
}
