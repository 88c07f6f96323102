use number_converter::base::NumberBase;
use number_converter::format::format_value;
use number_converter::lex::{contains_char, is_space_char, slice_of, split_on, trimmed};
use number_converter::parse::{append_range, parse_range_set, parse_token, parse_u64, ParseError};
use number_converter::text::{chars_of, string_of};

fn chars(text: &str) -> Vec<char> {
    text.chars().collect()
}

#[test]
fn a_number_stands_for_itself() {
    assert_eq!(parse_range_set("42"), Ok(vec![42]));
    assert_eq!(parse_range_set("0"), Ok(vec![0]));
    assert_eq!(parse_range_set("18446744073709551615"), Ok(vec![u64::MAX]));
}

#[test]
fn what_decimal_formatting_writes_reads_back() {
    for n in [0u64, 1, 9, 10, 99, 1000, 4294967296, u64::MAX - 1, u64::MAX] {
        let text = format_value(n, NumberBase::Decimal, false, 0);
        assert_eq!(parse_range_set(&text), Ok(vec![n]));
    }
}

#[test]
fn a_range_stands_for_all_its_numbers_in_rising_order() {
    assert_eq!(parse_range_set("3-7"), Ok(vec![3, 4, 5, 6, 7]));
    assert_eq!(parse_range_set("0-2"), Ok(vec![0, 1, 2]));
}

#[test]
fn a_range_of_one_number() {
    assert_eq!(parse_range_set("5-5"), Ok(vec![5]));
    assert_eq!(parse_range_set("0-0"), Ok(vec![0]));
}

#[test]
fn a_range_that_falls_is_refused() {
    assert_eq!(parse_range_set("7-3"), Err(ParseError::InvalidRange(7, 3)));
    assert_eq!(parse_range_set("1-0"), Err(ParseError::InvalidRange(1, 0)));
}

#[test]
fn a_range_up_to_the_greatest_value_does_not_overflow() {
    assert_eq!(
        parse_range_set("18446744073709551613-18446744073709551615"),
        Ok(vec![u64::MAX - 2, u64::MAX - 1, u64::MAX])
    );
    assert_eq!(
        parse_range_set("18446744073709551615-18446744073709551615"),
        Ok(vec![u64::MAX])
    );
}

#[test]
fn numbers_and_ranges_in_one_description() {
    assert_eq!(parse_range_set("1-3,5,7-8"), Ok(vec![1, 2, 3, 5, 7, 8]));
}

#[test]
fn order_and_repetition_are_kept() {
    assert_eq!(parse_range_set("5,1-3,2"), Ok(vec![5, 1, 2, 3, 2]));
    assert_eq!(parse_range_set("4,4,4"), Ok(vec![4, 4, 4]));
}

#[test]
fn an_empty_description_gives_no_numbers_and_no_error() {
    assert_eq!(parse_range_set(""), Ok(vec![]));
    assert_eq!(parse_range_set("   "), Ok(vec![]));
    assert_eq!(parse_range_set(",, ,\n,\t"), Ok(vec![]));
}

#[test]
fn blank_tokens_are_passed_over() {
    assert_eq!(parse_range_set("1,2,"), Ok(vec![1, 2]));
    assert_eq!(parse_range_set(",1,,2"), Ok(vec![1, 2]));
    assert_eq!(parse_range_set("1,\n2,\n"), Ok(vec![1, 2]));
}

#[test]
fn spaces_round_tokens_and_round_range_sides_do_not_count() {
    assert_eq!(parse_range_set("  7  "), Ok(vec![7]));
    assert_eq!(parse_range_set("3 - 7"), Ok(vec![3, 4, 5, 6, 7]));
    assert_eq!(parse_range_set(" 1 - 2 , 9 "), Ok(vec![1, 2, 9]));
    assert_eq!(parse_range_set("\u{a0}5\u{3000}"), Ok(vec![5]));
}

#[test]
fn a_space_inside_a_number_is_refused() {
    assert_eq!(
        parse_range_set("1 2"),
        Err(ParseError::InvalidNumber("1 2".to_string()))
    );
}

#[test]
fn text_that_is_no_number_is_refused() {
    assert_eq!(
        parse_range_set("abc"),
        Err(ParseError::InvalidNumber("abc".to_string()))
    );
    assert_eq!(
        parse_range_set("12a"),
        Err(ParseError::InvalidNumber("12a".to_string()))
    );
    assert_eq!(
        parse_range_set("1.5"),
        Err(ParseError::InvalidNumber("1.5".to_string()))
    );
    assert_eq!(
        parse_range_set("+5"),
        Err(ParseError::InvalidNumber("+5".to_string()))
    );
    assert_eq!(
        parse_range_set("\u{663}"),
        Err(ParseError::InvalidNumber("\u{663}".to_string()))
    );
}

#[test]
fn a_number_beyond_64_bits_is_refused() {
    assert_eq!(
        parse_range_set("18446744073709551616"),
        Err(ParseError::InvalidNumber("18446744073709551616".to_string()))
    );
    assert_eq!(
        parse_range_set("99999999999999999999999999"),
        Err(ParseError::InvalidNumber("99999999999999999999999999".to_string()))
    );
    assert_eq!(
        parse_range_set("0-18446744073709551616"),
        Err(ParseError::InvalidNumber("18446744073709551616".to_string()))
    );
}

#[test]
fn leading_zeros_are_read() {
    assert_eq!(parse_range_set("007"), Ok(vec![7]));
    assert_eq!(
        parse_range_set("00000000000000000000000000018446744073709551615"),
        Ok(vec![u64::MAX])
    );
}

#[test]
fn more_than_one_dash_is_a_wrong_range_format() {
    assert_eq!(
        parse_range_set("1-2-3"),
        Err(ParseError::InvalidRangeFormat("1-2-3".to_string()))
    );
    assert_eq!(
        parse_range_set("--"),
        Err(ParseError::InvalidRangeFormat("--".to_string()))
    );
    assert_eq!(
        parse_range_set(" 1 - 2 - 3 "),
        Err(ParseError::InvalidRangeFormat("1 - 2 - 3".to_string()))
    );
}

#[test]
fn a_range_side_that_is_no_number_is_named_as_it_stands() {
    assert_eq!(parse_range_set("5-"), Err(ParseError::InvalidNumber("".to_string())));
    assert_eq!(parse_range_set("-5"), Err(ParseError::InvalidNumber("".to_string())));
    assert_eq!(parse_range_set("-"), Err(ParseError::InvalidNumber("".to_string())));
    assert_eq!(
        parse_range_set("a-5"),
        Err(ParseError::InvalidNumber("a".to_string()))
    );
    assert_eq!(
        parse_range_set(" 5 - x "),
        Err(ParseError::InvalidNumber(" x".to_string()))
    );
    assert_eq!(
        parse_range_set("x -y"),
        Err(ParseError::InvalidNumber("x ".to_string()))
    );
}

#[test]
fn the_first_wrong_token_decides() {
    assert_eq!(
        parse_range_set("1,abc,1-2-3"),
        Err(ParseError::InvalidNumber("abc".to_string()))
    );
    assert_eq!(
        parse_range_set("1-2-3,abc"),
        Err(ParseError::InvalidRangeFormat("1-2-3".to_string()))
    );
    assert_eq!(parse_range_set("9-1,abc"), Err(ParseError::InvalidRange(9, 1)));
}

#[test]
fn reading_the_same_text_twice_gives_the_same_numbers() {
    let once = parse_range_set("10-12, 3, 3, 40-41");
    let again = parse_range_set("10-12, 3, 3, 40-41");
    assert_eq!(once, again);
    assert_eq!(once, Ok(vec![10, 11, 12, 3, 3, 40, 41]));
}

#[test]
fn joining_two_descriptions_joins_their_numbers() {
    let left = "1-3, 9";
    let right = "2,2";
    let mut both = parse_range_set(left).unwrap();
    both.extend(parse_range_set(right).unwrap());
    assert_eq!(parse_range_set(&format!("{},{}", left, right)), Ok(both));
}

#[test]
fn messages_name_the_kind_and_the_text() {
    assert_eq!(
        ParseError::InvalidNumber("abc".to_string()).message(),
        "Invalid number: abc"
    );
    assert_eq!(
        ParseError::InvalidRangeFormat("1-2-3".to_string()).message(),
        "Invalid range format: 1-2-3"
    );
    assert_eq!(ParseError::InvalidRange(7, 3).message(), "Invalid range: 7 > 3");
    assert_eq!(
        ParseError::InvalidRange(u64::MAX, 0).message(),
        "Invalid range: 18446744073709551615 > 0"
    );
    assert_eq!(ParseError::InvalidNumber(String::new()).message(), "Invalid number: ");
}

#[test]
fn messages_of_errors_that_parsing_gives() {
    assert_eq!(parse_range_set("abc").unwrap_err().message(), "Invalid number: abc");
    assert_eq!(
        parse_range_set("1-2-3").unwrap_err().message(),
        "Invalid range format: 1-2-3"
    );
    assert_eq!(parse_range_set("20-10").unwrap_err().message(), "Invalid range: 20 > 10");
}

#[test]
fn parse_u64_reads_digits_only() {
    assert_eq!(parse_u64(&chars("0")), Some(0));
    assert_eq!(parse_u64(&chars("1905")), Some(1905));
    assert_eq!(parse_u64(&chars("18446744073709551615")), Some(u64::MAX));
    assert_eq!(parse_u64(&chars("18446744073709551616")), None);
    assert_eq!(parse_u64(&chars("184467440737095516150")), None);
    assert_eq!(parse_u64(&chars("")), None);
    assert_eq!(parse_u64(&chars(" 1")), None);
    assert_eq!(parse_u64(&chars("1x")), None);
    assert_eq!(parse_u64(&chars("-1")), None);
    assert_eq!(parse_u64(&chars("/")), None);
    assert_eq!(parse_u64(&chars(":")), None);
}

#[test]
fn parse_token_gives_the_two_ends() {
    assert_eq!(parse_token(&chars("8")), Ok((8, 8)));
    assert_eq!(parse_token(&chars("2-9")), Ok((2, 9)));
    assert_eq!(parse_token(&chars("2 -\t9")), Ok((2, 9)));
    assert_eq!(parse_token(&chars("9-2")), Err(ParseError::InvalidRange(9, 2)));
    assert_eq!(
        parse_token(&chars("0-18446744073709551615")),
        Ok((0, u64::MAX))
    );
}

#[test]
fn append_range_keeps_what_was_there() {
    let mut out = vec![100];
    append_range(&mut out, 3, 5);
    assert_eq!(out, vec![100, 3, 4, 5]);
    append_range(&mut out, 7, 7);
    assert_eq!(out, vec![100, 3, 4, 5, 7]);
}

#[test]
fn split_on_gives_one_piece_more_than_separators() {
    let pieces = split_on(&chars("a,b,,c,"), ',');
    assert_eq!(
        pieces,
        vec![chars("a"), chars("b"), chars(""), chars("c"), chars("")]
    );
    assert_eq!(split_on(&chars(""), ','), vec![chars("")]);
    assert_eq!(split_on(&chars("abc"), ','), vec![chars("abc")]);
    assert_eq!(split_on(&chars(","), ','), vec![chars(""), chars("")]);
}

#[test]
fn trimmed_drops_spaces_at_both_ends_only() {
    assert_eq!(trimmed(&chars("  a b \n")), chars("a b"));
    assert_eq!(trimmed(&chars("a")), chars("a"));
    assert_eq!(trimmed(&chars("")), chars(""));
    assert_eq!(trimmed(&chars(" \t\r\n")), chars(""));
    assert_eq!(trimmed(&chars("\u{2003}x\u{85}")), chars("x"));
}

#[test]
fn spaces_are_those_that_the_standard_library_trims() {
    for code in 0u32..0x3100 {
        if let Some(c) = char::from_u32(code) {
            assert_eq!(is_space_char(c), c.is_whitespace(), "U+{:04X}", code);
        }
    }
    assert!(!is_space_char('\u{feff}'));
    assert!(!is_space_char('\u{200b}'));
}

#[test]
fn contains_char_and_slice_of() {
    assert!(contains_char(&chars("1-2"), '-'));
    assert!(!contains_char(&chars("12"), '-'));
    assert!(!contains_char(&chars(""), '-'));
    assert_eq!(slice_of(&chars("hello"), 1, 3), chars("el"));
    assert_eq!(slice_of(&chars("hello"), 2, 2), chars(""));
    assert_eq!(slice_of(&chars("hello"), 0, 5), chars("hello"));
}

#[test]
fn strings_and_characters_convert_both_ways() {
    assert_eq!(chars_of("a-ß→𝄞"), chars("a-ß→𝄞"));
    assert_eq!(chars_of(""), Vec::<char>::new());
    assert_eq!(string_of(&chars("a-ß→𝄞")), "a-ß→𝄞");
    assert_eq!(string_of(&Vec::new()), "");
}
