use number_converter::base::NumberBase;
use number_converter::converter::{NumberConverterApp, Request};
use number_converter::parse::{parse_range_set, ParseError};

fn with_input(text: &str) -> NumberConverterApp {
    let mut app = NumberConverterApp::default();
    app.range_input = text.to_string();
    app
}

#[test]
fn a_converter_starts_with_nothing_drawn() {
    let app = NumberConverterApp::default();
    assert_eq!(app.range_input, "");
    assert_eq!(app.input_base, NumberBase::Decimal);
    assert_eq!(app.output_base, NumberBase::Binary);
    assert!(!app.pad_input);
    assert!(!app.pad_output);
    assert_eq!(app.input_length, 8);
    assert_eq!(app.output_length, 8);
    assert_eq!(app.generated_number, None);
    assert!(!app.show_converted);
    assert_eq!(app.error_message, "");
    assert_eq!(app.input_text(), None);
    assert_eq!(app.output_text(), None);
    assert!(!app.has_error());
}

#[test]
fn a_draw_from_one_number_gives_that_number() {
    for _ in 0..50 {
        let mut app = with_input("7");
        app.generate_random();
        assert_eq!(app.generated_number, Some(7));
        assert_eq!(app.error_message, "");
    }
}

#[test]
fn a_draw_gives_one_of_the_candidates() {
    let mut seen = [false; 4];
    for _ in 0..400 {
        let mut app = with_input("10-12, 20");
        app.generate_random();
        let n = app.generated_number.unwrap();
        assert!(n == 10 || n == 11 || n == 12 || n == 20);
        let slot = if n == 20 { 3 } else { (n - 10) as usize };
        seen[slot] = true;
    }
    assert_eq!(seen, [true; 4]);
}

#[test]
fn a_draw_clears_the_message() {
    let mut app = with_input("abc");
    app.generate_random();
    assert!(app.has_error());
    app.range_input = "1-3".to_string();
    app.generate_random();
    assert!(!app.has_error());
    assert_eq!(app.error_message, "");
    assert!(app.generated_number.is_some());
}

#[test]
fn an_empty_set_leaves_the_number_and_says_so() {
    let mut app = with_input("   ");
    app.generated_number = Some(99);
    app.generate_random();
    assert_eq!(app.generated_number, Some(99));
    assert_eq!(app.error_message, "No valid numbers provided");
    assert!(app.has_error());

    let mut fresh = with_input("");
    fresh.generate_random();
    assert_eq!(fresh.generated_number, None);
    assert_eq!(fresh.error_message, "No valid numbers provided");
}

#[test]
fn a_wrong_description_leaves_the_number_and_says_why() {
    let mut app = with_input("1-2-3");
    app.generated_number = Some(5);
    app.generate_random();
    assert_eq!(app.generated_number, Some(5));
    assert_eq!(app.error_message, "Invalid range format: 1-2-3");

    app.range_input = "x".to_string();
    app.generate_random();
    assert_eq!(app.error_message, "Invalid number: x");

    app.range_input = "9-1".to_string();
    app.generate_random();
    assert_eq!(app.error_message, "Invalid range: 9 > 1");
    assert_eq!(app.generated_number, Some(5));
}

#[test]
fn the_same_candidates_and_index_give_the_same_number() {
    for index in 0..6 {
        let mut once = NumberConverterApp::default();
        let mut again = NumberConverterApp::default();
        once.draw_at(parse_range_set("1-3,5,7-8"), index);
        again.draw_at(parse_range_set("1-3,5,7-8"), index);
        assert_eq!(once.generated_number, again.generated_number);
        assert_eq!(once.generated_number, Some([1, 2, 3, 5, 7, 8][index]));
    }
}

#[test]
fn draw_at_records_errors_and_the_empty_set() {
    let mut app = NumberConverterApp::default();
    app.draw_at(Ok(vec![4, 5]), 1);
    assert_eq!(app.generated_number, Some(5));
    app.draw_at(Ok(Vec::new()), 3);
    assert_eq!(app.generated_number, Some(5));
    assert_eq!(app.error_message, "No valid numbers provided");
    app.draw_at(Err(ParseError::InvalidRange(2, 1)), 0);
    assert_eq!(app.generated_number, Some(5));
    assert_eq!(app.error_message, "Invalid range: 2 > 1");
    app.draw_at(Ok(vec![8]), 0);
    assert_eq!(app.generated_number, Some(8));
    assert_eq!(app.error_message, "");
}

#[test]
fn draw_at_changes_nothing_else() {
    let mut app = with_input("1,2");
    app.input_base = NumberBase::Hexadecimal;
    app.output_base = NumberBase::Base64;
    app.pad_input = true;
    app.pad_output = true;
    app.input_length = 12;
    app.output_length = 34;
    app.show_converted = true;
    app.draw_at(Ok(vec![1, 2]), 0);
    assert_eq!(app.range_input, "1,2");
    assert_eq!(app.input_base, NumberBase::Hexadecimal);
    assert_eq!(app.output_base, NumberBase::Base64);
    assert!(app.pad_input && app.pad_output && app.show_converted);
    assert_eq!((app.input_length, app.output_length), (12, 34));
}

#[test]
fn check_shows_the_second_rendering_and_a_new_draw_hides_it() {
    let mut app = with_input("5");
    app.pad_output = true;
    app.handle(Request::Generate);
    assert_eq!(app.generated_number, Some(5));
    assert!(!app.show_converted);
    assert_eq!(app.input_text(), Some("5".to_string()));
    assert_eq!(app.output_text(), None);

    app.handle(Request::Check);
    assert!(app.show_converted);
    assert_eq!(app.input_text(), Some("5".to_string()));
    assert_eq!(app.output_text(), Some("00000101".to_string()));

    app.handle(Request::Generate);
    assert!(!app.show_converted);
    assert_eq!(app.output_text(), None);
}

#[test]
fn check_before_any_draw_shows_nothing() {
    let mut app = NumberConverterApp::default();
    app.handle(Request::Check);
    assert!(app.show_converted);
    assert_eq!(app.generated_number, None);
    assert_eq!(app.input_text(), None);
    assert_eq!(app.output_text(), None);
}

#[test]
fn renderings_follow_the_settings() {
    let mut app = NumberConverterApp::default();
    app.generated_number = Some(256);
    app.show_converted = true;
    app.input_base = NumberBase::Hexadecimal;
    app.pad_input = true;
    app.input_length = 6;
    app.output_base = NumberBase::Base64;
    assert_eq!(app.input_text(), Some("000100".to_string()));
    assert_eq!(app.output_text(), Some("AQA=".to_string()));
}

#[test]
fn a_failed_draw_still_hides_the_second_rendering() {
    let mut app = with_input("oops");
    app.generated_number = Some(3);
    app.show_converted = true;
    app.handle(Request::Generate);
    assert!(!app.show_converted);
    assert_eq!(app.generated_number, Some(3));
    assert_eq!(app.error_message, "Invalid number: oops");
    assert_eq!(app.input_text(), Some("3".to_string()));
}
