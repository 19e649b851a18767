use lifegame::rle::{is_alive, parse_decimal, parse_map, parse_setting, setting_from_fields, split, Rle};
use lifegame::standard_error::StandardError;

#[test]
fn test_parse_setting() {
    assert!(parse_setting("x = 1, y = x".to_string()).is_err());
    assert_eq!(parse_setting("x = 1, y = 23".to_string()).unwrap(), (1, 23));
}

#[test]
fn test_parse_map() {
    assert_eq!(parse_map(4, 4, 0, "2o$bobo$3bo!".to_string()), vec![
        true, true, false, false,
        false, true, false, true,
        false, false, false, true,
        false, false, false, false,
    ]);

    assert_eq!(parse_map(4, 4, 2, "2o$bobo$3bo!".to_string()), vec![
        false, false, false, false, false, false, false, false,
        false, false, false, false, false, false, false, false,
        false, false, true, true, false, false, false, false,
        false, false, false, true, false, true, false, false,
        false, false, false, false, false, true, false, false,
        false, false, false, false, false, false, false, false,
        false, false, false, false, false, false, false, false,
        false, false, false, false, false, false, false, false,
    ]);
}

#[test]
fn test_split() {
    let raw = "#N name\n#C comment\nx = 1, y = 2, rule = B3/S23\n13b\n22o!\n".to_string();
    let (setting, data) = split(raw).unwrap();
    assert_eq!(setting, "x = 1, y = 2, rule = B3/S23".to_string());
    assert_eq!(data, "13b22o!".to_string());

    let raw = "#C no data\nx = 1, y = 2, rule = B3/S23\n".to_string();
    assert!(split(raw).is_err());

    let raw = "#C no setting\nbo$2o!\n".to_string();
    assert!(split(raw).is_err());
}

#[test]
fn split_error_says_what_is_missing() {
    let e: StandardError = split(String::new()).unwrap_err();
    assert_eq!(e.description(), "lack");
}

#[test]
fn split_handles_crlf_lines() {
    let (setting, data) = split("x = 2, y = 1\r\nob\r\n!\r\n".to_string()).unwrap();
    assert_eq!(setting, "x = 2, y = 1");
    assert_eq!(data, "ob!");
}

#[test]
fn parse_setting_finds_the_numbers_inside_the_line() {
    assert_eq!(parse_setting("x = 10, y = 7, rule = B3/S23".to_string()).unwrap(), (10, 7));
    assert!(parse_setting("y = 1, x = 2".to_string()).is_err());
    assert!(parse_setting("x = 99999999999999999999999, y = 1".to_string()).is_err());
}

#[test]
fn setting_fields_must_be_digits_that_fit() {
    assert_eq!(setting_from_fields("12", "0").unwrap(), (12, 0));
    assert!(setting_from_fields("", "1").is_err());
    assert!(setting_from_fields("+1", "1").is_err());
    assert!(setting_from_fields("1", "18446744073709551616").is_err());
}

#[test]
fn decimal_parsing() {
    assert_eq!(parse_decimal(b"0"), Some(0));
    assert_eq!(parse_decimal(b"123"), Some(123));
    assert_eq!(parse_decimal(b"18446744073709551615"), Some(usize::MAX));
    assert_eq!(parse_decimal(b"18446744073709551616"), None);
    assert_eq!(parse_decimal(b""), None);
}

#[test]
fn parse_map_repeats_blank_lines_and_stops_at_bang() {
    assert_eq!(parse_map(2, 3, 0, "o2$bo!oo".to_string()), vec![
        true, false,
        false, false,
        false, true,
    ]);
    assert_eq!(parse_map(2, 1, 0, "3o!".to_string()), vec![true, true, true]);
    assert_eq!(parse_map(2, 2, 0, String::new()), vec![false; 4]);
}

#[test]
fn alive_tag() {
    assert!(is_alive(b'o'));
    assert!(!is_alive(b'b'));
}

#[test]
fn from_string_adds_the_margin() {
    let (w, h, cells) = Rle::from_string("#C glider\nx = 2, y = 1\nbo!\n", 1).unwrap();
    assert_eq!((w, h), (4, 3));
    assert_eq!(cells, vec![
        false, false, false, false,
        false, false, true, false,
        false, false, false, false,
    ]);
    assert!(Rle::from_string("x = 2, y = 1\n", 0).is_err());
    assert!(Rle::from_string("x = 2, y = q\nbo!\n", 0).is_err());
    assert!(Rle::from_string("x = 18446744073709551615, y = 1\nbo!\n", 1).is_err());
}
