use binero::difficulty::Difficulty;
use binero::size::Size;
use binero::value::Value;

#[test]
fn value_from_char_recognises_the_two_symbols() {
    assert_eq!(Value::from_char('0'), Some(Value::First));
    assert_eq!(Value::from_char('1'), Some(Value::Second));
    assert_eq!(Value::from_char('2'), None);
    assert_eq!(Value::from_char('x'), None);
}

#[test]
fn value_from_u8_recognises_zero_and_one() {
    assert_eq!(Value::from_u8(0), Some(Value::First));
    assert_eq!(Value::from_u8(1), Some(Value::Second));
    assert_eq!(Value::from_u8(2), None);
    assert_eq!(Value::from_u8(255), None);
}

#[test]
fn the_other_value_toggles() {
    assert_eq!(Value::First.the_other(), Value::Second);
    assert_eq!(Value::Second.the_other(), Value::First);
    assert_eq!(Value::First.the_other().the_other(), Value::First);
}

#[test]
fn size_as_u8_gives_the_side_length() {
    assert_eq!(Size::Side6.as_u8(), 6);
    assert_eq!(Size::Side8.as_u8(), 8);
    assert_eq!(Size::Side10.as_u8(), 10);
    assert_eq!(Size::Side12.as_u8(), 12);
    assert_eq!(Size::Side14.as_u8(), 14);
    assert_eq!(Size::Side16.as_u8(), 16);
}

#[test]
fn size_from_str_parses_side_lengths() {
    assert_eq!(Size::from_str("6"), Some(Size::Side6));
    assert_eq!(Size::from_str("8"), Some(Size::Side8));
    assert_eq!(Size::from_str("10"), Some(Size::Side10));
    assert_eq!(Size::from_str("12"), Some(Size::Side12));
    assert_eq!(Size::from_str("14"), Some(Size::Side14));
    assert_eq!(Size::from_str("16"), Some(Size::Side16));
    assert_eq!(Size::from_str("7"), None);
    assert_eq!(Size::from_str(""), None);
    assert_eq!(Size::from_str("6x6"), None);
}

#[test]
fn difficulty_from_str_parses_the_four_levels() {
    assert!(matches!(Difficulty::from_str("Beginner"), Some(Difficulty::Beginner)));
    assert!(matches!(Difficulty::from_str("Easy"), Some(Difficulty::Easy)));
    assert!(matches!(Difficulty::from_str("Medium"), Some(Difficulty::Medium)));
    assert!(matches!(Difficulty::from_str("Hard"), Some(Difficulty::Hard)));
    assert!(Difficulty::from_str("hard").is_none());
    assert!(Difficulty::from_str("").is_none());
}
