use advent::frequency::{convert_line_to_number, final_frequency};

#[test]
fn it_works() {
    assert_eq!(convert_line_to_number("+4"), Some(4));
    assert_eq!(convert_line_to_number("-4"), Some(-4));
    assert_eq!(convert_line_to_number("0"), Some(0));
}

#[test]
fn numbers_at_the_ends_of_the_range() {
    assert_eq!(convert_line_to_number("+9223372036854775807"), Some(i64::MAX));
    assert_eq!(convert_line_to_number("9223372036854775807"), Some(i64::MAX));
    assert_eq!(convert_line_to_number("-9223372036854775808"), Some(i64::MIN));
    assert_eq!(convert_line_to_number("9223372036854775808"), None);
    assert_eq!(convert_line_to_number("+9223372036854775808"), None);
    assert_eq!(convert_line_to_number("-9223372036854775809"), None);
    assert_eq!(convert_line_to_number("-450"), Some(-450));
    assert_eq!(convert_line_to_number("+0005"), Some(5));
}

#[test]
fn a_line_that_is_no_number_gives_none() {
    assert_eq!(convert_line_to_number(""), None);
    assert_eq!(convert_line_to_number("+"), None);
    assert_eq!(convert_line_to_number("-"), None);
    assert_eq!(convert_line_to_number("four"), None);
    assert_eq!(convert_line_to_number("4 "), None);
    assert_eq!(convert_line_to_number("--4"), None);
}

#[test]
fn a_plus_anywhere_drops_the_first_character() {
    assert_eq!(convert_line_to_number("++4"), Some(4));
    assert_eq!(convert_line_to_number("x+4"), Some(4));
    assert_eq!(convert_line_to_number("-+4"), Some(4));
    assert_eq!(convert_line_to_number("4+"), None);
    assert_eq!(convert_line_to_number("14+"), None);
    assert_eq!(convert_line_to_number("+-4"), Some(-4));
}

#[test]
fn the_frequency_is_the_sum_of_the_changes() {
    let lines = |texts: &[&str]| texts.iter().map(|t| String::from(*t)).collect::<Vec<String>>();
    assert_eq!(final_frequency(&lines(&["+1", "-2", "+3", "+1"])), Some(3));
    assert_eq!(final_frequency(&lines(&["+1", "+1", "+1"])), Some(3));
    assert_eq!(final_frequency(&lines(&["-1", "-2", "-3"])), Some(-6));
    assert_eq!(final_frequency(&lines(&[])), Some(0));
    assert_eq!(final_frequency(&lines(&["+1", "x", "+3"])), None);
    assert_eq!(final_frequency(&lines(&["+9223372036854775807", "+1", "-1"])), None);
    assert_eq!(final_frequency(&lines(&["+9223372036854775807", "-1", "+1"])), Some(i64::MAX));
    assert_eq!(final_frequency(&lines(&["-9223372036854775808", "-1"])), None);
}
