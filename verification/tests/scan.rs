use advent::scan::{chars_of, parse_char, parse_signed, parse_unsigned};
use advent::scheduler::steps::{step_from_line, step_from_tokens};
use advent::coordinates::{point_from_line, POI};

#[test]
fn unsigned_numbers() {
    assert_eq!(parse_unsigned("0", 10), Some(0));
    assert_eq!(parse_unsigned("10", 10), Some(10));
    assert_eq!(parse_unsigned("11", 10), None);
    assert_eq!(parse_unsigned("+7", 10), Some(7));
    assert_eq!(parse_unsigned("007", 10), Some(7));
    assert_eq!(parse_unsigned("-0", 10), None);
    assert_eq!(parse_unsigned("", 10), None);
    assert_eq!(parse_unsigned("+", 10), None);
    assert_eq!(parse_unsigned("++1", 10), None);
    assert_eq!(parse_unsigned("1a", 10), None);
    assert_eq!(parse_unsigned(" 1", 10), None);
    assert_eq!(parse_unsigned("9", 5), None);
    assert_eq!(parse_unsigned("18446744073709551615", u64::MAX), Some(u64::MAX));
    assert_eq!(parse_unsigned("18446744073709551616", u64::MAX), None);
    assert_eq!(parse_unsigned("99999999999999999999999", u64::MAX), None);
    assert_eq!(parse_unsigned("65535", 65535), Some(65535));
    assert_eq!(parse_unsigned("65536", 65535), None);
    assert_eq!(parse_unsigned("\u{663}", 10), None);
}

#[test]
fn signed_numbers() {
    assert_eq!(parse_signed("0"), Some(0));
    assert_eq!(parse_signed("-0"), Some(0));
    assert_eq!(parse_signed("+12"), Some(12));
    assert_eq!(parse_signed("-12"), Some(-12));
    assert_eq!(parse_signed("-"), None);
    assert_eq!(parse_signed("-+1"), None);
    assert_eq!(parse_signed("+-1"), None);
    assert_eq!(parse_signed("1-"), None);
    assert_eq!(parse_signed("9223372036854775807"), Some(i64::MAX));
    assert_eq!(parse_signed("9223372036854775808"), None);
    assert_eq!(parse_signed("-9223372036854775808"), Some(i64::MIN));
    assert_eq!(parse_signed("-9223372036854775809"), None);
}

#[test]
fn numbers_agree_with_the_standard_library() {
    for text in ["0", "+0", "-0", "5", "+5", "-5", "", "+", "-", "05", "5 ", "1_0", "0x1", "１"] {
        assert_eq!(parse_signed(text), text.parse::<i64>().ok());
        assert_eq!(parse_unsigned(text, u64::MAX), text.parse::<u64>().ok());
        assert_eq!(parse_unsigned(text, 65535), text.parse::<u16>().ok().map(|v| v as u64));
    }
}

#[test]
fn one_character() {
    assert_eq!(parse_char("a"), Some('a'));
    assert_eq!(parse_char("é"), Some('é'));
    assert_eq!(parse_char(""), None);
    assert_eq!(parse_char("ab"), None);
    assert_eq!(chars_of("aé1"), vec!['a', 'é', '1']);
    assert_eq!(chars_of(""), Vec::<char>::new());
}

#[test]
fn a_step_names_parent_and_child() {
    assert_eq!(step_from_line("Step C must be finished before step A can begin."), Some(('C', 'A')));
    assert_eq!(step_from_line("Step A must be finished before step C can begin."), Some(('A', 'C')));
    assert_eq!(step_from_line("Step C must be finished before step A"), Some(('C', 'A')));
    assert_eq!(step_from_line("Step CA must be finished before step A can begin."), None);
    assert_eq!(step_from_line("Step C must be done before step A can begin."), None);
    assert_eq!(step_from_line("Step C"), None);
    assert_eq!(step_from_line(""), None);
    assert_eq!(step_from_tokens(&vec![String::from("x"), String::from("y")]), Some(('x', 'y')));
    assert_eq!(step_from_tokens(&vec![String::from("x")]), None);
    assert_eq!(step_from_tokens(&vec![String::from("x"), String::from("")]), None);
}

#[test]
fn a_place_is_two_numbers() {
    assert_eq!(point_from_line("137, 282", 3), Some(POI { x: 137, y: 282, index: 3 }));
    assert_eq!(point_from_line("137,282", 0), Some(POI { x: 137, y: 282, index: 0 }));
    assert_eq!(point_from_line("137 282", 0), None);
    assert_eq!(point_from_line("137, -282", 0), None);
    assert_eq!(point_from_line("137", 0), None);
}

/// A run of texts made of the characters that the formats are made of.
fn texts(count: usize) -> Vec<String> {
    let alphabet: Vec<char> =
        "[]{}<>#@:,.=-+* \t\nxGSbdeps0123456789/\\^é".chars().collect();
    let mut state: u64 = 0x2545F4914F6CDD1D;
    let mut all = vec![];
    for _ in 0..count {
        let mut text = String::new();
        state = state.wrapping_mul(6364136223846793005).wrapping_add(1442695040888963407);
        let length = (state >> 59) as usize;
        for _ in 0..length {
            state = state.wrapping_mul(6364136223846793005).wrapping_add(1442695040888963407);
            text.push(alphabet[(state >> 33) as usize % alphabet.len()]);
        }
        all.push(text);
    }
    all
}

#[test]
fn any_text_can_be_scanned() {
    let mut read = 0;
    for text in texts(1500) {
        if step_from_line(&text).is_some() {
            read += 1;
        }
        if point_from_line(&text, 0).is_some() {
            read += 1;
        }
        if advent::fabric::convert_line_to_variables(text.clone()).is_some() {
            read += 1;
        }
        if advent::stars::convert_line_to_variables(text.clone()).is_some() {
            read += 1;
        }
        if advent::plants::create_note(&text).is_some() {
            read += 1;
        }
        if advent::guards::event_type_from_text(&text).is_some() {
            read += 1;
        }
        if advent::guards::TimelineEvent::new(text.clone()).is_some() {
            read += 1;
        }
    }
    assert!(read > 0);
}

#[test]
fn a_text_that_begins_like_a_line_can_be_scanned() {
    let heads = [
        "Step ", "Step C must be finished before step ", "#1 @ ", "#1 @ 2,3: ", "#1 @ 2,3: 4x",
        "position=<", "position=<1,2>velocity=<", "[1518-", "[1518-11-01 ", "[1518-11-01 00:",
        "[1518-11-01 00:00] ", "[1518-11-01 00:00] Guard #", "Guard #", "...", "...#. ", "...#. =",
        "...#. => ", "1, ", "",
    ];
    let mut read = 0;
    for head in heads {
        for tail in texts(80) {
            let text = format!("{}{}", head, tail);
            if step_from_line(&text).is_some() {
                read += 1;
            }
            if point_from_line(&text, 0).is_some() {
                read += 1;
            }
            if advent::fabric::convert_line_to_variables(text.clone()).is_some() {
                read += 1;
            }
            if advent::stars::convert_line_to_variables(text.clone()).is_some() {
                read += 1;
            }
            if advent::plants::create_note(&text).is_some() {
                read += 1;
            }
            if advent::guards::event_type_from_text(&text).is_some() {
                read += 1;
            }
            if advent::guards::TimelineEvent::new(text.clone()).is_some() {
                read += 1;
            }
        }
    }
    assert!(read > 0);
}
