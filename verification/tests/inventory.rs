use advent::inventory::{checksum, common_box_ids, has_repeated};

fn ids(texts: &[&str]) -> Vec<String> {
    texts.iter().map(|t| String::from(*t)).collect()
}

#[test]
fn checksum_counts_twos_and_threes() {
    let boxes = ids(&["abcdef", "bababc", "abbcde", "abcccd", "aabcdd", "abcdee", "ababab"]);
    assert_eq!(checksum(&boxes), Some(12));
    assert_eq!(checksum(&ids(&[])), Some(0));
    assert_eq!(checksum(&ids(&["aa"])), Some(0));
    assert_eq!(checksum(&ids(&["aaa"])), Some(0));
    assert_eq!(checksum(&ids(&["aa", "bbb"])), Some(1));
    assert_eq!(checksum(&ids(&["aabbb"])), Some(1));
    assert_eq!(checksum(&ids(&["aabb", "aaaa", "cccdd", "xxxyyy"])), Some(4));
}

#[test]
fn a_letter_counts_where_it_stands_exactly_so_often() {
    let chars = |text: &str| text.chars().collect::<Vec<char>>();
    assert!(has_repeated(&chars("bababc"), 2));
    assert!(has_repeated(&chars("bababc"), 3));
    assert!(has_repeated(&chars("bababc"), 1));
    assert!(!has_repeated(&chars("bababc"), 4));
    assert!(!has_repeated(&chars("aaaa"), 2));
    assert!(!has_repeated(&chars("aaaa"), 3));
    assert!(has_repeated(&chars("aaaa"), 4));
    assert!(!has_repeated(&chars(""), 2));
    assert!(!has_repeated(&chars(""), 0));
    assert!(!has_repeated(&chars("abc"), 0));
}

#[test]
fn the_common_boxes_differ_in_one_place() {
    let boxes = ids(&["abcde", "fghij", "klmno", "pqrst", "fguij", "axcye", "wvxyz"]);
    assert_eq!(common_box_ids(&boxes), (String::from("fghij"), String::from("fguij")));
}

#[test]
fn without_such_boxes_the_words_say_so() {
    assert_eq!(common_box_ids(&ids(&[])), (String::from("DID"), String::from("NOT WORK")));
    assert_eq!(common_box_ids(&ids(&["abc"])), (String::from("DID"), String::from("NOT WORK")));
    assert_eq!(common_box_ids(&ids(&["abc", "xyc"])), (String::from("DID"), String::from("NOT WORK")));
}

#[test]
fn of_several_pairs_the_last_one_is_taken() {
    let boxes = ids(&["aaa", "aab", "zzz", "zzy"]);
    assert_eq!(common_box_ids(&boxes), (String::from("zzz"), String::from("zzy")));
    let boxes = ids(&["aaa", "aab", "abb"]);
    assert_eq!(common_box_ids(&boxes), (String::from("aab"), String::from("abb")));
    let boxes = ids(&["aaa", "aab", "aac"]);
    assert_eq!(common_box_ids(&boxes), (String::from("aab"), String::from("aac")));
    // Equal identifiers differ in no place, and what is longer is not held against.
    let boxes = ids(&["ab", "ab"]);
    assert_eq!(common_box_ids(&boxes), (String::from("ab"), String::from("ab")));
    let boxes = ids(&["ab", "abxyz"]);
    assert_eq!(common_box_ids(&boxes), (String::from("ab"), String::from("abxyz")));
}
