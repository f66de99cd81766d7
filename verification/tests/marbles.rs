use advent::marbles::{clockwise, counter_clockwise, play_game};
use std::collections::VecDeque;

#[test]
fn examples_works() {
    assert_eq!(play_game(13, 7999), Some(146373));
    assert_eq!(play_game(17, 1104), Some(2764));
    assert_eq!(play_game(21, 6111), Some(54718));
    assert_eq!(play_game(30, 5807), Some(37305));

    // Part 1
    assert_eq!(play_game(424, 71482), Some(408679));

    // Part 2
    assert_eq!(play_game(424, 7148200), Some(3443939356));
}

#[test]
fn first_example_of_the_game() {
    assert_eq!(play_game(9, 25), Some(32));
    assert_eq!(play_game(10, 1618), Some(8317));
}

#[test]
fn no_marble_scores_before_the_twenty_third() {
    assert_eq!(play_game(9, 0), Some(0));
    assert_eq!(play_game(9, 22), Some(0));
    assert_eq!(play_game(0, 22), Some(0));
    assert_eq!(play_game(9, 23), Some(32));
    assert_eq!(play_game(1, 23), Some(32));
}

#[test]
fn clockwise_moves_the_back_to_the_front() {
    let mut circle: VecDeque<usize> = VecDeque::from(vec![1, 2, 3, 4, 5]);
    clockwise(&mut circle, 2);
    assert_eq!(circle, VecDeque::from(vec![4, 5, 1, 2, 3]));
    clockwise(&mut circle, 5);
    assert_eq!(circle, VecDeque::from(vec![4, 5, 1, 2, 3]));
    clockwise(&mut circle, 0);
    assert_eq!(circle, VecDeque::from(vec![4, 5, 1, 2, 3]));
    clockwise(&mut circle, 11);
    assert_eq!(circle, VecDeque::from(vec![3, 4, 5, 1, 2]));
    let mut empty: VecDeque<usize> = VecDeque::new();
    clockwise(&mut empty, 3);
    assert!(empty.is_empty());
}

#[test]
fn counter_clockwise_moves_the_front_to_the_back() {
    let mut circle: VecDeque<usize> = VecDeque::from(vec![1, 2, 3, 4, 5]);
    counter_clockwise(&mut circle, 2);
    assert_eq!(circle, VecDeque::from(vec![3, 4, 5, 1, 2]));
    counter_clockwise(&mut circle, 13);
    assert_eq!(circle, VecDeque::from(vec![1, 2, 3, 4, 5]));
    let mut empty: VecDeque<usize> = VecDeque::new();
    counter_clockwise(&mut empty, 3);
    assert!(empty.is_empty());
}
