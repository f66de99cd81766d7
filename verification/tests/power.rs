use advent::power::{best_square, number_to_vec, power_grid, power_level, power_of_sub_grid};

#[test]
fn digits_of_a_number() {
    assert_eq!(number_to_vec(0), vec![0]);
    assert_eq!(number_to_vec(7), vec![7]);
    assert_eq!(number_to_vec(10), vec![1, 0]);
    assert_eq!(number_to_vec(949), vec![9, 4, 9]);
    assert_eq!(number_to_vec(12345), vec![1, 2, 3, 4, 5]);
    assert_eq!(number_to_vec(i32::MAX), vec![2, 1, 4, 7, 4, 8, 3, 6, 4, 7]);
}

#[test]
fn power_is_the_sum_of_the_square() {
    let grid = vec![vec![1, 2, 3, 4], vec![5, 6, 7, 8], vec![9, 10, 11, 12], vec![-13, -14, -15, -16]];
    assert_eq!(power_of_sub_grid((0, 0), 1, &grid), 1);
    assert_eq!(power_of_sub_grid((0, 0), 0, &grid), 0);
    assert_eq!(power_of_sub_grid((4, 4), 0, &grid), 0);
    assert_eq!(power_of_sub_grid((0, 0), 2, &grid), 1 + 2 + 5 + 6);
    assert_eq!(power_of_sub_grid((1, 2), 2, &grid), 7 + 8 + 11 + 12);
    assert_eq!(power_of_sub_grid((2, 0), 2, &grid), 9 + 10 - 13 - 14);
    assert_eq!(power_of_sub_grid((1, 1), 3, &grid), 6 + 7 + 8 + 10 + 11 + 12 - 14 - 15 - 16);
    assert_eq!(power_of_sub_grid((0, 0), 4, &grid), 78 - 58);
}

#[test]
fn sums_on_the_way_may_leave_the_range() {
    let grid = vec![vec![i32::MAX, i32::MAX], vec![i32::MIN, i32::MIN]];
    assert_eq!(power_of_sub_grid((0, 0), 2, &grid), -2);
}

#[test]
fn power_level_is_the_hundreds_digit_less_five() {
    assert_eq!(power_level(3, 5, 8), 4);
    assert_eq!(power_level(122, 79, 57), -5);
    assert_eq!(power_level(217, 196, 39), 0);
    assert_eq!(power_level(101, 153, 71), 4);
    assert_eq!(power_level(0, 0, 0), -5);
    assert_eq!(power_level(0, 0, 9), -5);
    assert_eq!(power_level(0, 0, 10), -4);
    assert_eq!(power_level(0, 0, 99), 4);
    assert_eq!(power_level(0, 0, 100), -5);
}

#[test]
fn the_best_square_is_the_first_with_the_most_power() {
    let grid = power_grid(18);
    assert_eq!(grid.len(), 300);
    assert_eq!(grid[299].len(), 300);
    assert_eq!(grid[33][45], 4);
    assert_eq!(best_square(&grid, 3), (29, (33, 45)));
    let grid = power_grid(42);
    assert_eq!(best_square(&grid, 3), (30, (21, 61)));

    let flat = vec![vec![1, 1, 1], vec![1, 1, 1], vec![1, 1, 2]];
    assert_eq!(best_square(&flat, 1), (2, (2, 2)));
    assert_eq!(best_square(&flat, 2), (5, (1, 1)));
    assert_eq!(best_square(&flat, 3), (10, (0, 0)));
    let even = vec![vec![7, 7], vec![7, 7]];
    assert_eq!(best_square(&even, 1), (7, (0, 0)));
    let low = vec![vec![-100000, -100001], vec![-200000, -100000]];
    assert_eq!(best_square(&low, 1), (-100000, (0, 0)));
    let rise = vec![vec![1, 2], vec![3, 3]];
    assert_eq!(best_square(&rise, 1), (3, (1, 0)));
}
