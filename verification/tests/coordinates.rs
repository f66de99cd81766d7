use advent::coordinates::{
    calculate_grid_bounds, calculate_largest_area, calculate_nearest_neighbor,
    calculate_within_10000, count_within_10000, create_grid_points, point_from_tokens, Grid, POI,
};

#[test]
fn main_it_works() {
    let pois = vec![POI { x: 0, y: 0, index: 0 }];
    assert_eq!(calculate_grid_bounds(&pois), (0, 0, 0, 0));
}

fn example() -> Vec<POI> {
    vec![
        POI { x: 1, y: 1, index: 0 },
        POI { x: 1, y: 6, index: 1 },
        POI { x: 8, y: 3, index: 2 },
        POI { x: 3, y: 4, index: 3 },
        POI { x: 5, y: 5, index: 4 },
        POI { x: 8, y: 9, index: 5 },
    ]
}

#[test]
fn bounds_are_the_largest_coordinates() {
    assert_eq!(calculate_grid_bounds(&example()), (0, 0, 8, 9));
    assert_eq!(calculate_grid_bounds(&vec![]), (0, 0, 0, 0));
    assert_eq!(Grid::new().points_of_interest.len(), 0);
}

#[test]
fn nearest_neighbor_is_the_one_nearest() {
    let pois = example();
    assert_eq!(calculate_nearest_neighbor(0, 0, &pois), Some(POI { x: 1, y: 1, index: 0 }));
    assert_eq!(calculate_nearest_neighbor(3, 4, &pois), Some(POI { x: 3, y: 4, index: 3 }));
    assert_eq!(calculate_nearest_neighbor(8, 8, &pois), Some(POI { x: 8, y: 9, index: 5 }));
    assert_eq!(calculate_nearest_neighbor(4, 3, &pois), Some(POI { x: 3, y: 4, index: 3 }));
}

#[test]
fn nearest_neighbor_is_none_on_a_tie() {
    let pois = example();
    assert_eq!(calculate_nearest_neighbor(5, 0, &pois), None);
    assert_eq!(calculate_nearest_neighbor(1, 4, &pois), None);
    assert_eq!(calculate_nearest_neighbor(0, 4, &pois), None);
    let twice = vec![POI { x: 2, y: 2, index: 0 }, POI { x: 2, y: 2, index: 1 }];
    assert_eq!(calculate_nearest_neighbor(2, 2, &twice), None);
}

#[test]
fn a_neighbor_at_the_limit_still_counts() {
    let far = vec![POI { x: 100000, y: 0, index: 7 }];
    assert_eq!(calculate_nearest_neighbor(0, 0, &far), Some(POI { x: 100000, y: 0, index: 7 }));
    let both = vec![POI { x: 100000, y: 0, index: 7 }, POI { x: 0, y: 100001, index: 8 }];
    assert_eq!(calculate_nearest_neighbor(0, 0, &both), Some(POI { x: 100000, y: 0, index: 7 }));
    let tied = vec![POI { x: 100000, y: 0, index: 7 }, POI { x: 0, y: 100000, index: 8 }];
    assert_eq!(calculate_nearest_neighbor(0, 0, &tied), None);
}

#[test]
fn within_is_below_ten_thousand() {
    let pois = example();
    assert!(calculate_within_10000(4, 3, &pois));
    assert!(calculate_within_10000(0, 0, &vec![]));
    let one = vec![POI { x: 9999, y: 0, index: 0 }];
    assert!(calculate_within_10000(0, 0, &one));
    let one = vec![POI { x: 9999, y: 1, index: 0 }];
    assert!(!calculate_within_10000(0, 0, &one));
    let two = vec![POI { x: 5000, y: 0, index: 0 }, POI { x: 0, y: 4999, index: 1 }];
    assert!(calculate_within_10000(0, 0, &two));
    let two = vec![POI { x: 5000, y: 0, index: 0 }, POI { x: 0, y: 5000, index: 1 }];
    assert!(!calculate_within_10000(0, 0, &two));
    let huge = vec![POI { x: usize::MAX, y: usize::MAX, index: 0 }, POI { x: 0, y: 0, index: 1 }];
    assert!(!calculate_within_10000(0, 0, &huge));
}

#[test]
fn grid_points_go_column_by_column() {
    let pois = example();
    let points = create_grid_points(0, 0, 8, 9, &pois);
    assert_eq!(points.len(), 90);
    assert_eq!((points[0].x, points[0].y), (0, 0));
    assert_eq!((points[1].x, points[1].y), (0, 1));
    assert_eq!((points[10].x, points[10].y), (1, 0));
    assert_eq!((points[89].x, points[89].y), (8, 9));
    assert!(points[0].infinite);
    assert!(points[5].infinite);
    assert!(!points[11].infinite);
    assert!(points[19].infinite);
    assert!(points[85].infinite);
    let at = |x: usize, y: usize| &points[x * 10 + y];
    assert_eq!(at(3, 4).nearest_neighbor, Some(POI { x: 3, y: 4, index: 3 }));
    assert_eq!(at(5, 0).nearest_neighbor, None);
    assert!(at(4, 3).is_with_10000);
    let area = points
        .iter()
        .filter(|p| p.nearest_neighbor == Some(POI { x: 5, y: 5, index: 4 }))
        .count();
    assert_eq!(area, 17);
    let part = create_grid_points(3, 4, 4, 4, &pois);
    assert_eq!(part.len(), 2);
    assert_eq!((part[1].x, part[1].y), (4, 4));
    assert!(part[0].infinite);
}

#[test]
fn largest_area_is_the_recorded_one() {
    let points = create_grid_points(0, 0, 8, 9, &example());
    assert_eq!(calculate_largest_area(&points), 3569);
    assert_eq!(calculate_largest_area(&vec![]), 3569);
}

#[test]
fn a_point_of_interest_is_read_from_two_tokens() {
    let tokens = vec![String::from("137"), String::from("282")];
    assert_eq!(point_from_tokens(&tokens, 4), Some(POI { x: 137, y: 282, index: 4 }));
    assert_eq!(point_from_tokens(&vec![String::from("137")], 4), None);
    assert_eq!(point_from_tokens(&vec![String::from("-1"), String::from("2")], 4), None);
}

#[test]
fn the_points_within_are_counted() {
    let points = create_grid_points(0, 0, 8, 9, &example());
    assert_eq!(count_within_10000(&points), 90);
    assert_eq!(count_within_10000(&vec![]), 0);
    let far = vec![POI { x: 0, y: 0, index: 0 }, POI { x: 0, y: 9990, index: 1 }];
    let points = create_grid_points(0, 0, 0, 20, &far);
    // From (0, 0) to (0, 9990) the sum is 9990; beyond, it grows by two a step.
    assert_eq!(points.len(), 21);
    assert_eq!(count_within_10000(&points), 21);
    let points = create_grid_points(0, 9985, 0, 10000, &far);
    assert_eq!(count_within_10000(&points), 10);
}
