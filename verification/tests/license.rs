use advent::license::{
    calc_metadata, calc_metadata_v2, calc_offset_from_node, get_node_from_list, numbers_from_line,
};

#[test]
fn example_works() {
    let example = &[2, 3, 0, 3, 10, 11, 12, 1, 1, 0, 1, 99, 2, 1, 1, 2];
    let node = get_node_from_list(example).unwrap();

    assert_eq!(node.header, (2, 3));
    assert_eq!(node.metadata, [1, 1, 2]);

    assert_eq!(node.children[0].header, (0, 3));
    assert_eq!(node.children[0].metadata, [10, 11, 12]);

    assert_eq!(node.children[1].header, (1, 1));
    assert_eq!(node.children[1].metadata, [2]);

    assert_eq!(node.children[1].children[0].header, (0, 1));
    assert_eq!(node.children[1].children[0].metadata, [99]);

    assert_eq!(calc_metadata(&node), Some(138));
    assert_eq!(calc_metadata_v2(&node), Some(66));
}

#[test]
fn multiple_children_with_works() {
    let example = &[2, 1, 0, 1, 7, 0, 1, 8, 9];
    let node = get_node_from_list(example).unwrap();

    assert_eq!(node.header, (2, 1));
    assert_eq!(node.metadata, [9]);
    assert_eq!(node.children.len(), 2);

    let child = &node.children[0];
    assert_eq!(child.header, (0, 1));
    assert_eq!(child.metadata, [7]);
    assert_eq!(child.children.len(), 0);

    let child = &node.children[1];
    assert_eq!(child.header, (0, 1));
    assert_eq!(child.metadata, [8]);
    assert_eq!(child.children.len(), 0);

    assert_eq!(calc_metadata(&node), Some(24));
}

#[test]
fn base_case_works() {
    let example = &[0, 0];
    let node = get_node_from_list(example).unwrap();
    assert_eq!(node.header, (0, 0));
    assert_eq!(node.metadata.len(), 0);
    assert_eq!(node.children.len(), 0);

    assert_eq!(calc_metadata(&node), Some(0));

    let example = &[0, 2, 4, 5];
    let node = get_node_from_list(example).unwrap();
    assert_eq!(node.header, (0, 2));
    assert_eq!(node.metadata, [4, 5]);
    assert_eq!(node.children.len(), 0);

    assert_eq!(calc_metadata(&node), Some(9));
    assert_eq!(calc_metadata_v2(&node), Some(9));
}

#[test]
fn one_layer_deep_works() {
    let example = &[1, 1, 0, 1, 7, 8];
    let node = get_node_from_list(example).unwrap();

    assert_eq!(node.header, (1, 1));
    assert_eq!(node.metadata, [8]);
    assert_eq!(node.children.len(), 1);

    let child = &node.children[0];
    assert_eq!(child.header, (0, 1));
    assert_eq!(child.metadata, [7]);
    assert_eq!(child.children.len(), 0);
}

#[test]
fn no_metadata_works() {
    let example = &[1, 1, 0, 0, 1];
    let node = get_node_from_list(example).unwrap();

    assert_eq!(node.header, (1, 1));
    assert_eq!(node.metadata, [1]);
    assert_eq!(node.children.len(), 1);

    let child = &node.children[0];
    assert_eq!(child.header, (0, 0));
    assert_eq!(child.metadata, []);
    assert_eq!(child.children.len(), 0);

    assert_eq!(calc_metadata(&node), Some(1));
}

#[test]
fn n_layers_works() {
    let example = &[2, 1, 1, 1, 0, 1, 6, 7, 0, 1, 8, 9];
    let node = get_node_from_list(example).unwrap();

    assert_eq!(node.header, (2, 1));
    assert_eq!(node.metadata, [9]);
    assert_eq!(node.children.len(), 2);

    let child = &node.children[0];
    assert_eq!(child.header, (1, 1));
    assert_eq!(child.metadata, [7]);
    assert_eq!(child.children.len(), 1);

    let child = &node.children[0].children[0];
    assert_eq!(child.header, (0, 1));
    assert_eq!(child.metadata, [6]);
    assert_eq!(child.children.len(), 0);

    let child = &node.children[1];
    assert_eq!(child.header, (0, 1));
    assert_eq!(child.metadata, [8]);
    assert_eq!(child.children.len(), 0);

    assert_eq!(calc_metadata(&node), Some(30));
    assert_eq!(calc_metadata_v2(&node), Some(0));
}

#[test]
fn v2_works() {
    let example = &[2, 1, 1, 1, 0, 1, 1, 1, 0, 1, 8, 1];
    let node = get_node_from_list(example).unwrap();
    assert_eq!(calc_metadata_v2(&node), Some(1));

    let example = &[1, 1, 0, 1, 7, 1];
    let node = get_node_from_list(example).unwrap();
    assert_eq!(calc_metadata_v2(&node), Some(7));
}

#[test]
fn a_list_that_breaks_off_gives_no_node() {
    assert!(get_node_from_list(&[]).is_none());
    assert!(get_node_from_list(&[0]).is_none());
    assert!(get_node_from_list(&[0, 1]).is_none());
    assert!(get_node_from_list(&[1, 0]).is_none());
    assert!(get_node_from_list(&[1, 0, 0]).is_none());
    assert!(get_node_from_list(&[1, 1, 0, 0]).is_none());
    assert!(get_node_from_list(&[2, 0, 0, 0]).is_none());
    assert!(get_node_from_list(&[usize::MAX, usize::MAX, 0, 0]).is_none());
    assert!(get_node_from_list(&[0, usize::MAX, 0, 0]).is_none());
}

#[test]
fn what_follows_the_node_is_ignored() {
    let node = get_node_from_list(&[0, 1, 5, 6, 7]).unwrap();
    assert_eq!(node.header, (0, 1));
    assert_eq!(node.metadata, [5]);
    assert_eq!(calc_offset_from_node(&node), Some(3));
}

#[test]
fn offset_is_the_length_of_the_node() {
    let example = &[2, 3, 0, 3, 10, 11, 12, 1, 1, 0, 1, 99, 2, 1, 1, 2];
    let node = get_node_from_list(example).unwrap();
    assert_eq!(calc_offset_from_node(&node), Some(16));
    assert_eq!(calc_offset_from_node(&node.children[0]), Some(5));
    assert_eq!(calc_offset_from_node(&node.children[1]), Some(6));
    assert_eq!(calc_offset_from_node(&node.children[1].children[0]), Some(3));
}

#[test]
fn a_sum_beyond_the_largest_number_is_none() {
    let node = get_node_from_list(&[0, 2, usize::MAX, 1]).unwrap();
    assert_eq!(calc_metadata(&node), None);
    assert_eq!(calc_metadata_v2(&node), None);
    let node = get_node_from_list(&[0, 2, usize::MAX, 0]).unwrap();
    assert_eq!(calc_metadata(&node), Some(usize::MAX));
    // The child counts twice.
    let node = get_node_from_list(&[1, 2, 0, 1, usize::MAX, 1, 1]).unwrap();
    assert_eq!(calc_metadata_v2(&node), None);
    assert_eq!(calc_metadata(&node), None);
    let node = get_node_from_list(&[1, 2, 0, 1, usize::MAX, 1, 2]).unwrap();
    assert_eq!(calc_metadata_v2(&node), Some(usize::MAX));
}

#[test]
fn an_entry_that_names_no_child_counts_as_nothing() {
    let node = get_node_from_list(&[1, 3, 0, 1, 4, 0, 2, 1]).unwrap();
    assert_eq!(calc_metadata_v2(&node), Some(4));
    assert_eq!(calc_metadata(&node), Some(7));
}

#[test]
fn numbers_stand_with_one_blank_between_them() {
    assert_eq!(
        numbers_from_line("2 3 0 3 10 11 12 1 1 0 1 99 2 1 1 2"),
        Some(vec![2, 3, 0, 3, 10, 11, 12, 1, 1, 0, 1, 99, 2, 1, 1, 2])
    );
    assert_eq!(numbers_from_line("7"), Some(vec![7]));
    assert_eq!(numbers_from_line("+7 007"), Some(vec![7, 7]));
    assert_eq!(numbers_from_line(""), None);
    assert_eq!(numbers_from_line("1  2"), None);
    assert_eq!(numbers_from_line(" 1"), None);
    assert_eq!(numbers_from_line("1 "), None);
    assert_eq!(numbers_from_line("1 -2"), None);
    assert_eq!(numbers_from_line("1 x"), None);
    assert_eq!(numbers_from_line("1\t2"), None);
    let node = get_node_from_list(&numbers_from_line("1 1 0 1 7 8").unwrap()).unwrap();
    assert_eq!(calc_metadata(&node), Some(15));
}
