use advent::fabric::{
    claim_from_tokens, claim_is_intact, claims_on, convert_line_to_variables, count_overlap,
    dimensions_to_plots, intact_claims,
};

#[test]
fn test_convert_line_to_variables() {
    assert_eq!(convert_line_to_variables(String::from("#1 @ 483,830: 24x18")), Some((1, 483, 830, 24, 18)));
}

#[test]
fn test_dimensions_to_plots() {
    assert_eq!(dimensions_to_plots(0, 0, 1, 2), vec!(String::from("0x0"), String::from("0x1")));
}

#[test]
fn plots_go_column_by_column() {
    assert_eq!(
        dimensions_to_plots(9, 99, 2, 3),
        vec![
            String::from("9x99"),
            String::from("9x100"),
            String::from("9x101"),
            String::from("10x99"),
            String::from("10x100"),
            String::from("10x101"),
        ]
    );
    assert_eq!(dimensions_to_plots(5, 5, 0, 3), Vec::<String>::new());
    assert_eq!(dimensions_to_plots(5, 5, 3, 0), Vec::<String>::new());
    assert_eq!(dimensions_to_plots(65534, 65535, 1, 0), Vec::<String>::new());
    assert_eq!(dimensions_to_plots(65534, 65534, 1, 1), vec![String::from("65534x65534")]);
}

#[test]
fn a_claim_holds_numbers_of_sixteen_bits() {
    assert_eq!(
        convert_line_to_variables(String::from("#65535 @ 0,65535: 1x0")),
        Some((65535, 0, 65535, 1, 0))
    );
    assert_eq!(convert_line_to_variables(String::from("#65536 @ 0,0: 1x1")), None);
    assert_eq!(convert_line_to_variables(String::from("#1 @ 0,0: 1x-1")), None);
    assert_eq!(convert_line_to_variables(String::from("#1 @ 0,0: 1")), None);
    assert_eq!(convert_line_to_variables(String::from("1 @ 0,0: 1x1")), None);
    assert_eq!(convert_line_to_variables(String::from("")), None);
}

#[test]
fn a_claim_needs_five_tokens() {
    let tokens = |texts: &[&str]| texts.iter().map(|t| String::from(*t)).collect::<Vec<String>>();
    assert_eq!(claim_from_tokens(&tokens(&["1", "483", "830", "24", "18"])), Some((1, 483, 830, 24, 18)));
    assert_eq!(claim_from_tokens(&tokens(&["+1", "483", "830", "24", "018"])), Some((1, 483, 830, 24, 18)));
    assert_eq!(claim_from_tokens(&tokens(&["1", "483", "830", "24"])), None);
    assert_eq!(claim_from_tokens(&tokens(&["1", "483", "830", "24", "x"])), None);
    assert_eq!(claim_from_tokens(&tokens(&["1", "483", "830", "24", ""])), None);
    assert_eq!(claim_from_tokens(&tokens(&[""])), None);
}

#[test]
fn overlap_counts_the_square_inches_claimed_twice() {
    let claims = vec![(1, 1, 3, 4, 4), (2, 3, 1, 4, 4), (3, 5, 5, 2, 2)];
    assert_eq!(count_overlap(&claims), 4);
    assert_eq!(intact_claims(&claims), vec![3]);
    assert_eq!(claims_on(&claims, 3, 3), 2);
    assert_eq!(claims_on(&claims, 4, 4), 2);
    assert_eq!(claims_on(&claims, 1, 3), 1);
    assert_eq!(claims_on(&claims, 5, 5), 1);
    assert_eq!(claims_on(&claims, 0, 0), 0);
    assert_eq!(claims_on(&claims, 7, 7), 0);
    assert!(!claim_is_intact(&claims, 0));
    assert!(!claim_is_intact(&claims, 1));
    assert!(claim_is_intact(&claims, 2));

    assert_eq!(count_overlap(&vec![]), 0);
    assert_eq!(intact_claims(&vec![]), Vec::<u16>::new());
    // Three claims on one square inch count once; a claim without size overlaps nothing.
    let claims = vec![(7, 0, 0, 2, 1), (8, 1, 0, 2, 1), (9, 1, 0, 1, 1), (10, 1, 0, 0, 5), (11, 4, 4, 1, 1)];
    assert_eq!(count_overlap(&claims), 1);
    assert_eq!(intact_claims(&claims), vec![10, 11]);
}
