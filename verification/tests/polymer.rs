use advent::polymer::{find_index_of_pair, reduce_polymer, reduce_units, shortest_polymer};

#[test]
fn the_first_pair_is_found() {
    assert_eq!(find_index_of_pair("aA"), 0);
    assert_eq!(find_index_of_pair("Aa"), 0);
    assert_eq!(find_index_of_pair("abBA"), 1);
    assert_eq!(find_index_of_pair("dabAcCaCBAcCcaDA"), 4);
    assert_eq!(find_index_of_pair("xyzZ"), 2);
}

#[test]
fn no_pair_gives_minus_one() {
    assert_eq!(find_index_of_pair(""), -1);
    assert_eq!(find_index_of_pair("a"), -1);
    assert_eq!(find_index_of_pair("aa"), -1);
    assert_eq!(find_index_of_pair("AA"), -1);
    assert_eq!(find_index_of_pair("abAB"), -1);
    assert_eq!(find_index_of_pair("aB"), -1);
    assert_eq!(find_index_of_pair("0P"), -1);
    assert_eq!(find_index_of_pair("@`"), -1);
    assert_eq!(find_index_of_pair("[{"), -1);
    assert_eq!(find_index_of_pair("1\u{11}"), -1);
}

#[test]
fn a_polymer_reacts_until_it_is_stable() {
    assert_eq!(reduce_polymer(String::from("aA")), "");
    assert_eq!(reduce_polymer(String::from("abBA")), "");
    assert_eq!(reduce_polymer(String::from("abAB")), "abAB");
    assert_eq!(reduce_polymer(String::from("aabAAB")), "aabAAB");
    assert_eq!(reduce_polymer(String::from("dabAcCaCBAcCcaDA")), "dabCBAcaDA");
    assert_eq!(reduce_polymer(String::from("")), "");
    assert_eq!(reduce_polymer(String::from("zZz")), "z");
}

#[test]
fn the_shortest_polymer_lacks_one_kind_of_unit() {
    assert_eq!(shortest_polymer("dabAcCaCBAcCcaDA"), 4);
    assert_eq!(shortest_polymer(""), 0);
    assert_eq!(shortest_polymer("a"), 0);
    assert_eq!(shortest_polymer("ab"), 1);
    assert_eq!(shortest_polymer("aBbA"), 0);
    assert_eq!(shortest_polymer("abAB"), 0);
    assert_eq!(shortest_polymer("a-A"), 1);
    assert_eq!(shortest_polymer("--"), 2);
    assert_eq!(shortest_polymer("zyZY"), 0);
    assert_eq!(shortest_polymer("z{Z"), 1);
    let units = |text: &str| text.chars().collect::<Vec<char>>();
    assert_eq!(reduce_units(units("dabAcCaCBAcCcaDA")), units("dabCBAcaDA"));
}
