use advent::plants::{
    calculate_count, char_to_state, create_boundry_plant, create_note, load_plants_from_str,
    next_generation, note_from_tokens, Note, Plant, PlantState,
};
use std::collections::VecDeque;

#[test]
fn load_plants_from_str_works() {
    assert_eq!(load_plants_from_str(".#.", 0), VecDeque::from(vec![
        Plant { position: -2, state: PlantState::EMPTY },
        Plant { position: -1, state: PlantState::EMPTY },
        Plant { position: 0, state: PlantState::EMPTY },
        Plant { position: 1, state: PlantState::FILLED },
        Plant { position: 2, state: PlantState::EMPTY },
        Plant { position: 3, state: PlantState::EMPTY },
        Plant { position: 4, state: PlantState::EMPTY }
    ]));
}

#[test]
fn calculate_count_works() {
    let plants = load_plants_from_str("...##....#####...#######....#.#..##.", 0);
    assert_eq!(calculate_count(&plants), Some(327));

    let plants = load_plants_from_str(".", 0);
    assert_eq!(calculate_count(&plants), Some(0));

    let plants = load_plants_from_str("##", -1);
    assert_eq!(calculate_count(&plants), Some(-1));
}

#[test]
fn create_note_works() {
    assert_eq!(create_note("...#. => #"), Some(Note {
        current: PlantState::EMPTY,
        next_state: PlantState::FILLED,
        left_left_side: PlantState::EMPTY,
        left_side: PlantState::EMPTY,
        right_side: PlantState::FILLED,
        right_right_side: PlantState::EMPTY
    }));
}

#[test]
fn char_to_state_works() {
    assert_eq!(char_to_state('.'), PlantState::EMPTY);
    assert_eq!(char_to_state('#'), PlantState::FILLED);
}

#[test]
fn a_note_reads_each_side_from_its_own_place() {
    assert_eq!(create_note("#.... => ."), Some(Note {
        left_left_side: PlantState::FILLED,
        left_side: PlantState::EMPTY,
        current: PlantState::EMPTY,
        right_side: PlantState::EMPTY,
        right_right_side: PlantState::EMPTY,
        next_state: PlantState::EMPTY
    }));
    assert_eq!(create_note(".#... => ."), Some(Note {
        left_left_side: PlantState::EMPTY,
        left_side: PlantState::FILLED,
        current: PlantState::EMPTY,
        right_side: PlantState::EMPTY,
        right_right_side: PlantState::EMPTY,
        next_state: PlantState::EMPTY
    }));
    assert_eq!(create_note("..#.. => ."), Some(Note {
        left_left_side: PlantState::EMPTY,
        left_side: PlantState::EMPTY,
        current: PlantState::FILLED,
        right_side: PlantState::EMPTY,
        right_right_side: PlantState::EMPTY,
        next_state: PlantState::EMPTY
    }));
    assert_eq!(create_note("....# => ."), Some(Note {
        left_left_side: PlantState::EMPTY,
        left_side: PlantState::EMPTY,
        current: PlantState::EMPTY,
        right_side: PlantState::EMPTY,
        right_right_side: PlantState::FILLED,
        next_state: PlantState::EMPTY
    }));
}

#[test]
fn a_line_that_is_no_note_gives_none() {
    assert_eq!(create_note(""), None);
    assert_eq!(create_note("...#."), None);
    assert_eq!(create_note("...#. =>"), None);
    assert_eq!(create_note("...#. -> #"), None);
}

#[test]
fn a_note_needs_six_tokens_of_one_character() {
    let tokens = |texts: &[&str]| texts.iter().map(|t| String::from(*t)).collect::<Vec<String>>();
    assert_eq!(note_from_tokens(&tokens(&[".", ".", "#", ".", ".", "#"])), Some(Note {
        left_left_side: PlantState::EMPTY,
        left_side: PlantState::EMPTY,
        current: PlantState::FILLED,
        right_side: PlantState::EMPTY,
        right_right_side: PlantState::EMPTY,
        next_state: PlantState::FILLED
    }));
    assert_eq!(note_from_tokens(&tokens(&[".", ".", "#", ".", "."])), None);
    assert_eq!(note_from_tokens(&tokens(&[".", ".", "#", ".", ".", "##"])), None);
    assert_eq!(note_from_tokens(&tokens(&[""])), None);
    assert_eq!(note_from_tokens(&tokens(&[])), None);
}

#[test]
fn boundary_plant_is_empty() {
    assert_eq!(create_boundry_plant(-7), Plant { position: -7, state: PlantState::EMPTY });
}

#[test]
fn other_characters_stand_for_no_pot() {
    assert_eq!(load_plants_from_str("#x.", 10), VecDeque::from(vec![
        Plant { position: 8, state: PlantState::EMPTY },
        Plant { position: 9, state: PlantState::EMPTY },
        Plant { position: 10, state: PlantState::FILLED },
        Plant { position: 12, state: PlantState::EMPTY },
        Plant { position: 13, state: PlantState::EMPTY },
        Plant { position: 14, state: PlantState::EMPTY }
    ]));
}

#[test]
fn next_generation_follows_the_notes() {
    let grows = [
        "...##", "..#..", ".#...", ".#.#.", ".#.##", ".##..", ".####", "#.#.#", "#.###", "##.#.",
        "##.##", "###..", "###.#", "####.",
    ];
    let mut notes = vec![];
    for bits in 0..32 {
        let mut pattern = String::new();
        for place in 0..5 {
            pattern.push(if bits & (16 >> place) != 0 { '#' } else { '.' });
        }
        let next = if grows.contains(&pattern.as_str()) { '#' } else { '.' };
        notes.push(create_note(&format!("{} => {}", pattern, next)).unwrap());
    }
    assert_eq!(notes.len(), 32);
    let mut plants = load_plants_from_str("#..#.#..##......###...###", 0);
    let text = |plants: &VecDeque<Plant>| -> String {
        plants
            .iter()
            .filter(|p| p.position >= -3 && p.position <= 35)
            .map(|p| if p.state == PlantState::FILLED { '#' } else { '.' })
            .collect()
    };
    next_generation(&notes, &mut plants);
    assert_eq!(plants.len(), 25 + 4 + 2);
    assert_eq!(plants.front().unwrap().position, -3);
    assert_eq!(plants.back().unwrap().position, 27);
    assert_eq!(text(&plants), "...#...#....#.....#..#..#..#...");
    next_generation(&notes, &mut plants);
    assert_eq!(text(&plants), "...##..##...##....#..#..#..##...");
    for _ in 2..20 {
        next_generation(&notes, &mut plants);
    }
    assert_eq!(text(&plants), ".#....##....#####...#######....#.#..##.");
    assert_eq!(calculate_count(&plants), Some(325));
}

#[test]
fn the_last_note_that_applies_decides() {
    let first = create_note("..#.. => .").unwrap();
    let second = create_note("..#.. => #").unwrap();
    let mut plants = load_plants_from_str("#", 0);
    next_generation(&vec![second, first], &mut plants);
    assert_eq!(calculate_count(&plants), Some(0));
    let mut plants = load_plants_from_str("#", 5);
    next_generation(&vec![first, second], &mut plants);
    assert_eq!(calculate_count(&plants), Some(5));
    let mut plants = load_plants_from_str("#", 5);
    next_generation(&vec![], &mut plants);
    assert_eq!(calculate_count(&plants), Some(5));
}

#[test]
fn a_count_beyond_the_range_is_none() {
    let mut plants = VecDeque::new();
    plants.push_back(Plant { position: i64::MAX, state: PlantState::FILLED });
    plants.push_back(Plant { position: 1, state: PlantState::FILLED });
    assert_eq!(calculate_count(&plants), None);
    plants.push_back(Plant { position: -1, state: PlantState::FILLED });
    assert_eq!(calculate_count(&plants), Some(i64::MAX));
    plants.push_back(Plant { position: i64::MIN, state: PlantState::EMPTY });
    assert_eq!(calculate_count(&plants), Some(i64::MAX));
}
