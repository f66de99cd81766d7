//! A row of pots, each with or without a plant, and the notes that say how
//! the row changes from one generation to the next.

use crate::scan::{char_at, char_token, plain_format, scan, scanned, texts};
use std::collections::VecDeque;
use vstd::string::StringSliceAdditionalSpecFns;
use vstd::prelude::*;

verus! {

/// Whether a pot holds a plant.
#[derive(PartialEq, Eq, Copy, Clone, Debug, Structural)]
pub enum PlantState {
    EMPTY,
    FILLED,
}

/// A pot: where it stands in the row, and whether it holds a plant.
#[derive(PartialEq, Eq, Copy, Clone, Debug, Structural)]
pub struct Plant {
    pub position: i64,
    pub state: PlantState,
}

/// A note: the pot that a pot with these neighbours becomes.
#[derive(PartialEq, Eq, Copy, Clone, Debug, Structural)]
pub struct Note {
    pub next_state: PlantState,
    pub current: PlantState,
    pub left_left_side: PlantState,
    pub left_side: PlantState,
    pub right_right_side: PlantState,
    pub right_side: PlantState,
}

/// What a character of a note or of a row stands for: `.` for an empty pot,
/// any other character for a plant.
pub open spec fn state_of(plant_state: char) -> PlantState {
    if plant_state == '.' {
        PlantState::EMPTY
    } else {
        PlantState::FILLED
    }
}

/// Reads the state of a pot.
pub fn char_to_state(plant_state: char) -> (state: PlantState)
    ensures
        state == state_of(plant_state),
{
    match plant_state {
        '.' => PlantState::EMPTY,
        _ => PlantState::FILLED,
    }
}

/// The format of a note: the two pots to the left, the pot itself, the two
/// pots to the right, and behind `=>` what the pot becomes.
pub open spec fn note_format() -> Seq<char> {
    "{/./}{/./}{/./}{/./}{/./} => {/./}"@
}

/// The note that the tokens of a line give: six tokens of one character.
pub open spec fn note_of(tokens: Seq<Seq<char>>) -> Option<Note> {
    match (
        char_token(tokens, 0),
        char_token(tokens, 1),
        char_token(tokens, 2),
        char_token(tokens, 3),
        char_token(tokens, 4),
        char_token(tokens, 5),
    ) {
        (
            Some(left_left_side),
            Some(left_side),
            Some(current),
            Some(right_side),
            Some(right_right_side),
            Some(next_state),
        ) => Some(
            Note {
                current: state_of(current),
                next_state: state_of(next_state),
                left_left_side: state_of(left_left_side),
                left_side: state_of(left_side),
                right_side: state_of(right_side),
                right_right_side: state_of(right_right_side),
            },
        ),
        _ => None,
    }
}

/// Reads a note from the tokens of its line.
pub fn note_from_tokens(tokens: &Vec<String>) -> (note: Option<Note>)
    ensures
        note == note_of(texts(tokens@)),
{
    let left_left_side = char_at(tokens, 0);
    let left_side = char_at(tokens, 1);
    let current = char_at(tokens, 2);
    let right_side = char_at(tokens, 3);
    let right_right_side = char_at(tokens, 4);
    let next_state = char_at(tokens, 5);
    match (left_left_side, left_side, current, right_side, right_right_side, next_state) {
        (
            Some(left_left_side),
            Some(left_side),
            Some(current),
            Some(right_side),
            Some(right_right_side),
            Some(next_state),
        ) => Some(
            Note {
                current: char_to_state(current),
                next_state: char_to_state(next_state),
                left_left_side: char_to_state(left_left_side),
                left_side: char_to_state(left_side),
                right_side: char_to_state(right_side),
                right_right_side: char_to_state(right_right_side),
            },
        ),
        _ => None,
    }
}

/// Reads a note such as `...#. => #`: the note that the tokens give which
/// the scanner picks out of the line.
pub fn create_note(note: &str) -> (read: Option<Note>)
    ensures
        read == note_of(scanned(note@, note_format())),
{
    proof {
        reveal_strlit("{/./}{/./}{/./}{/./}{/./} => {/./}");
        assert(plain_format("{/./}{/./}{/./}{/./}{/./} => {/./}"@));
    }
    let tokens = scan(note, "{/./}{/./}{/./}{/./}{/./} => {/./}");
    note_from_tokens(&tokens)
}

/// An empty pot at the given position.
pub fn create_boundry_plant(position: i64) -> (plant: Plant)
    ensures
        plant == (Plant { position, state: PlantState::EMPTY }),
{
    Plant { position, state: PlantState::EMPTY }
}

/// The state of the pot at index `i`; beyond the ends of the row the pots
/// are empty.
pub open spec fn state_at(plants: Seq<Plant>, i: int) -> PlantState {
    if 0 <= i < plants.len() {
        plants[i].state
    } else {
        PlantState::EMPTY
    }
}

/// The note speaks of the pot at index `i` and its neighbours.
pub open spec fn applies(note: Note, plants: Seq<Plant>, i: int) -> bool {
    &&& state_at(plants, i) == note.current
    &&& state_at(plants, i - 2) == note.left_left_side
    &&& state_at(plants, i - 1) == note.left_side
    &&& state_at(plants, i + 1) == note.right_side
    &&& state_at(plants, i + 2) == note.right_right_side
}

/// What the pot at index `i` becomes: what the last note that applies says,
/// and what it is where none applies.
pub open spec fn next_state(notes: Seq<Note>, plants: Seq<Plant>, i: int) -> PlantState
    decreases notes.len(),
{
    if notes.len() == 0 {
        state_at(plants, i)
    } else if applies(notes.last(), plants, i) {
        notes.last().next_state
    } else {
        next_state(notes.drop_last(), plants, i)
    }
}

/// The next generation: every pot changed as the notes say, and one more
/// empty pot at each end of the row.
pub open spec fn grown(notes: Seq<Note>, plants: Seq<Plant>) -> Seq<Plant> {
    seq![Plant { position: (plants[0].position - 1) as i64, state: PlantState::EMPTY }] + Seq::new(
        plants.len(),
        |i: int| Plant { position: plants[i].position, state: next_state(notes, plants, i) },
    ) + seq![Plant { position: (plants.last().position + 1) as i64, state: PlantState::EMPTY }]
}

fn state_in(plants: &VecDeque<Plant>, i: usize, back: usize, ahead: usize) -> (state: PlantState)
    requires
        i < plants@.len(),
        back <= 2,
        ahead <= 2,
        back == 0 || ahead == 0,
    ensures
        state == state_at(plants@, i - back + ahead),
{
    if back > i {
        PlantState::EMPTY
    } else if ahead >= plants.len() - i {
        PlantState::EMPTY
    } else {
        plants[i - back + ahead].state
    }
}

fn next_state_of(notes: &Vec<Note>, plants: &VecDeque<Plant>, i: usize) -> (state: PlantState)
    requires
        i < plants@.len(),
    ensures
        state == next_state(notes@, plants@, i as int),
{
    let here = plants[i].state;
    let ll_side = state_in(plants, i, 2, 0);
    let l_side = state_in(plants, i, 1, 0);
    let r_side = state_in(plants, i, 0, 1);
    let rr_side = state_in(plants, i, 0, 2);
    let mut state = here;
    let mut n: usize = 0;
    while n < notes.len()
        invariant
            n <= notes.len(),
            i < plants@.len(),
            here == state_at(plants@, i as int),
            ll_side == state_at(plants@, i - 2),
            l_side == state_at(plants@, i - 1),
            r_side == state_at(plants@, i + 1),
            rr_side == state_at(plants@, i + 2),
            state == next_state(notes@.take(n as int), plants@, i as int),
        decreases notes.len() - n,
    {
        proof {
            assert(notes@.take(n + 1).drop_last() =~= notes@.take(n as int));
        }
        let note = &notes[n];
        if here == note.current && ll_side == note.left_left_side && l_side == note.left_side
            && r_side == note.right_side && rr_side == note.right_right_side {
            state = note.next_state;
        }
        n += 1;
    }
    proof {
        assert(notes@.take(n as int) =~= notes@);
    }
    state
}

/// Turns the row into its next generation.
pub fn next_generation(notes: &Vec<Note>, current_gen: &mut VecDeque<Plant>)
    requires
        old(current_gen)@.len() > 0,
        old(current_gen)@[0].position > i64::MIN,
        old(current_gen)@.last().position < i64::MAX,
    ensures
        final(current_gen)@ == grown(notes@, old(current_gen)@),
{
    let count = current_gen.len();
    let mut next: VecDeque<Plant> = VecDeque::new();
    next.push_back(create_boundry_plant(current_gen[0].position - 1));
    let mut i: usize = 0;
    while i < count
        invariant
            i <= count == current_gen@.len(),
            current_gen@ == old(current_gen)@,
            next@.len() == i + 1,
            next@[0] == grown(notes@, current_gen@)[0],
            forall|k: int| 0 <= k < i ==> #[trigger] next@[k + 1] == grown(notes@, current_gen@)[k + 1],
        decreases count - i,
    {
        let state = next_state_of(notes, current_gen, i);
        next.push_back(Plant { position: current_gen[i].position, state });
        i += 1;
    }
    next.push_back(create_boundry_plant(current_gen[count - 1].position + 1));
    proof {
        assert(next@ =~= grown(notes@, old(current_gen)@));
    }
    *current_gen = next;
}

/// The pots that the characters stand for: `.` an empty pot and `#` a plant,
/// each at the position of its character counted from `start`; other
/// characters stand for no pot.
pub open spec fn pots(text: Seq<char>, start: int) -> Seq<Plant>
    decreases text.len(),
{
    if text.len() == 0 {
        Seq::empty()
    } else {
        let rest = pots(text.drop_last(), start);
        let position = (text.len() - 1 + start) as i64;
        if text.last() == '.' {
            rest.push(Plant { position, state: PlantState::EMPTY })
        } else if text.last() == '#' {
            rest.push(Plant { position, state: PlantState::FILLED })
        } else {
            rest
        }
    }
}

/// The row that a text stands for: its pots, with two empty pots before
/// them and two behind, which stand where the text ends by its length in
/// bytes.
pub open spec fn row_of(text: Seq<char>, bytes: int, start: int) -> Seq<Plant> {
    seq![
        Plant { position: (start - 2) as i64, state: PlantState::EMPTY },
        Plant { position: (start - 1) as i64, state: PlantState::EMPTY },
    ] + pots(text, start) + seq![
        Plant { position: (bytes + start) as i64, state: PlantState::EMPTY },
        Plant { position: (bytes + start + 1) as i64, state: PlantState::EMPTY },
    ]
}

/// Reads a row of pots whose first pot stands at `start_idx`.
pub fn load_plants_from_str(initial_state: &str, start_idx: i64) -> (plants: VecDeque<Plant>)
    requires
        i64::MIN <= start_idx - 2,
        start_idx + initial_state@.len() + 1 <= i64::MAX,
        start_idx + initial_state.spec_bytes().len() + 1 <= i64::MAX,
    ensures
        plants@ == row_of(initial_state@, initial_state.spec_bytes().len() as int, start_idx as int),
{
    let mut plants: VecDeque<Plant> = VecDeque::new();
    plants.push_back(Plant { position: start_idx - 2, state: PlantState::EMPTY });
    plants.push_back(Plant { position: start_idx - 1, state: PlantState::EMPTY });
    let chars = crate::scan::chars_of(initial_state);
    let ghost head = plants@;
    proof {
        assert(head =~= seq![
            Plant { position: (start_idx - 2) as i64, state: PlantState::EMPTY },
            Plant { position: (start_idx - 1) as i64, state: PlantState::EMPTY },
        ]);
    }
    let mut i: usize = 0;
    while i < chars.len()
        invariant
            i <= chars.len(),
            chars@ == initial_state@,
            start_idx + chars@.len() + 1 <= i64::MAX,
            i64::MIN <= start_idx - 2,
            plants@ == head + pots(chars@.take(i as int), start_idx as int),
        decreases chars.len() - i,
    {
        proof {
            assert(chars@.take(i + 1).drop_last() =~= chars@.take(i as int));
        }
        let index = (i as i128 + start_idx as i128) as i64;
        let ghost before = pots(chars@.take(i as int), start_idx as int);
        if chars[i] == '.' {
            plants.push_back(Plant { position: index, state: PlantState::EMPTY });
            proof {
                assert(plants@ =~= head + before.push(
                    Plant { position: index, state: PlantState::EMPTY },
                ));
            }
        } else if chars[i] == '#' {
            plants.push_back(Plant { position: index, state: PlantState::FILLED });
            proof {
                assert(plants@ =~= head + before.push(
                    Plant { position: index, state: PlantState::FILLED },
                ));
            }
        }
        i += 1;
    }
    proof {
        assert(chars@.take(i as int) =~= chars@);
    }
    let end = initial_state.as_bytes().len() as i128 + start_idx as i128;
    let ghost body = plants@;
    plants.push_back(Plant { position: end as i64, state: PlantState::EMPTY });
    plants.push_back(Plant { position: (end + 1) as i64, state: PlantState::EMPTY });
    proof {
        assert(end == initial_state.spec_bytes().len() + start_idx);
        assert(plants@ =~= body + seq![
            Plant { position: end as i64, state: PlantState::EMPTY },
            Plant { position: (end + 1) as i64, state: PlantState::EMPTY },
        ]);
        assert(plants@ =~= row_of(
            initial_state@,
            initial_state.spec_bytes().len() as int,
            start_idx as int,
        ));
    }
    plants
}

/// The sum of the positions of the pots that hold a plant.
pub open spec fn count_of(plants: Seq<Plant>) -> int
    decreases plants.len(),
{
    if plants.len() == 0 {
        0
    } else if plants.last().state == PlantState::FILLED {
        count_of(plants.drop_last()) + plants.last().position
    } else {
        count_of(plants.drop_last())
    }
}

/// The sum of the positions of the pots that hold a plant, where it is in
/// the range of `i64`.
pub fn calculate_count(plants: &VecDeque<Plant>) -> (count: Option<i64>)
    ensures
        count == if i64::MIN <= count_of(plants@) <= i64::MAX {
            Some(count_of(plants@) as i64)
        } else {
            None
        },
{
    let mut running_count: i128 = 0;
    let mut i: usize = 0;
    while i < plants.len()
        invariant
            i <= plants@.len(),
            running_count == count_of(plants@.take(i as int)),
            -0x8000_0000_0000_0000 * i <= running_count <= 0x8000_0000_0000_0000 * i,
        decreases plants@.len() - i,
    {
        proof {
            assert(plants@.take(i + 1).drop_last() =~= plants@.take(i as int));
        }
        if plants[i].state == PlantState::FILLED {
            running_count = running_count + plants[i].position as i128;
        }
        i += 1;
    }
    proof {
        assert(plants@.take(i as int) =~= plants@);
    }
    if running_count < i64::MIN as i128 || running_count > i64::MAX as i128 {
        None
    } else {
        Some(running_count as i64)
    }
}

} // verus!
