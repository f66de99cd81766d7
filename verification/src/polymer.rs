//! A polymer: a chain of units, each a letter. Two neighbours react, and
//! both are gone, where they are the same letter in different case.

use crate::scan::chars_of;
use vstd::prelude::*;

verus! {

/// A small letter `a` to `z`.
pub open spec fn is_lower(c: char) -> bool {
    'a' <= c && c <= 'z'
}

/// A capital letter `A` to `Z`.
pub open spec fn is_upper(c: char) -> bool {
    'A' <= c && c <= 'Z'
}

/// Two neighbours react: the same letter, one small and one capital.
pub open spec fn reacts(first: char, second: char) -> bool {
    ||| is_lower(second) && first as u32 + 32 == second as u32
    ||| is_upper(second) && first as u32 == second as u32 + 32
}

/// The first position from `from` on at which two neighbours react, and -1
/// where no two do.
pub open spec fn first_pair_from(units: Seq<char>, from: int) -> int
    decreases units.len() - from,
{
    if from < 0 || from + 1 >= units.len() {
        -1
    } else if reacts(units[from], units[from + 1]) {
        from
    } else {
        first_pair_from(units, from + 1)
    }
}

/// What `first_pair_from` finds is a pair that reacts, and the first one.
pub proof fn lemma_first_pair(units: Seq<char>, from: int)
    requires
        0 <= from,
    ensures
        first_pair_from(units, from) == -1 || from <= first_pair_from(units, from) < units.len() - 1,
        first_pair_from(units, from) >= 0 ==> reacts(
            units[first_pair_from(units, from)],
            units[first_pair_from(units, from) + 1],
        ),
        forall|i: int|
            from <= i < units.len() - 1 && (first_pair_from(units, from) == -1 || i < first_pair_from(
                units,
                from,
            )) ==> !reacts(#[trigger] units[i], units[i + 1]),
    decreases units.len() - from,
{
    if from + 1 < units.len() && !reacts(units[from], units[from + 1]) {
        lemma_first_pair(units, from + 1);
    }
}

/// The chain without the two units at `at` and behind it.
pub open spec fn without_pair(units: Seq<char>, at: int) -> Seq<char> {
    units.subrange(0, at) + units.subrange(at + 2, units.len() as int)
}

/// The chain after every reaction: the first pair that reacts is taken out,
/// again and again, until no two neighbours react.
pub open spec fn reduced(units: Seq<char>) -> Seq<char>
    decreases units.len(),
    via reduced_terminates
{
    let at = first_pair_from(units, 0);
    if at < 0 {
        units
    } else {
        reduced(without_pair(units, at))
    }
}

#[via_fn]
proof fn reduced_terminates(units: Seq<char>) {
    lemma_first_pair(units, 0);
}

/// No two neighbours react in a chain that was reduced.
pub proof fn lemma_reduced_is_stable(units: Seq<char>)
    ensures
        first_pair_from(reduced(units), 0) == -1,
        forall|i: int|
            0 <= i < reduced(units).len() - 1 ==> !reacts(
                #[trigger] reduced(units)[i],
                reduced(units)[i + 1],
            ),
        reduced(units).len() <= units.len(),
    decreases units.len(),
{
    lemma_first_pair(units, 0);
    let at = first_pair_from(units, 0);
    if at >= 0 {
        lemma_reduced_is_stable(without_pair(units, at));
    }
}

fn units_react(first: char, second: char) -> (pair: bool)
    ensures
        pair == reacts(first, second),
{
    let a = first as u32;
    let b = second as u32;
    ('a' <= second && second <= 'z' && a + 32 == b) || ('A' <= second && second <= 'Z' && a == b
        + 32)
}

/// The first position at which two neighbours react.
fn first_pair(units: &Vec<char>) -> (at: Option<usize>)
    ensures
        match at {
            Some(index) => first_pair_from(units@, 0) == index,
            None => first_pair_from(units@, 0) == -1,
        },
{
    let mut i: usize = 0;
    while units.len() - i > 1
        invariant
            i <= units.len(),
            first_pair_from(units@, 0) == first_pair_from(units@, i as int),
        decreases units.len() - i,
    {
        if units_react(units[i], units[i + 1]) {
            return Some(i);
        }
        i += 1;
    }
    None
}

/// The first position at which two neighbours react, and -1 where no two
/// do.
pub fn find_index_of_pair(poly: &str) -> (found_index: isize)
    requires
        poly@.len() <= isize::MAX,
    ensures
        found_index == first_pair_from(poly@, 0),
{
    let units = chars_of(poly);
    proof {
        lemma_first_pair(units@, 0);
    }
    match first_pair(&units) {
        Some(index) => index as isize,
        None => -1,
    }
}

/// The chain after every reaction.
pub fn reduce_units(units: Vec<char>) -> (rest: Vec<char>)
    ensures
        rest@ == reduced(units@),
{
    let mut units = units;
    let ghost whole = units@;
    loop
        invariant
            reduced(units@) == reduced(whole),
        ensures
            first_pair_from(units@, 0) == -1,
            reduced(units@) == reduced(whole),
        decreases units@.len(),
    {
        proof {
            lemma_first_pair(units@, 0);
        }
        match first_pair(&units) {
            None => {
                break ;
            },
            Some(index) => {
                let ghost before = units@;
                units.remove(index);
                units.remove(index);
                proof {
                    assert(units@ =~= without_pair(before, index as int));
                }
            },
        }
    }
    units
}

/// The polymer after every reaction.
pub fn reduce_polymer(polymer: String) -> (rest: String)
    ensures
        rest@ == reduced(polymer@),
{
    let units = reduce_units(chars_of(polymer.as_str()));
    let mut rest = String::new();
    let mut i: usize = 0;
    while i < units.len()
        invariant
            i <= units.len(),
            rest@ == units@.take(i as int),
        decreases units.len() - i,
    {
        rest.push(units[i]);
        proof {
            assert(rest@ =~= units@.take(i + 1));
        }
        i += 1;
    }
    proof {
        assert(units@.take(i as int) =~= units@);
    }
    rest
}

/// The small letter with the given number, `a` being 0.
pub open spec fn small_letter(number: nat) -> char {
    ((97 + number) as u8) as char
}

/// The unit is of the kind named by the small letter: that letter or its
/// capital.
pub open spec fn is_of_kind(unit: char, small: char) -> bool {
    unit == small || unit as u32 + 32 == small as u32
}

/// The chain without the units of one kind.
pub open spec fn without_kind(units: Seq<char>, small: char) -> Seq<char>
    decreases units.len(),
{
    if units.len() == 0 {
        Seq::empty()
    } else if is_of_kind(units.last(), small) {
        without_kind(units.drop_last(), small)
    } else {
        without_kind(units.drop_last(), small).push(units.last())
    }
}

/// The length of the shortest chain that is left after every reaction, of
/// the whole chain and of the chain without the units of one of the first
/// `kinds` kinds.
pub open spec fn shortest_after(units: Seq<char>, kinds: nat) -> nat
    decreases kinds,
{
    if kinds == 0 {
        reduced(units).len()
    } else {
        let before = shortest_after(units, (kinds - 1) as nat);
        let this = reduced(without_kind(units, small_letter((kinds - 1) as nat))).len();
        if this < before {
            this
        } else {
            before
        }
    }
}

fn unit_is_of_kind(unit: char, small: char) -> (kind: bool)
    ensures
        kind == is_of_kind(unit, small),
{
    let code = unit as u32;
    let small_code = small as u32;
    unit == small || code + 32 == small_code
}

fn remove_kind(units: &Vec<char>, small: char) -> (rest: Vec<char>)
    ensures
        rest@ == without_kind(units@, small),
{
    let mut rest: Vec<char> = Vec::new();
    let mut i: usize = 0;
    while i < units.len()
        invariant
            i <= units@.len(),
            rest@ == without_kind(units@.take(i as int), small),
        decreases units@.len() - i,
    {
        proof {
            assert(units@.take(i + 1).drop_last() =~= units@.take(i as int));
        }
        let unit = units[i];
        if !unit_is_of_kind(unit, small) {
            rest.push(unit);
        }
        i += 1;
    }
    proof {
        assert(units@.take(i as int) =~= units@);
    }
    rest
}

/// The length of the shortest polymer that is left after every reaction:
/// of the whole polymer, and of the polymer without the units of one kind,
/// for each of the twenty-six kinds.
pub fn shortest_polymer(polymer: &str) -> (shortest: usize)
    ensures
        shortest == shortest_after(polymer@, 26),
{
    let units = chars_of(polymer);
    let mut shortest_polymer = reduce_units(units.clone()).len();
    let mut kind: u8 = 0;
    while kind < 26
        invariant
            kind <= 26,
            units@ == polymer@,
            shortest_polymer == shortest_after(units@, kind as nat),
        decreases 26 - kind,
    {
        let unit = (97 + kind) as char;
        let cloned = remove_kind(&units, unit);
        let p = reduce_units(cloned);
        if p.len() < shortest_polymer {
            shortest_polymer = p.len();
        }
        kind += 1;
    }
    shortest_polymer
}

} // verus!
