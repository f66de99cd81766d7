//! The boxes of an inventory, each with an identifier of letters: a
//! checksum over all identifiers, and the two identifiers that differ in
//! one place at most.

use crate::scan::chars_of;
use vstd::prelude::*;
use vstd::string::*;

verus! {

/// How often the character stands in the identifier.
pub open spec fn occurrences(id: Seq<char>, c: char) -> nat
    decreases id.len(),
{
    if id.len() == 0 {
        0
    } else if id.last() == c {
        occurrences(id.drop_last(), c) + 1
    } else {
        occurrences(id.drop_last(), c)
    }
}

/// Some character stands in the identifier exactly `times` times.
pub open spec fn has_letter_times(id: Seq<char>, times: nat) -> bool {
    exists|i: int| 0 <= i < id.len() && occurrences(id, #[trigger] id[i]) == times
}

/// The number of identifiers in which some character stands exactly
/// `times` times.
pub open spec fn count_with(ids: Seq<String>, times: nat) -> nat
    decreases ids.len(),
{
    if ids.len() == 0 {
        0
    } else if has_letter_times(ids.last()@, times) {
        count_with(ids.drop_last(), times) + 1
    } else {
        count_with(ids.drop_last(), times)
    }
}

fn count_in(id: &Vec<char>, c: char) -> (count: usize)
    ensures
        count == occurrences(id@, c),
{
    let mut count: usize = 0;
    let mut i: usize = 0;
    while i < id.len()
        invariant
            i <= id@.len(),
            count == occurrences(id@.take(i as int), c),
            count <= i,
        decreases id@.len() - i,
    {
        proof {
            assert(id@.take(i + 1).drop_last() =~= id@.take(i as int));
        }
        if id[i] == c {
            count += 1;
        }
        i += 1;
    }
    proof {
        assert(id@.take(i as int) =~= id@);
    }
    count
}

/// Says whether some character stands in the identifier exactly `times`
/// times.
pub fn has_repeated(id: &Vec<char>, times: usize) -> (found: bool)
    ensures
        found == has_letter_times(id@, times as nat),
{
    let mut i: usize = 0;
    while i < id.len()
        invariant
            i <= id@.len(),
            forall|k: int| 0 <= k < i ==> occurrences(id@, #[trigger] id@[k]) != times,
        decreases id@.len() - i,
    {
        if count_in(id, id[i]) == times {
            return true;
        }
        i += 1;
    }
    false
}

/// The checksum of the inventory: the number of identifiers in which some
/// letter stands exactly twice, times the number of those in which some
/// letter stands exactly three times. Nothing where one of the three
/// numbers leaves the range of `i32`.
pub fn checksum(ids: &Vec<String>) -> (sum: Option<i32>)
    ensures
        sum == if count_with(ids@, 2) <= i32::MAX && count_with(ids@, 3) <= i32::MAX && count_with(
            ids@,
            2,
        ) * count_with(ids@, 3) <= i32::MAX {
            Some((count_with(ids@, 2) * count_with(ids@, 3)) as i32)
        } else {
            None
        },
{
    let mut pairs: usize = 0;
    let mut triplets: usize = 0;
    let mut i: usize = 0;
    while i < ids.len()
        invariant
            i <= ids@.len(),
            pairs == count_with(ids@.take(i as int), 2),
            triplets == count_with(ids@.take(i as int), 3),
            pairs <= i,
            triplets <= i,
        decreases ids@.len() - i,
    {
        proof {
            assert(ids@.take(i + 1).drop_last() =~= ids@.take(i as int));
        }
        let id = chars_of(ids[i].as_str());
        if has_repeated(&id, 2) {
            pairs += 1;
        }
        if has_repeated(&id, 3) {
            triplets += 1;
        }
        i += 1;
    }
    proof {
        assert(ids@.take(i as int) =~= ids@);
    }
    if pairs > 0x7fff_ffff || triplets > 0x7fff_ffff {
        return None;
    }
    assert(pairs * triplets <= 0x7fff_ffff * 0x7fff_ffff) by (nonlinear_arith)
        requires
            pairs <= 0x7fff_ffff,
            triplets <= 0x7fff_ffff,
    ;
    let product: u128 = pairs as u128 * triplets as u128;
    if product > 0x7fff_ffff {
        None
    } else {
        Some(product as i32)
    }
}

/// In how many places of the first identifier the second one holds another
/// character.
pub open spec fn differences(first: Seq<char>, second: Seq<char>) -> nat
    decreases first.len(),
{
    if first.len() == 0 {
        0
    } else if first.last() != second[first.len() - 1] {
        differences(first.drop_last(), second) + 1
    } else {
        differences(first.drop_last(), second)
    }
}

/// The pair of identifiers that is held once every identifier before
/// `later` has been held against all that stand before it, and the
/// identifier `later` against the first `earlier`: the last pair that
/// differs in one place at most, and a pair of words that say so where
/// there is none.
pub open spec fn common_after(ids: Seq<String>, later: nat, earlier: nat) -> (Seq<char>, Seq<char>)
    decreases later, earlier,
{
    if earlier == 0 {
        if later == 0 {
            ("DID"@, "NOT WORK"@)
        } else {
            common_after(ids, (later - 1) as nat, (later - 1) as nat)
        }
    } else if differences(ids[earlier - 1]@, ids[later as int]@) <= 1 {
        (ids[earlier - 1]@, ids[later as int]@)
    } else {
        common_after(ids, later, (earlier - 1) as nat)
    }
}

/// No identifier is shorter than one that stands before it.
pub open spec fn never_shorter(ids: Seq<String>) -> bool {
    forall|i: int, j: int|
        0 <= i < j < ids.len() ==> (#[trigger] ids[i])@.len() <= (#[trigger] ids[j])@.len()
}

fn count_differences(first: &Vec<char>, second: &Vec<char>) -> (count: usize)
    requires
        first@.len() <= second@.len(),
    ensures
        count == differences(first@, second@),
{
    let mut count: usize = 0;
    let mut i: usize = 0;
    while i < first.len()
        invariant
            i <= first@.len() <= second@.len(),
            count == differences(first@.take(i as int), second@),
            count <= i,
        decreases first@.len() - i,
    {
        proof {
            assert(first@.take(i + 1).drop_last() =~= first@.take(i as int));
        }
        if first[i] != second[i] {
            count += 1;
        }
        i += 1;
    }
    proof {
        assert(first@.take(i as int) =~= first@);
    }
    count
}

/// The two identifiers that differ in one place at most: of several such
/// pairs the last one, going through the identifiers in their order and
/// holding each against all that stand before it.
pub fn common_box_ids(ids: &Vec<String>) -> (common: (String, String))
    requires
        never_shorter(ids@),
    ensures
        (common.0@, common.1@) == common_after(ids@, ids@.len(), 0),
{
    let mut common_box_ids: (String, String) = (String::from_str("DID"), String::from_str("NOT WORK"));
    let mut later: usize = 0;
    while later < ids.len()
        invariant
            later <= ids@.len(),
            never_shorter(ids@),
            (common_box_ids.0@, common_box_ids.1@) == common_after(ids@, later as nat, 0),
        decreases ids@.len() - later,
    {
        let current = chars_of(ids[later].as_str());
        let mut earlier: usize = 0;
        while earlier < later
            invariant
                earlier <= later < ids@.len(),
                never_shorter(ids@),
                current@ == ids@[later as int]@,
                (common_box_ids.0@, common_box_ids.1@) == common_after(
                    ids@,
                    later as nat,
                    earlier as nat,
                ),
            decreases later - earlier,
        {
            let box_id = chars_of(ids[earlier].as_str());
            if count_differences(&box_id, &current) <= 1 {
                common_box_ids = (ids[earlier].clone(), ids[later].clone());
            }
            earlier += 1;
        }
        later += 1;
    }
    common_box_ids
}

} // verus!
