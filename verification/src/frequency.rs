//! Changes of frequency, one to a line: a number with its sign.

use crate::scan::{bounded_signed, chars_of, signed_from_chars};
use vstd::prelude::*;

verus! {

/// The part of the line that holds the number: the line without its first
/// character where a `+` stands anywhere in it, else the whole line.
pub open spec fn number_text(line: Seq<char>) -> Seq<char> {
    if line.contains('+') {
        line.skip(1)
    } else {
        line
    }
}

/// Reads a change of frequency such as `+5` or `-450`; nothing where the
/// line holds no number of 64 bits.
pub fn convert_line_to_number(line: &str) -> (number: Option<i64>)
    ensures
        number == bounded_signed(number_text(line@)),
{
    let chars = chars_of(line);
    let mut plus = false;
    let mut i: usize = 0;
    while i < chars.len()
        invariant
            i <= chars.len(),
            plus == chars@.take(i as int).contains('+'),
        decreases chars.len() - i,
    {
        proof {
            let seen = chars@.take(i as int);
            let next = chars@.take(i + 1);
            assert(next =~= seen.push(chars@[i as int]));
            if seen.contains('+') {
                let k = choose|k: int| 0 <= k < seen.len() && seen[k] == '+';
                assert(next[k] == '+');
            }
            if chars@[i as int] == '+' {
                assert(next[i as int] == '+');
            }
            if next.contains('+') && chars@[i as int] != '+' {
                let k = choose|k: int| 0 <= k < next.len() && next[k] == '+';
                assert(seen[k] == '+');
            }
        }
        if chars[i] == '+' {
            plus = true;
        }
        i += 1;
    }
    proof {
        assert(chars@.take(i as int) =~= chars@);
        assert(chars@.skip(0) =~= chars@);
    }
    if plus {
        signed_from_chars(&chars, 1)
    } else {
        signed_from_chars(&chars, 0)
    }
}

/// The frequency after all changes, starting from zero. Nothing where a
/// line holds no number, or where a sum on the way leaves the range of
/// `i64`.
pub open spec fn total_change(lines: Seq<String>) -> Option<int>
    decreases lines.len(),
{
    if lines.len() == 0 {
        Some(0)
    } else {
        match (total_change(lines.drop_last()), bounded_signed(number_text(lines.last()@))) {
            (Some(before), Some(change)) => if i64::MIN <= before + change <= i64::MAX {
                Some(before + change)
            } else {
                None
            },
            _ => None,
        }
    }
}

/// Once the frequency is lost, more lines do not bring it back.
pub proof fn lemma_total_change_fails(lines: Seq<String>, n: int)
    requires
        0 <= n <= lines.len(),
        total_change(lines.take(n)) is None,
    ensures
        total_change(lines) is None,
    decreases lines.len(),
{
    if n < lines.len() {
        assert(lines.drop_last().take(n) =~= lines.take(n));
        lemma_total_change_fails(lines.drop_last(), n);
    } else {
        assert(lines.take(n) =~= lines);
    }
}

/// The frequency after all changes, starting from zero.
pub fn final_frequency(lines: &Vec<String>) -> (frequency: Option<i64>)
    ensures
        frequency == match total_change(lines@) {
            Some(sum) => Some(sum as i64),
            None => None,
        },
        total_change(lines@) matches Some(sum) ==> i64::MIN <= sum <= i64::MAX,
{
    let mut count: i64 = 0;
    let mut i: usize = 0;
    while i < lines.len()
        invariant
            i <= lines@.len(),
            total_change(lines@.take(i as int)) == Some(count as int),
        decreases lines@.len() - i,
    {
        proof {
            assert(lines@.take(i + 1).drop_last() =~= lines@.take(i as int));
            assert(lines@.take(i + 1).last() == lines@[i as int]);
        }
        match convert_line_to_number(lines[i].as_str()) {
            None => {
                proof {
                    lemma_total_change_fails(lines@, i + 1);
                }
                return None;
            },
            Some(change) => {
                let sum: i128 = count as i128 + change as i128;
                if sum < i64::MIN as i128 || sum > i64::MAX as i128 {
                    proof {
                        lemma_total_change_fails(lines@, i + 1);
                    }
                    return None;
                }
                count = sum as i64;
            },
        }
        i += 1;
    }
    proof {
        assert(lines@.take(i as int) =~= lines@);
    }
    Some(count)
}

} // verus!
