//! The steps of a plan as they are written down, one to a line.

use crate::scan::{char_at, char_token, plain_format, scan, scanned, texts};
use vstd::prelude::*;

verus! {

/// The format of a step: the task that must be finished, and the task that
/// can begin after it.
pub open spec fn step_format() -> Seq<char> {
    "Step {} must be finished before step {} can begin."@
}

/// The edge that the tokens of a line give: two tokens of one character,
/// the parent and the child.
pub open spec fn step_of(tokens: Seq<Seq<char>>) -> Option<(char, char)> {
    match (char_token(tokens, 0), char_token(tokens, 1)) {
        (Some(parent), Some(child)) => Some((parent, child)),
        _ => None,
    }
}

/// Reads an edge from the tokens of its line.
pub fn step_from_tokens(tokens: &Vec<String>) -> (step: Option<(char, char)>)
    ensures
        step == step_of(texts(tokens@)),
{
    match (char_at(tokens, 0), char_at(tokens, 1)) {
        (Some(parent), Some(child)) => Some((parent, child)),
        _ => None,
    }
}

/// Reads an edge such as `Step C must be finished before step A can
/// begin.`: the one that the tokens give which the scanner picks out of the
/// line.
pub fn step_from_line(line: &str) -> (step: Option<(char, char)>)
    ensures
        step == step_of(scanned(line@, step_format())),
{
    proof {
        reveal_strlit("Step {} must be finished before step {} can begin.");
        assert(plain_format("Step {} must be finished before step {} can begin."@));
    }
    let tokens = scan(line, "Step {} must be finished before step {} can begin.");
    step_from_tokens(&tokens)
}

} // verus!
