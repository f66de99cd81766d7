//! Claims on a sheet of fabric: each claim is a rectangle of square inches,
//! given by its offsets from the left and the top and by its size.

use crate::scan::{plain_format, scan, scanned, texts, unsigned_at, unsigned_token};
use vstd::prelude::*;

verus! {

/// The format of a claim: its number, the two offsets, the width and the
/// height.
pub open spec fn claim_format() -> Seq<char> {
    "#{} @ {},{}: {}x{}"@
}

/// The claim that the tokens of a line give: five numbers of 16 bits.
pub open spec fn claim_of(tokens: Seq<Seq<char>>) -> Option<(u16, u16, u16, u16, u16)> {
    match (
        unsigned_token(tokens, 0, 0xffff),
        unsigned_token(tokens, 1, 0xffff),
        unsigned_token(tokens, 2, 0xffff),
        unsigned_token(tokens, 3, 0xffff),
        unsigned_token(tokens, 4, 0xffff),
    ) {
        (Some(id), Some(left), Some(top), Some(width), Some(height)) => Some(
            (id as u16, left as u16, top as u16, width as u16, height as u16),
        ),
        _ => None,
    }
}

/// Reads a claim from the tokens of its line.
pub fn claim_from_tokens(tokens: &Vec<String>) -> (claim: Option<(u16, u16, u16, u16, u16)>)
    ensures
        claim == claim_of(texts(tokens@)),
{
    let id = unsigned_at(tokens, 0, 0xffff);
    let left = unsigned_at(tokens, 1, 0xffff);
    let top = unsigned_at(tokens, 2, 0xffff);
    let width = unsigned_at(tokens, 3, 0xffff);
    let height = unsigned_at(tokens, 4, 0xffff);
    match (id, left, top, width, height) {
        (Some(id), Some(left), Some(top), Some(width), Some(height)) => Some(
            (id as u16, left as u16, top as u16, width as u16, height as u16),
        ),
        _ => None,
    }
}

/// Reads a claim such as `#1 @ 483,830: 24x18`: the claim that the tokens
/// give which the scanner picks out of the line.
pub fn convert_line_to_variables(line: String) -> (claim: Option<(u16, u16, u16, u16, u16)>)
    ensures
        claim == claim_of(scanned(line@, claim_format())),
{
    proof {
        reveal_strlit("#{} @ {},{}: {}x{}");
        assert(plain_format("#{} @ {},{}: {}x{}"@));
    }
    let tokens = scan(line.as_str(), "#{} @ {},{}: {}x{}");
    claim_from_tokens(&tokens)
}

/// The character that a number below ten is written as.
pub open spec fn digit_char(d: nat) -> char {
    if d == 0 {
        '0'
    } else if d == 1 {
        '1'
    } else if d == 2 {
        '2'
    } else if d == 3 {
        '3'
    } else if d == 4 {
        '4'
    } else if d == 5 {
        '5'
    } else if d == 6 {
        '6'
    } else if d == 7 {
        '7'
    } else if d == 8 {
        '8'
    } else {
        '9'
    }
}

/// A number in decimal digits, without leading zeros.
pub open spec fn decimal_text(n: nat) -> Seq<char>
    decreases n,
{
    if n < 10 {
        seq![digit_char(n)]
    } else {
        decimal_text(n / 10).push(digit_char(n % 10))
    }
}

/// The name of the square inch at `x` from the left and `y` from the top:
/// the two numbers with an `x` between them.
pub open spec fn plot_name(x: nat, y: nat) -> Seq<char> {
    decimal_text(x) + seq!['x'] + decimal_text(y)
}

/// Formats the two numbers with `format!`, which writes an unsigned number
/// in decimal digits without leading zeros.
#[verifier::external_body]
fn name_plot(x: u16, y: u16) -> (name: String)
    ensures
        name@ == plot_name(x as nat, y as nat),
{
    format!("{}x{}", x, y)
}

/// The names of the square inches of a claim, column by column from the
/// left, each column from the top.
pub fn dimensions_to_plots(left_offset: u16, top_offset: u16, width: u16, height: u16) -> (plots:
    Vec<String>)
    requires
        left_offset + width <= u16::MAX,
        top_offset + height <= u16::MAX,
    ensures
        plots@.len() == width * height,
        forall|i: int, j: int|
            0 <= i < width && 0 <= j < height ==> (#[trigger] plots@[i * height + j])@ == plot_name(
                (left_offset + i) as nat,
                (top_offset + j) as nat,
            ),
{
    let mut plots: Vec<String> = Vec::new();
    let mut x: u16 = left_offset;
    while x < left_offset + width
        invariant
            left_offset <= x <= left_offset + width <= u16::MAX,
            top_offset + height <= u16::MAX,
            plots@.len() == (x - left_offset) * height,
            forall|i: int, j: int|
                0 <= i < x - left_offset && 0 <= j < height ==> (#[trigger] plots@[i * height
                    + j])@ == plot_name((left_offset + i) as nat, (top_offset + j) as nat),
        decreases left_offset + width - x,
    {
        let ghost column = (x - left_offset) as int;
        let ghost before = plots@;
        let mut y: u16 = top_offset;
        while y < top_offset + height
            invariant
                top_offset <= y <= top_offset + height <= u16::MAX,
                column == x - left_offset,
                plots@.len() == column * height + (y - top_offset),
                before.len() == column * height,
                forall|k: int| 0 <= k < before.len() ==> #[trigger] plots@[k] == before[k],
                forall|j: int|
                    0 <= j < y - top_offset ==> (#[trigger] plots@[column * height + j])@
                        == plot_name(x as nat, (top_offset + j) as nat),
            decreases top_offset + height - y,
        {
            plots.push(name_plot(x, y));
            y += 1;
        }
        proof {
            assert((column + 1) * height == column * height + height) by (nonlinear_arith);
            assert forall|i: int, j: int| 0 <= i < column + 1 && 0 <= j < height implies (
            #[trigger] plots@[i * height + j])@ == plot_name(
                (left_offset + i) as nat,
                (top_offset + j) as nat,
            ) by {
                if i < column {
                    assert(i * height + j < column * height) by (nonlinear_arith)
                        requires
                            0 <= i < column,
                            0 <= j < height,
                    ;
                    assert(0 <= i * height + j) by (nonlinear_arith)
                        requires
                            0 <= i,
                            0 <= j,
                            0 <= height,
                    ;
                    assert(plots@[i * height + j] == before[i * height + j]);
                }
            }
        }
        x += 1;
    }
    plots
}

/// The claim holds the square inch at `x` from the left and `y` from the
/// top.
pub open spec fn covers(claim: (u16, u16, u16, u16, u16), x: int, y: int) -> bool {
    claim.1 <= x < claim.1 + claim.3 && claim.2 <= y < claim.2 + claim.4
}

/// The number of claims that hold the square inch.
pub open spec fn coverage(claims: Seq<(u16, u16, u16, u16, u16)>, x: int, y: int) -> nat
    decreases claims.len(),
{
    if claims.len() == 0 {
        0
    } else if covers(claims.last(), x, y) {
        coverage(claims.drop_last(), x, y) + 1
    } else {
        coverage(claims.drop_last(), x, y)
    }
}

/// How far to the right the claims reach.
pub open spec fn right_edge(claims: Seq<(u16, u16, u16, u16, u16)>) -> nat
    decreases claims.len(),
{
    if claims.len() == 0 {
        0
    } else if claims.last().1 + claims.last().3 > right_edge(claims.drop_last()) {
        (claims.last().1 + claims.last().3) as nat
    } else {
        right_edge(claims.drop_last())
    }
}

/// How far down the claims reach.
pub open spec fn bottom_edge(claims: Seq<(u16, u16, u16, u16, u16)>) -> nat
    decreases claims.len(),
{
    if claims.len() == 0 {
        0
    } else if claims.last().2 + claims.last().4 > bottom_edge(claims.drop_last()) {
        (claims.last().2 + claims.last().4) as nat
    } else {
        bottom_edge(claims.drop_last())
    }
}

/// The number of square inches among the first `rows` of column `x` that
/// two claims or more hold.
pub open spec fn column_overlap(claims: Seq<(u16, u16, u16, u16, u16)>, x: int, rows: nat) -> nat
    decreases rows,
{
    if rows == 0 {
        0
    } else if coverage(claims, x, rows - 1) >= 2 {
        column_overlap(claims, x, (rows - 1) as nat) + 1
    } else {
        column_overlap(claims, x, (rows - 1) as nat)
    }
}

/// The number of square inches in the first `columns` columns and the
/// first `rows` rows that two claims or more hold.
pub open spec fn overlap(claims: Seq<(u16, u16, u16, u16, u16)>, columns: nat, rows: nat) -> nat
    decreases columns,
{
    if columns == 0 {
        0
    } else {
        overlap(claims, (columns - 1) as nat, rows) + column_overlap(claims, columns - 1, rows)
    }
}

/// The claims reach no farther than twice the largest number of 16 bits,
/// and no claim holds a square inch beyond their edges.
pub proof fn lemma_edges(claims: Seq<(u16, u16, u16, u16, u16)>, x: int, y: int)
    ensures
        right_edge(claims) <= 0x1fffe,
        bottom_edge(claims) <= 0x1fffe,
        coverage(claims, x, y) <= claims.len(),
        x >= right_edge(claims) || y >= bottom_edge(claims) ==> coverage(claims, x, y) == 0,
    decreases claims.len(),
{
    if claims.len() > 0 {
        lemma_edges(claims.drop_last(), x, y);
    }
}

fn edges(claims: &Vec<(u16, u16, u16, u16, u16)>) -> (reach: (u32, u32))
    ensures
        reach.0 == right_edge(claims@),
        reach.1 == bottom_edge(claims@),
        reach.0 <= 0x1fffe,
        reach.1 <= 0x1fffe,
{
    let mut right: u32 = 0;
    let mut bottom: u32 = 0;
    let mut i: usize = 0;
    while i < claims.len()
        invariant
            i <= claims@.len(),
            right == right_edge(claims@.take(i as int)),
            bottom == bottom_edge(claims@.take(i as int)),
        decreases claims@.len() - i,
    {
        proof {
            assert(claims@.take(i + 1).drop_last() =~= claims@.take(i as int));
        }
        let claim = claims[i];
        if claim.1 as u32 + claim.3 as u32 > right {
            right = claim.1 as u32 + claim.3 as u32;
        }
        if claim.2 as u32 + claim.4 as u32 > bottom {
            bottom = claim.2 as u32 + claim.4 as u32;
        }
        i += 1;
    }
    proof {
        assert(claims@.take(i as int) =~= claims@);
        lemma_edges(claims@, 0, 0);
    }
    (right, bottom)
}

/// Counts the claims that hold the square inch.
pub fn claims_on(claims: &Vec<(u16, u16, u16, u16, u16)>, x: u32, y: u32) -> (count: usize)
    ensures
        count == coverage(claims@, x as int, y as int),
{
    let mut count: usize = 0;
    let mut i: usize = 0;
    while i < claims.len()
        invariant
            i <= claims@.len(),
            count == coverage(claims@.take(i as int), x as int, y as int),
            count <= i,
        decreases claims@.len() - i,
    {
        proof {
            assert(claims@.take(i + 1).drop_last() =~= claims@.take(i as int));
        }
        let claim = claims[i];
        if claim.1 as u32 <= x && x < claim.1 as u32 + claim.3 as u32 && claim.2 as u32 <= y && y
            < claim.2 as u32 + claim.4 as u32 {
            count += 1;
        }
        i += 1;
    }
    proof {
        assert(claims@.take(i as int) =~= claims@);
    }
    count
}

/// The number of square inches that two claims or more hold.
pub fn count_overlap(claims: &Vec<(u16, u16, u16, u16, u16)>) -> (count: u64)
    ensures
        count == overlap(claims@, right_edge(claims@), bottom_edge(claims@)),
{
    let (right, bottom) = edges(claims);
    let mut count: u64 = 0;
    let mut x: u32 = 0;
    while x < right
        invariant
            x <= right <= 0x1fffe,
            bottom <= 0x1fffe,
            count == overlap(claims@, x as nat, bottom as nat),
            count <= x * bottom,
        decreases right - x,
    {
        let mut in_column: u32 = 0;
        let mut y: u32 = 0;
        while y < bottom
            invariant
                y <= bottom <= 0x1fffe,
                in_column == column_overlap(claims@, x as int, y as nat),
                in_column <= y,
            decreases bottom - y,
        {
            if claims_on(claims, x, y) >= 2 {
                in_column += 1;
            }
            y += 1;
        }
        proof {
            assert(x * bottom + bottom == (x + 1) * bottom) by (nonlinear_arith);
            assert((x + 1) * bottom <= 0x1fffe * 0x1fffe) by (nonlinear_arith)
                requires
                    x + 1 <= 0x1fffe,
                    bottom <= 0x1fffe,
            ;
        }
        count = count + in_column as u64;
        x += 1;
    }
    count
}

/// No square inch of the claim at `index` is held by another claim.
pub open spec fn is_intact(claims: Seq<(u16, u16, u16, u16, u16)>, index: int) -> bool {
    forall|x: int, y: int| #[trigger]
        covers(claims[index], x, y) ==> coverage(claims, x, y) == 1
}

/// The numbers of those among the first `n` claims that no other claim
/// overlaps, in their order.
pub open spec fn intact_ids(claims: Seq<(u16, u16, u16, u16, u16)>, n: nat) -> Seq<u16>
    decreases n,
{
    if n == 0 {
        Seq::empty()
    } else if is_intact(claims, n - 1) {
        intact_ids(claims, (n - 1) as nat).push(claims[n - 1].0)
    } else {
        intact_ids(claims, (n - 1) as nat)
    }
}

/// Says whether no square inch of the claim at `index` is held by another
/// claim.
pub fn claim_is_intact(claims: &Vec<(u16, u16, u16, u16, u16)>, index: usize) -> (intact: bool)
    requires
        index < claims@.len(),
    ensures
        intact == is_intact(claims@, index as int),
{
    let claim = claims[index];
    let left = claim.1 as u32;
    let top = claim.2 as u32;
    let right = left + claim.3 as u32;
    let bottom = top + claim.4 as u32;
    let mut x: u32 = left;
    while x < right
        invariant
            left <= x <= right <= 0x1fffe,
            top <= bottom <= 0x1fffe,
            claim == claims@[index as int],
            left == claim.1,
            top == claim.2,
            right == claim.1 + claim.3,
            bottom == claim.2 + claim.4,
            forall|i: int, j: int|
                left <= i < x && #[trigger] covers(claim, i, j) ==> coverage(claims@, i, j) == 1,
        decreases right - x,
    {
        let mut y: u32 = top;
        while y < bottom
            invariant
                left <= x < right <= 0x1fffe,
                top <= y <= bottom <= 0x1fffe,
                claim == claims@[index as int],
                left == claim.1,
                top == claim.2,
                right == claim.1 + claim.3,
                bottom == claim.2 + claim.4,
                forall|j: int| top <= j < y ==> #[trigger] coverage(claims@, x as int, j) == 1,
            decreases bottom - y,
        {
            if claims_on(claims, x, y) != 1 {
                proof {
                    assert(covers(claim, x as int, y as int));
                }
                return false;
            }
            y += 1;
        }
        x += 1;
    }
    true
}

/// The numbers of the claims that no other claim overlaps, in their order.
pub fn intact_claims(claims: &Vec<(u16, u16, u16, u16, u16)>) -> (ids: Vec<u16>)
    ensures
        ids@ == intact_ids(claims@, claims@.len()),
{
    let mut ids: Vec<u16> = Vec::new();
    let mut i: usize = 0;
    while i < claims.len()
        invariant
            i <= claims@.len(),
            ids@ == intact_ids(claims@, i as nat),
        decreases claims@.len() - i,
    {
        if claim_is_intact(claims, i) {
            ids.push(claims[i].0);
        }
        i += 1;
    }
    ids
}

} // verus!
