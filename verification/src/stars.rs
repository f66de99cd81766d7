//! Points of light that drift across the sky: each has a position and a
//! velocity, and a message shows once every point touches another one.

use crate::scan::{plain_format, scan, scanned, signed_at, signed_token, texts};
use vstd::prelude::*;

verus! {

/// The format of a point: its position and its velocity.
pub open spec fn point_format() -> Seq<char> {
    "position=<{},{}>velocity=<{},{}>"@
}

/// The point that the tokens of a line give: four numbers of 64 bits.
pub open spec fn point_of(tokens: Seq<Seq<char>>) -> Option<(i64, i64, i64, i64)> {
    match (
        signed_token(tokens, 0),
        signed_token(tokens, 1),
        signed_token(tokens, 2),
        signed_token(tokens, 3),
    ) {
        (Some(pos_x), Some(pos_y), Some(vel_x), Some(vel_y)) => Some((pos_x, pos_y, vel_x, vel_y)),
        _ => None,
    }
}

/// Reads a point from the tokens of its line.
pub fn point_from_tokens(tokens: &Vec<String>) -> (point: Option<(i64, i64, i64, i64)>)
    ensures
        point == point_of(texts(tokens@)),
{
    let pos_x = signed_at(tokens, 0);
    let pos_y = signed_at(tokens, 1);
    let vel_x = signed_at(tokens, 2);
    let vel_y = signed_at(tokens, 3);
    match (pos_x, pos_y, vel_x, vel_y) {
        (Some(pos_x), Some(pos_y), Some(vel_x), Some(vel_y)) => Some((pos_x, pos_y, vel_x, vel_y)),
        _ => None,
    }
}

/// Reads a point such as `position=< 7,  0> velocity=<-1,  0>`: the point
/// that the tokens give which the scanner picks out of the line.
pub fn convert_line_to_variables(line: String) -> (point: Option<(i64, i64, i64, i64)>)
    ensures
        point == point_of(scanned(line@, point_format())),
{
    proof {
        reveal_strlit("position=<{},{}>velocity=<{},{}>");
        assert(plain_format("position=<{},{}>velocity=<{},{}>"@));
    }
    let tokens = scan(line.as_str(), "position=<{},{}>velocity=<{},{}>");
    point_from_tokens(&tokens)
}

/// The distance between two numbers.
pub open spec fn distance(a: int, b: int) -> int {
    if a < b {
        b - a
    } else {
        a - b
    }
}

/// Two points touch: they are neighbours, side by side or corner to corner,
/// and not at the same place.
pub open spec fn connected(a: (i64, i64, i64, i64), b: (i64, i64, i64, i64)) -> bool {
    let x_diff = distance(a.0 as int, b.0 as int);
    let y_diff = distance(a.1 as int, b.1 as int);
    x_diff < 2 && y_diff < 2 && (x_diff != 0 || y_diff != 0)
}

/// Point `i` touches one of the first `n` points.
pub open spec fn touches_one_of(points: Seq<(i64, i64, i64, i64)>, i: int, n: int) -> bool {
    exists|j: int| 0 <= j < n && connected(points[i], #[trigger] points[j])
}

/// Every point touches another one.
pub open spec fn spells_word(points: Seq<(i64, i64, i64, i64)>) -> bool {
    forall|i: int| 0 <= i < points.len() ==> #[trigger] touches_one_of(points, i, points.len() as int)
}

fn far_apart(a: i64, b: i64) -> (far: bool)
    ensures
        far == (distance(a as int, b as int) >= 2),
{
    let diff: i128 = a as i128 - b as i128;
    diff >= 2 || diff <= -2
}

/// Says whether two points touch.
pub fn points_are_connected(point_a: &(i64, i64, i64, i64), point_b: &(i64, i64, i64, i64)) -> (touch:
    bool)
    ensures
        touch == connected(*point_a, *point_b),
{
    if far_apart(point_a.0, point_b.0) || far_apart(point_a.1, point_b.1) {
        return false;
    }
    point_a.0 != point_b.0 || point_a.1 != point_b.1
}

/// Says whether every point touches another one.
pub fn points_spell_word(points: &Vec<(i64, i64, i64, i64)>) -> (word: bool)
    ensures
        word == spells_word(points@),
{
    let mut a: usize = 0;
    while a < points.len()
        invariant
            a <= points.len(),
            forall|i: int| 0 <= i < a ==> #[trigger] touches_one_of(points@, i, points.len() as int),
        decreases points.len() - a,
    {
        let mut points_connected = false;
        let mut b: usize = 0;
        while b < points.len()
            invariant
                a < points.len(),
                b <= points.len(),
                points_connected == touches_one_of(points@, a as int, b as int),
            decreases points.len() - b,
        {
            proof {
                if touches_one_of(points@, a as int, b + 1) && !touches_one_of(
                    points@,
                    a as int,
                    b as int,
                ) {
                    let j = choose|j: int|
                        0 <= j < b + 1 && connected(points@[a as int], #[trigger] points@[j]);
                    assert(j == b);
                }
                if connected(points@[a as int], points@[b as int]) {
                    assert(touches_one_of(points@, a as int, b + 1));
                }
                if touches_one_of(points@, a as int, b as int) {
                    assert(touches_one_of(points@, a as int, b + 1));
                }
            }
            if points_are_connected(&points[a], &points[b]) {
                points_connected = true;
            }
            b += 1;
        }
        if !points_connected {
            return false;
        }
        a += 1;
    }
    true
}

/// The point one second later: its position moved by its velocity.
pub open spec fn moved(point: (i64, i64, i64, i64)) -> (i64, i64, i64, i64) {
    ((point.0 + point.2) as i64, (point.1 + point.3) as i64, point.2, point.3)
}

/// The point stays within the numbers of 64 bits when it moves.
pub open spec fn can_move(point: (i64, i64, i64, i64)) -> bool {
    i64::MIN <= point.0 + point.2 <= i64::MAX && i64::MIN <= point.1 + point.3 <= i64::MAX
}

/// Moves every point by its velocity.
pub fn advance(points: &mut Vec<(i64, i64, i64, i64)>)
    requires
        forall|i: int| 0 <= i < old(points)@.len() ==> can_move(#[trigger] old(points)@[i]),
    ensures
        final(points)@.len() == old(points)@.len(),
        forall|i: int|
            0 <= i < old(points)@.len() ==> #[trigger] final(points)@[i] == moved(old(points)@[i]),
{
    let mut i: usize = 0;
    while i < points.len()
        invariant
            i <= points@.len() == old(points)@.len(),
            forall|k: int| 0 <= k < old(points)@.len() ==> can_move(#[trigger] old(points)@[k]),
            forall|k: int| 0 <= k < i ==> #[trigger] points@[k] == moved(old(points)@[k]),
            forall|k: int| i <= k < points@.len() ==> #[trigger] points@[k] == old(points)@[k],
        decreases points@.len() - i,
    {
        let point = points[i];
        proof {
            assert(can_move(old(points)@[i as int]));
        }
        points.set(i, (point.0 + point.2, point.1 + point.3, point.2, point.3));
        i += 1;
    }
}

/// Every point stays within the numbers of 64 bits when it moves.
pub open spec fn all_can_move(points: Seq<(i64, i64, i64, i64)>) -> bool {
    forall|i: int| 0 <= i < points.len() ==> can_move(#[trigger] points[i])
}

/// Moves every point by its velocity, where every point can move; else
/// says no and leaves the points where they are.
pub fn try_advance(points: &mut Vec<(i64, i64, i64, i64)>) -> (moved_all: bool)
    ensures
        moved_all == all_can_move(old(points)@),
        final(points)@.len() == old(points)@.len(),
        moved_all ==> forall|i: int|
            0 <= i < old(points)@.len() ==> #[trigger] final(points)@[i] == moved(old(points)@[i]),
        !moved_all ==> final(points)@ == old(points)@,
{
    let mut i: usize = 0;
    while i < points.len()
        invariant
            i <= points@.len(),
            points@ == old(points)@,
            forall|k: int| 0 <= k < i ==> can_move(#[trigger] points@[k]),
        decreases points@.len() - i,
    {
        let point = points[i];
        let x: i128 = point.0 as i128 + point.2 as i128;
        let y: i128 = point.1 as i128 + point.3 as i128;
        if x < i64::MIN as i128 || x > i64::MAX as i128 || y < i64::MIN as i128 || y > i64::MAX as i128 {
            proof {
                assert(!can_move(points@[i as int]));
            }
            return false;
        }
        i += 1;
    }
    advance(points);
    true
}

/// The smallest of the numbers, and the first one where there is one only.
pub open spec fn lowest(numbers: Seq<int>) -> int
    decreases numbers.len(),
{
    if numbers.len() <= 1 {
        numbers[0]
    } else if numbers.last() < lowest(numbers.drop_last()) {
        numbers.last()
    } else {
        lowest(numbers.drop_last())
    }
}

/// The largest of the numbers.
pub open spec fn highest(numbers: Seq<int>) -> int
    decreases numbers.len(),
{
    if numbers.len() <= 1 {
        numbers[0]
    } else if numbers.last() > highest(numbers.drop_last()) {
        numbers.last()
    } else {
        highest(numbers.drop_last())
    }
}

/// How far to the right the points stand.
pub open spec fn xs(points: Seq<(i64, i64, i64, i64)>) -> Seq<int> {
    points.map_values(|point: (i64, i64, i64, i64)| point.0 as int)
}

/// How far down the points stand.
pub open spec fn ys(points: Seq<(i64, i64, i64, i64)>) -> Seq<int> {
    points.map_values(|point: (i64, i64, i64, i64)| point.1 as int)
}

/// A point stands at the place `(x, y)`.
pub open spec fn is_lit(points: Seq<(i64, i64, i64, i64)>, x: int, y: int) -> bool {
    exists|i: int| 0 <= i < points.len() && (#[trigger] points[i]).0 == x && points[i].1 == y
}

/// The corners of the smallest frame around all points: the smallest and
/// the largest of their places, to the right and down.
fn frame(points: &Vec<(i64, i64, i64, i64)>) -> (corners: (i64, i64, i64, i64))
    requires
        points@.len() > 0,
    ensures
        corners.0 == lowest(xs(points@)),
        corners.1 == lowest(ys(points@)),
        corners.2 == highest(xs(points@)),
        corners.3 == highest(ys(points@)),
{
    let mut min_x = points[0].0;
    let mut min_y = points[0].1;
    let mut max_x = points[0].0;
    let mut max_y = points[0].1;
    let mut i: usize = 1;
    proof {
        assert(xs(points@).take(1).len() == 1);
        assert(ys(points@).take(1).len() == 1);
    }
    while i < points.len()
        invariant
            1 <= i <= points@.len(),
            min_x == lowest(xs(points@).take(i as int)),
            min_y == lowest(ys(points@).take(i as int)),
            max_x == highest(xs(points@).take(i as int)),
            max_y == highest(ys(points@).take(i as int)),
        decreases points@.len() - i,
    {
        proof {
            assert(xs(points@).take(i + 1).drop_last() =~= xs(points@).take(i as int));
            assert(ys(points@).take(i + 1).drop_last() =~= ys(points@).take(i as int));
        }
        let point = points[i];
        if point.0 < min_x {
            min_x = point.0;
        }
        if point.1 < min_y {
            min_y = point.1;
        }
        if point.0 > max_x {
            max_x = point.0;
        }
        if point.1 > max_y {
            max_y = point.1;
        }
        i += 1;
    }
    proof {
        assert(xs(points@).take(i as int) =~= xs(points@));
        assert(ys(points@).take(i as int) =~= ys(points@));
    }
    (min_x, min_y, max_x, max_y)
}

fn lit(points: &Vec<(i64, i64, i64, i64)>, x: i64, y: i64) -> (found: bool)
    ensures
        found == is_lit(points@, x as int, y as int),
{
    let mut i: usize = 0;
    while i < points.len()
        invariant
            i <= points@.len(),
            forall|k: int| 0 <= k < i ==> !((#[trigger] points@[k]).0 == x && points@[k].1 == y),
        decreases points@.len() - i,
    {
        if points[i].0 == x && points[i].1 == y {
            return true;
        }
        i += 1;
    }
    false
}

/// The picture of the sky: one line of text for each row from three rows
/// above the highest point to three rows below the lowest, and in each line
/// one character for each place from five places left of the leftmost point
/// to five places right of the rightmost, `#` where a point stands and `.`
/// where none does.
pub fn picture(points: &Vec<(i64, i64, i64, i64)>) -> (lines: Vec<String>)
    requires
        points@.len() > 0,
        i64::MIN <= lowest(xs(points@)) - 5,
        highest(xs(points@)) + 5 <= i64::MAX,
        i64::MIN <= lowest(ys(points@)) - 3,
        highest(ys(points@)) + 3 <= i64::MAX,
    ensures
        lines@.len() == highest(ys(points@)) - lowest(ys(points@)) + 7,
        forall|row: int|
            0 <= row < lines@.len() ==> (#[trigger] lines@[row])@.len() == highest(xs(points@))
                - lowest(xs(points@)) + 11,
        forall|row: int, place: int|
            0 <= row < lines@.len() && 0 <= place < highest(xs(points@)) - lowest(xs(points@)) + 11
                ==> #[trigger] lines@[row]@[place] == if is_lit(
                points@,
                lowest(xs(points@)) - 5 + place,
                lowest(ys(points@)) - 3 + row,
            ) {
                '#'
            } else {
                '.'
            },
{
    let (min_x, min_y, max_x, max_y) = frame(points);
    proof {
        lemma_lowest_is_below_highest(xs(points@));
        lemma_lowest_is_below_highest(ys(points@));
    }
    let mut lines: Vec<String> = Vec::new();
    let mut y: i64 = min_y - 3;
    loop
        invariant_except_break
            lines@.len() == y - (min_y - 3),
            forall|row: int|
                0 <= row < lines@.len() ==> (#[trigger] lines@[row])@.len() == max_x - min_x + 11,
            forall|row: int, place: int|
                0 <= row < lines@.len() && 0 <= place < max_x - min_x + 11
                    ==> #[trigger] lines@[row]@[place] == if is_lit(
                    points@,
                    min_x - 5 + place,
                    min_y - 3 + row,
                ) {
                    '#'
                } else {
                    '.'
                },
        invariant
            min_x <= max_x,
            min_y - 3 <= y <= max_y + 3,
            i64::MIN <= min_x - 5,
            max_x + 5 <= i64::MAX,
            i64::MIN <= min_y - 3,
            max_y + 3 <= i64::MAX,
        ensures
            lines@.len() == max_y - min_y + 7,
            forall|row: int|
                0 <= row < lines@.len() ==> (#[trigger] lines@[row])@.len() == max_x - min_x + 11,
            forall|row: int, place: int|
                0 <= row < lines@.len() && 0 <= place < max_x - min_x + 11
                    ==> #[trigger] lines@[row]@[place] == if is_lit(
                    points@,
                    min_x - 5 + place,
                    min_y - 3 + row,
                ) {
                    '#'
                } else {
                    '.'
                },
        decreases max_y + 3 - y,
    {
        let mut line = String::new();
        let mut x: i64 = min_x - 5;
        loop
            invariant_except_break
                line@.len() == x - (min_x - 5),
                forall|place: int|
                    0 <= place < line@.len() ==> #[trigger] line@[place] == if is_lit(
                        points@,
                        min_x - 5 + place,
                        y as int,
                    ) {
                        '#'
                    } else {
                        '.'
                    },
            invariant
                min_x - 5 <= x <= max_x + 5,
                max_x + 5 <= i64::MAX,
                i64::MIN <= min_x - 5,
            ensures
                line@.len() == max_x - min_x + 11,
                forall|place: int|
                    0 <= place < line@.len() ==> #[trigger] line@[place] == if is_lit(
                        points@,
                        min_x - 5 + place,
                        y as int,
                    ) {
                        '#'
                    } else {
                        '.'
                    },
            decreases max_x + 5 - x,
        {
            if lit(points, x, y) {
                line.push('#');
            } else {
                line.push('.');
            }
            if x == max_x + 5 {
                break ;
            }
            x += 1;
        }
        lines.push(line);
        if y == max_y + 3 {
            break ;
        }
        y += 1;
    }
    lines
}

/// The smallest of the numbers is no larger than the largest.
pub proof fn lemma_lowest_is_below_highest(numbers: Seq<int>)
    requires
        numbers.len() > 0,
    ensures
        lowest(numbers) <= highest(numbers),
    decreases numbers.len(),
{
    if numbers.len() > 1 {
        lemma_lowest_is_below_highest(numbers.drop_last());
    }
}

} // verus!
