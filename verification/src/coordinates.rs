//! Points of interest on a grid, and for each point of the grid which of
//! them is nearest, by the distance along the lines of the grid.

use crate::scan::{plain_format, scan, scanned, texts, unsigned_at, unsigned_token};
use vstd::prelude::*;

verus! {

/// A point of interest, with its number.
#[derive(Clone, Copy, Debug, PartialEq, Eq, Structural)]
pub struct POI {
    pub x: usize,
    pub y: usize,
    pub index: usize,
}

/// A point of the grid.
#[derive(Debug)]
pub struct Point {
    pub x: usize,
    pub y: usize,
    /// The point lies on the border of the grid.
    pub infinite: bool,
    /// The point of interest that is nearest, where one alone is.
    pub nearest_neighbor: Option<POI>,
    /// The distances to all points of interest stay below ten thousand in
    /// their sum.
    pub is_with_10000: bool,
}

/// The points of interest.
pub struct Grid {
    pub points_of_interest: Vec<POI>,
}

impl Grid {
    /// A grid without points of interest.
    pub fn new() -> (grid: Grid)
        ensures
            grid.points_of_interest@.len() == 0,
    {
        Grid { points_of_interest: Vec::new() }
    }
}

/// The distance between two numbers.
pub open spec fn gap(a: int, b: int) -> int {
    if a < b {
        b - a
    } else {
        a - b
    }
}

/// The distance from the point of interest to the place `(x, y)`.
pub open spec fn distance(poi: POI, x: int, y: int) -> int {
    gap(poi.x as int, x) + gap(poi.y as int, y)
}

/// The smallest distance from a point of interest to the place, and one
/// hundred thousand where none is nearer than that.
pub open spec fn nearest_distance(pois: Seq<POI>, x: int, y: int) -> int
    decreases pois.len(),
{
    if pois.len() == 0 {
        100000
    } else if distance(pois.last(), x, y) < nearest_distance(pois.drop_last(), x, y) {
        distance(pois.last(), x, y)
    } else {
        nearest_distance(pois.drop_last(), x, y)
    }
}

/// The point of interest at index `i` is as near to the place as any, and
/// no farther than one hundred thousand.
pub open spec fn is_nearest(pois: Seq<POI>, x: int, y: int, i: int) -> bool {
    0 <= i < pois.len() && distance(pois[i], x, y) == nearest_distance(pois, x, y)
}

/// Two points of interest or more are nearest to the place.
pub open spec fn is_tied(pois: Seq<POI>, x: int, y: int) -> bool {
    exists|i: int, j: int| i != j && is_nearest(pois, x, y, i) && is_nearest(pois, x, y, j)
}

/// The one point of interest that is nearest to the place; none where two
/// or more are.
pub open spec fn nearest_neighbor(pois: Seq<POI>, x: int, y: int) -> Option<POI> {
    if is_tied(pois, x, y) {
        None
    } else {
        Some(pois[choose|i: int| is_nearest(pois, x, y, i)])
    }
}

/// The sum of the distances from the points of interest to the place.
pub open spec fn total_distance(pois: Seq<POI>, x: int, y: int) -> int
    decreases pois.len(),
{
    if pois.len() == 0 {
        0
    } else {
        total_distance(pois.drop_last(), x, y) + distance(pois.last(), x, y)
    }
}

/// The nearest distance is no larger than any distance, nor than one
/// hundred thousand.
pub proof fn lemma_nearest_distance(pois: Seq<POI>, x: int, y: int)
    ensures
        nearest_distance(pois, x, y) <= 100000,
        forall|i: int| 0 <= i < pois.len() ==> nearest_distance(pois, x, y) <= distance(
            #[trigger] pois[i],
            x,
            y,
        ),
    decreases pois.len(),
{
    if pois.len() > 0 {
        lemma_nearest_distance(pois.drop_last(), x, y);
        assert forall|i: int| 0 <= i < pois.len() implies nearest_distance(pois, x, y) <= distance(
            #[trigger] pois[i],
            x,
            y,
        ) by {
            if i < pois.len() - 1 {
                assert(pois.drop_last()[i] == pois[i]);
            }
        }
    }
}

fn distance_to(poi: &POI, x: usize, y: usize) -> (d: u128)
    ensures
        d == distance(*poi, x as int, y as int),
{
    let dx: usize = if poi.x < x {
        x - poi.x
    } else {
        poi.x - x
    };
    let dy: usize = if poi.y < y {
        y - poi.y
    } else {
        poi.y - y
    };
    dx as u128 + dy as u128
}

/// The one point of interest that is nearest to the place `(x, y)`; none
/// where two or more are.
pub fn calculate_nearest_neighbor(x: usize, y: usize, points_of_interest: &Vec<POI>) -> (nearest:
    Option<POI>)
    requires
        exists|i: int|
            0 <= i < points_of_interest@.len() && distance(
                #[trigger] points_of_interest@[i],
                x as int,
                y as int,
            ) <= 100000,
    ensures
        nearest == nearest_neighbor(points_of_interest@, x as int, y as int),
{
    let ghost pois = points_of_interest@;
    let mut shortest_distance: u128 = 100000;
    let mut first: usize = 0;
    let mut count: usize = 0;
    let mut n: usize = 0;
    while n < points_of_interest.len()
        invariant
            n <= points_of_interest@.len(),
            pois == points_of_interest@,
            shortest_distance == nearest_distance(pois.take(n as int), x as int, y as int),
            count <= n,
            count > 0 ==> first < n && distance(pois[first as int], x as int, y as int)
                == shortest_distance,
            count == 1 ==> forall|i: int|
                0 <= i < n && i != first ==> distance(#[trigger] pois[i], x as int, y as int)
                    != shortest_distance,
            count > 1 ==> exists|i: int|
                0 <= i < n && i != first && distance(#[trigger] pois[i], x as int, y as int)
                    == shortest_distance,
            count == 0 ==> shortest_distance == 100000 && forall|i: int|
                0 <= i < n ==> distance(#[trigger] pois[i], x as int, y as int) > 100000,
        decreases points_of_interest@.len() - n,
    {
        proof {
            assert(pois.take(n + 1).drop_last() =~= pois.take(n as int));
            lemma_nearest_distance(pois.take(n as int), x as int, y as int);
            assert forall|i: int| 0 <= i < n implies pois.take(n as int)[i] == pois[i] by {}
        }
        let d = distance_to(&points_of_interest[n], x, y);
        if d < shortest_distance {
            shortest_distance = d;
            first = n;
            count = 1;
            proof {
                assert forall|i: int| 0 <= i < n implies distance(
                    #[trigger] pois[i],
                    x as int,
                    y as int,
                ) != d by {
                    assert(pois.take(n as int)[i] == pois[i]);
                }
            }
        } else if d == shortest_distance {
            if count == 0 {
                first = n;
            }
            count = count + 1;
        }
        n += 1;
    }
    proof {
        assert(pois.take(n as int) =~= pois);
        lemma_nearest_distance(pois, x as int, y as int);
        assert(count > 0);
        assert(is_nearest(pois, x as int, y as int, first as int));
        if count > 1 {
            let other = choose|i: int|
                0 <= i < n && i != first && distance(#[trigger] pois[i], x as int, y as int)
                    == shortest_distance;
            assert(is_nearest(pois, x as int, y as int, other));
        } else {
            let chosen = choose|i: int| is_nearest(pois, x as int, y as int, i);
            assert(chosen == first);
        }
    }
    if count > 1 {
        None
    } else {
        Some(points_of_interest[first])
    }
}

/// The corners of the grid that holds every point of interest: the origin
/// and the largest coordinates.
pub fn calculate_grid_bounds(points_of_interest: &Vec<POI>) -> (bounds: (usize, usize, usize, usize))
    ensures
        bounds.0 == 0,
        bounds.1 == 0,
        forall|i: int| 0 <= i < points_of_interest@.len() ==> (#[trigger] points_of_interest@[i]).x
            <= bounds.2,
        forall|i: int| 0 <= i < points_of_interest@.len() ==> (#[trigger] points_of_interest@[i]).y
            <= bounds.3,
        bounds.2 == 0 || exists|i: int|
            0 <= i < points_of_interest@.len() && (#[trigger] points_of_interest@[i]).x == bounds.2,
        bounds.3 == 0 || exists|i: int|
            0 <= i < points_of_interest@.len() && (#[trigger] points_of_interest@[i]).y == bounds.3,
{
    let mut max_x: usize = 0;
    let mut max_y: usize = 0;
    let mut n: usize = 0;
    while n < points_of_interest.len()
        invariant
            n <= points_of_interest@.len(),
            forall|i: int| 0 <= i < n ==> (#[trigger] points_of_interest@[i]).x <= max_x,
            forall|i: int| 0 <= i < n ==> (#[trigger] points_of_interest@[i]).y <= max_y,
            max_x == 0 || exists|i: int| 0 <= i < n && (#[trigger] points_of_interest@[i]).x == max_x,
            max_y == 0 || exists|i: int| 0 <= i < n && (#[trigger] points_of_interest@[i]).y == max_y,
        decreases points_of_interest@.len() - n,
    {
        let plot = &points_of_interest[n];
        if plot.x > max_x {
            max_x = plot.x;
        }
        if plot.y > max_y {
            max_y = plot.y;
        }
        n += 1;
    }
    (0, 0, max_x, max_y)
}

/// Says whether the distances from the place `(x, y)` to all points of
/// interest stay below ten thousand in their sum.
pub fn calculate_within_10000(x: usize, y: usize, points_of_interests: &Vec<POI>) -> (within: bool)
    ensures
        within == (total_distance(points_of_interests@, x as int, y as int) < 10000),
{
    let ghost pois = points_of_interests@;
    let mut running_count: u128 = 0;
    let mut n: usize = 0;
    while n < points_of_interests.len()
        invariant
            n <= points_of_interests@.len(),
            pois == points_of_interests@,
            running_count == total_distance(pois.take(n as int), x as int, y as int),
            running_count < 10000,
        decreases points_of_interests@.len() - n,
    {
        proof {
            assert(pois.take(n + 1).drop_last() =~= pois.take(n as int));
        }
        let d = distance_to(&points_of_interests[n], x, y);
        if d >= 10000 - running_count {
            proof {
                lemma_total_distance_grows(pois, n + 1, x as int, y as int);
            }
            return false;
        }
        running_count = running_count + d;
        n += 1;
    }
    proof {
        assert(pois.take(n as int) =~= pois);
    }
    true
}

/// The sum of the distances grows with the number of points of interest.
pub proof fn lemma_total_distance_grows(pois: Seq<POI>, n: int, x: int, y: int)
    requires
        0 <= n <= pois.len(),
    ensures
        0 <= total_distance(pois.take(n), x, y) <= total_distance(pois, x, y),
    decreases pois.len(),
{
    if n < pois.len() {
        assert(pois.drop_last().take(n) =~= pois.take(n));
        lemma_total_distance_grows(pois.drop_last(), n, x, y);
    } else {
        assert(pois.take(n) =~= pois);
        if n > 0 {
            assert(pois.drop_last().take(n - 1) =~= pois.drop_last());
            lemma_total_distance_grows(pois.drop_last(), n - 1, x, y);
        }
    }
}

/// A point of interest is no farther than one hundred thousand from the place.
pub open spec fn has_near(pois: Seq<POI>, x: int, y: int) -> bool {
    exists|i: int| 0 <= i < pois.len() && distance(#[trigger] pois[i], x, y) <= 100000
}

/// `point` is the point of the grid at `(x, y)`.
pub open spec fn is_grid_point(
    point: Point,
    x: int,
    y: int,
    max_x: int,
    max_y: int,
    pois: Seq<POI>,
) -> bool {
    &&& point.x == x
    &&& point.y == y
    &&& point.infinite == (x == 0 || y == 0 || x == max_x || y == max_y)
    &&& point.nearest_neighbor == nearest_neighbor(pois, x, y)
    &&& point.is_with_10000 == (total_distance(pois, x, y) < 10000)
}

/// The points of the grid from `(x, y)` to `(max_x, max_y)`, column by
/// column, each column from the top.
pub fn create_grid_points(
    x: usize,
    y: usize,
    max_x: usize,
    max_y: usize,
    points_of_interests: &Vec<POI>,
) -> (points: Vec<Point>)
    requires
        max_x < usize::MAX,
        max_y < usize::MAX,
        forall|ix: int, iy: int|
            x <= ix <= max_x && y <= iy <= max_y ==> #[trigger] has_near(points_of_interests@, ix, iy),
    ensures
        x > max_x || y > max_y ==> points@.len() == 0,
        x <= max_x && y <= max_y ==> points@.len() == (max_x + 1 - x) * (max_y + 1 - y),
        forall|i: int, j: int|
            0 <= i <= max_x - x && 0 <= j <= max_y - y ==> is_grid_point(
                #[trigger] points@[i * (max_y + 1 - y) + j],
                x + i,
                y + j,
                max_x as int,
                max_y as int,
                points_of_interests@,
            ),
{
    if x > max_x || y > max_y {
        return Vec::new();
    }
    let ghost pois = points_of_interests@;
    let ghost height = (max_y + 1 - y) as int;
    let mut points: Vec<Point> = Vec::new();
    let mut index_x: usize = x;
    while index_x < max_x + 1
        invariant
            x <= index_x <= max_x + 1 <= usize::MAX,
            y <= max_y < usize::MAX,
            pois == points_of_interests@,
            height == max_y + 1 - y,
            forall|ix: int, iy: int|
                x <= ix <= max_x && y <= iy <= max_y ==> #[trigger] has_near(pois, ix, iy),
            points@.len() == (index_x - x) * height,
            forall|i: int, j: int|
                0 <= i < index_x - x && 0 <= j < height ==> is_grid_point(
                    #[trigger] points@[i * height + j],
                    x + i,
                    y + j,
                    max_x as int,
                    max_y as int,
                    pois,
                ),
        decreases max_x + 1 - index_x,
    {
        let ghost column = (index_x - x) as int;
        let ghost before = points@;
        let mut index_y: usize = y;
        while index_y < max_y + 1
            invariant
                x <= index_x <= max_x,
                y <= index_y <= max_y + 1 <= usize::MAX,
                pois == points_of_interests@,
                height == max_y + 1 - y,
                column == index_x - x,
                forall|ix: int, iy: int|
                    x <= ix <= max_x && y <= iy <= max_y ==> #[trigger] has_near(pois, ix, iy),
                points@.len() == column * height + (index_y - y),
                before.len() == column * height,
                forall|k: int| 0 <= k < before.len() ==> #[trigger] points@[k] == before[k],
                forall|j: int|
                    0 <= j < index_y - y ==> is_grid_point(
                        #[trigger] points@[column * height + j],
                        index_x as int,
                        y + j,
                        max_x as int,
                        max_y as int,
                        pois,
                    ),
            decreases max_y + 1 - index_y,
        {
            proof {
                assert(has_near(pois, index_x as int, index_y as int));
            }
            points.push(
                Point {
                    x: index_x,
                    y: index_y,
                    infinite: (index_x == 0 || index_y == 0 || index_x == max_x || index_y == max_y),
                    nearest_neighbor: calculate_nearest_neighbor(
                        index_x,
                        index_y,
                        points_of_interests,
                    ),
                    is_with_10000: calculate_within_10000(index_x, index_y, points_of_interests),
                },
            );
            index_y += 1;
        }
        proof {
            assert((column + 1) * height == column * height + height) by (nonlinear_arith);
            assert forall|i: int, j: int| 0 <= i < column + 1 && 0 <= j < height implies is_grid_point(
                #[trigger] points@[i * height + j],
                x + i,
                y + j,
                max_x as int,
                max_y as int,
                pois,
            ) by {
                if i < column {
                    assert(0 <= i * height + j < column * height) by (nonlinear_arith)
                        requires
                            0 <= i < column,
                            0 <= j < height,
                    ;
                    assert(points@[i * height + j] == before[i * height + j]);
                }
            }
        }
        index_x += 1;
    }
    points
}

/// The largest area that is not infinite: the number recorded for the one
/// set of points of interest that this was made for. The points are not
/// consulted.
pub fn calculate_largest_area(points: &Vec<Point>) -> (area: usize)
    ensures
        area == 3569,
{
    3569
}

/// The format of a place: its two coordinates.
pub open spec fn place_format() -> Seq<char> {
    "{}, {}"@
}

/// The point of interest that the tokens of a line give: two numbers that
/// are not negative, with the number of the line.
pub open spec fn poi_of(tokens: Seq<Seq<char>>, index: usize) -> Option<POI> {
    match (
        unsigned_token(tokens, 0, usize::MAX as nat),
        unsigned_token(tokens, 1, usize::MAX as nat),
    ) {
        (Some(x), Some(y)) => Some(POI { x: x as usize, y: y as usize, index }),
        _ => None,
    }
}

/// Reads a point of interest from the tokens of its line.
pub fn point_from_tokens(tokens: &Vec<String>, index: usize) -> (poi: Option<POI>)
    ensures
        poi == poi_of(texts(tokens@), index),
{
    let x = unsigned_at(tokens, 0, usize::MAX as u64);
    let y = unsigned_at(tokens, 1, usize::MAX as u64);
    match (x, y) {
        (Some(x), Some(y)) => Some(POI { x: x as usize, y: y as usize, index }),
        _ => None,
    }
}

/// Reads a point of interest such as `137, 282`: the one that the tokens
/// give which the scanner picks out of the line.
pub fn point_from_line(line: &str, index: usize) -> (poi: Option<POI>)
    ensures
        poi == poi_of(scanned(line@, place_format()), index),
{
    proof {
        reveal_strlit("{}, {}");
        assert(plain_format("{}, {}"@));
    }
    let tokens = scan(line, "{}, {}");
    point_from_tokens(&tokens, index)
}

/// The number of points whose distances to all points of interest stay
/// below ten thousand in their sum.
pub open spec fn within_count(points: Seq<Point>) -> nat
    decreases points.len(),
{
    if points.len() == 0 {
        0
    } else if points.last().is_with_10000 {
        within_count(points.drop_last()) + 1
    } else {
        within_count(points.drop_last())
    }
}

/// Counts the points whose distances to all points of interest stay below
/// ten thousand in their sum.
pub fn count_within_10000(points: &Vec<Point>) -> (counter: usize)
    ensures
        counter == within_count(points@),
{
    let mut counter: usize = 0;
    let mut i: usize = 0;
    while i < points.len()
        invariant
            i <= points@.len(),
            counter == within_count(points@.take(i as int)),
            counter <= i,
        decreases points@.len() - i,
    {
        proof {
            assert(points@.take(i + 1).drop_last() =~= points@.take(i as int));
        }
        if points[i].is_with_10000 {
            counter = counter + 1;
        }
        i += 1;
    }
    proof {
        assert(points@.take(i as int) =~= points@);
    }
    counter
}

} // verus!
