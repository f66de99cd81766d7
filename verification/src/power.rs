//! A grid of fuel cells: the power of a square of cells, and the digits of a
//! power level.

use vstd::prelude::*;

verus! {

/// The sum of the cells of one row from column `from` on, `count` of them.
pub open spec fn row_sum(row: Seq<i32>, from: int, count: nat) -> int
    decreases count,
{
    if count == 0 {
        0
    } else {
        row_sum(row, from, (count - 1) as nat) + row[from + count - 1]
    }
}

/// The sum of the cells in a square part of the grid: `rows` rows from row
/// `x` on, and in each of them `size` cells from column `y` on.
pub open spec fn sub_grid_sum(grid: Seq<Vec<i32>>, x: int, y: int, size: nat, rows: nat) -> int
    decreases rows,
{
    if rows == 0 {
        0
    } else {
        sub_grid_sum(grid, x, y, size, (rows - 1) as nat) + row_sum(grid[x + rows - 1]@, y, size)
    }
}

/// The power of the square of `sub_grid_size` cells a side whose first cell
/// is at `offset`.
pub fn power_of_sub_grid(offset: (usize, usize), sub_grid_size: usize, grid: &Vec<Vec<i32>>) -> (power:
    i32)
    requires
        sub_grid_size <= 0x8000_0000_0000,
        offset.0 + sub_grid_size <= grid@.len(),
        forall|x: int|
            offset.0 <= x < offset.0 + sub_grid_size ==> offset.1 + sub_grid_size <= (
            #[trigger] grid@[x])@.len(),
        i32::MIN <= sub_grid_sum(
            grid@,
            offset.0 as int,
            offset.1 as int,
            sub_grid_size as nat,
            sub_grid_size as nat,
        ) <= i32::MAX,
    ensures
        power == sub_grid_sum(
            grid@,
            offset.0 as int,
            offset.1 as int,
            sub_grid_size as nat,
            sub_grid_size as nat,
        ),
{
    let rows = grid.len();
    let mut power_total: i128 = 0;
    let mut i: usize = 0;
    while i < sub_grid_size
        invariant
            i <= sub_grid_size <= 0x8000_0000_0000,
            offset.0 + sub_grid_size <= grid@.len() == rows,
            forall|x: int|
                offset.0 <= x < offset.0 + sub_grid_size ==> offset.1 + sub_grid_size <= (
                #[trigger] grid@[x])@.len(),
            power_total == sub_grid_sum(
                grid@,
                offset.0 as int,
                offset.1 as int,
                sub_grid_size as nat,
                i as nat,
            ),
            -0x4000_0000_0000_0000_0000 * i <= power_total <= 0x4000_0000_0000_0000_0000 * i,
        decreases sub_grid_size - i,
    {
        let row = &grid[offset.0 + i];
        let cells = row.len();
        let mut row_total: i128 = 0;
        let mut j: usize = 0;
        while j < sub_grid_size
            invariant
                j <= sub_grid_size <= 0x8000_0000_0000,
                offset.1 + sub_grid_size <= row@.len() == cells,
                row_total == row_sum(row@, offset.1 as int, j as nat),
                -0x8000_0000 * j <= row_total <= 0x8000_0000 * j,
            decreases sub_grid_size - j,
        {
            row_total = row_total + row[offset.1 + j] as i128;
            j += 1;
        }
        power_total = power_total + row_total;
        i += 1;
    }
    power_total as i32
}

/// The digits of a number, the first one first.
pub open spec fn digits_of(n: nat) -> Seq<u32>
    decreases n,
{
    if n < 10 {
        seq![n as u32]
    } else {
        digits_of(n / 10).push((n % 10) as u32)
    }
}

/// The decimal digits of a number that is not negative.
pub fn number_to_vec(n: i32) -> (digits: Vec<u32>)
    requires
        n >= 0,
    ensures
        digits@ == digits_of(n as nat),
{
    let mut reversed: Vec<u32> = Vec::new();
    let mut rest: i32 = n;
    while rest >= 10
        invariant
            0 <= rest <= n,
            digits_of(n as nat) == digits_of(rest as nat) + reversed@.reverse(),
        decreases rest,
    {
        let digit: u32 = (rest % 10) as u32;
        proof {
            let tail = reversed@.reverse();
            assert(reversed@.push(digit).reverse() =~= seq![digit] + tail);
            assert(digits_of((rest / 10) as nat).push(digit) + tail =~= digits_of(
                (rest / 10) as nat,
            ) + (seq![digit] + tail));
        }
        reversed.push(digit);
        rest = rest / 10;
    }
    reversed.push(rest as u32);
    let mut digits: Vec<u32> = Vec::new();
    let mut i: usize = reversed.len();
    while i > 0
        invariant
            i <= reversed.len(),
            digits@ == reversed@.reverse().take(reversed.len() - i),
        decreases i,
    {
        i -= 1;
        digits.push(reversed[i]);
        proof {
            assert(digits@ =~= reversed@.reverse().take(reversed.len() - i));
        }
    }
    proof {
        assert(reversed@.reverse().take(reversed.len() as int) =~= reversed@.reverse());
    }
    digits
}

/// The leading digits of a number are the digits of its tenth part.
pub proof fn lemma_digits_of(n: nat)
    ensures
        digits_of(n).len() >= 1,
        digits_of(n).last() == n % 10,
        n >= 10 ==> digits_of(n).drop_last() == digits_of(n / 10),
        n < 10 <==> digits_of(n).len() == 1,
    decreases n,
{
    if n >= 10 {
        lemma_digits_of(n / 10);
        assert(digits_of(n).drop_last() =~= digits_of(n / 10));
    }
}

/// The power of the cell before its hundreds digit is taken: the rack
/// number, which is ten more than `x`, times `y`, plus the serial number,
/// and all of that times the rack number.
pub open spec fn raw_power(x: int, y: int, serial_number: int) -> int {
    ((x + 10) * y + serial_number) * (x + 10)
}

/// The power level of the cell `(x, y)`: the hundreds digit of its raw
/// power, less five.
pub open spec fn level(x: int, y: int, serial_number: int) -> int {
    (raw_power(x, y, serial_number) / 100) % 10 - 5
}

/// The power level of the cell `(x, y)` of a grid with the given serial
/// number.
pub fn power_level(x: usize, y: usize, serial_number: i32) -> (final_power_level: i32)
    requires
        x + 10 <= i32::MAX,
        y <= i32::MAX,
        0 <= serial_number,
        raw_power(x as int, y as int, serial_number as int) <= i32::MAX,
    ensures
        final_power_level == level(x as int, y as int, serial_number as int),
{
    let rack_id: i32 = x as i32 + 10;
    proof {
        let rack = rack_id as int;
        let inner = rack * y + serial_number;
        assert(0 <= rack * y) by (nonlinear_arith)
            requires
                0 <= rack,
                0 <= y,
        ;
        assert(inner <= inner * rack) by (nonlinear_arith)
            requires
                0 <= inner,
                1 <= rack,
        ;
        assert(inner * rack == raw_power(x as int, y as int, serial_number as int));
    }
    let starting_power_level: i32 = rack_id * y as i32;
    let increased_power_level: i32 = starting_power_level + serial_number;
    let power_level: i32 = increased_power_level * rack_id;
    let vec = number_to_vec(power_level);
    let mut hundreds_digit: i32 = 0;
    proof {
        let n = power_level as nat;
        lemma_digits_of(n);
        if n >= 10 {
            lemma_digits_of(n / 10);
            if n >= 100 {
                lemma_digits_of(n / 100);
                assert(n / 10 / 10 == n / 100);
                assert(digits_of(n).drop_last().drop_last() == digits_of(n / 100));
                assert(digits_of(n)[digits_of(n).len() - 3] == digits_of(n).drop_last().drop_last().last());
            }
        }
    }
    if vec.len() > 2 {
        hundreds_digit = vec[vec.len() - 3] as i32;
    }
    hundreds_digit - 5
}

/// The raw power grows with `x` and with `y`.
pub proof fn lemma_raw_power_grows(x: int, y: int, far_x: int, far_y: int, serial_number: int)
    requires
        0 <= x <= far_x,
        0 <= y <= far_y,
        0 <= serial_number,
    ensures
        0 <= raw_power(x, y, serial_number) <= raw_power(far_x, far_y, serial_number),
{
    assert(0 <= (x + 10) * y <= (far_x + 10) * far_y) by (nonlinear_arith)
        requires
            0 <= x <= far_x,
            0 <= y <= far_y,
    ;
    let inner = (x + 10) * y + serial_number;
    let far_inner = (far_x + 10) * far_y + serial_number;
    assert(0 <= inner * (x + 10) <= far_inner * (far_x + 10)) by (nonlinear_arith)
        requires
            0 <= inner <= far_inner,
            0 <= x <= far_x,
    ;
}

/// The grid of three hundred by three hundred cells with the given serial
/// number: each cell holds its power level.
pub fn power_grid(serial_number: i32) -> (grid: Vec<Vec<i32>>)
    requires
        0 <= serial_number,
        raw_power(299, 299, serial_number as int) <= i32::MAX,
    ensures
        grid@.len() == 300,
        forall|x: int| 0 <= x < 300 ==> (#[trigger] grid@[x])@.len() == 300,
        forall|x: int, y: int|
            0 <= x < 300 && 0 <= y < 300 ==> #[trigger] grid@[x]@[y] == level(
                x,
                y,
                serial_number as int,
            ),
        holds_levels(grid@),
{
    let mut grid: Vec<Vec<i32>> = Vec::new();
    let mut x: usize = 0;
    while x < 300
        invariant
            x <= 300,
            0 <= serial_number,
            raw_power(299, 299, serial_number as int) <= i32::MAX,
            grid@.len() == x,
            forall|i: int| 0 <= i < x ==> (#[trigger] grid@[i])@.len() == 300,
            forall|i: int, j: int|
                0 <= i < x && 0 <= j < 300 ==> #[trigger] grid@[i]@[j] == level(
                    i,
                    j,
                    serial_number as int,
                ),
        decreases 300 - x,
    {
        let mut column: Vec<i32> = Vec::new();
        let mut y: usize = 0;
        while y < 300
            invariant
                x < 300,
                y <= 300,
                0 <= serial_number,
                raw_power(299, 299, serial_number as int) <= i32::MAX,
                column@.len() == y,
                forall|j: int| 0 <= j < y ==> #[trigger] column@[j] == level(
                    x as int,
                    j,
                    serial_number as int,
                ),
            decreases 300 - y,
        {
            proof {
                lemma_raw_power_grows(x as int, y as int, 299, 299, serial_number as int);
            }
            column.push(power_level(x, y, serial_number));
            y += 1;
        }
        grid.push(column);
        x += 1;
    }
    grid
}

/// The power of the square of `size` cells a side at `(x, y)`.
pub open spec fn square_power(grid: Seq<Vec<i32>>, x: int, y: int, size: nat) -> int {
    sub_grid_sum(grid, x, y, size, size)
}

/// `best` gives the square of `size` cells a side with the most power, by
/// its power and its place: no square has more power, and none of those
/// that come before it has as much; where no square has more than a hundred
/// thousand below zero, it gives that power and the place `(0, 0)`.
pub open spec fn is_best_square(grid: Seq<Vec<i32>>, size: nat, best: (i32, (usize, usize))) -> bool {
    &&& best.0 >= -100000
    &&& forall|x: int, y: int|
        0 <= x <= grid.len() - size && 0 <= y <= grid[0]@.len() - size ==> #[trigger] square_power(
            grid,
            x,
            y,
            size,
        ) <= best.0
    &&& best.0 == -100000 ==> best.1 == (0usize, 0usize)
    &&& best.0 > -100000 ==> {
        &&& best.1.0 <= grid.len() - size
        &&& best.1.1 <= grid[0]@.len() - size
        &&& square_power(grid, best.1.0 as int, best.1.1 as int, size) == best.0
        &&& forall|x: int, y: int|
            0 <= x <= grid.len() - size && 0 <= y <= grid[0]@.len() - size && comes_before(
                x,
                y,
                best.1.0 as int,
                best.1.1 as int,
            ) ==> #[trigger] square_power(grid, x, y, size) < best.0
    }
}

/// `(x, y)` comes before `(best_x, best_y)` where the squares are gone
/// through row by row.
pub open spec fn comes_before(x: int, y: int, best_x: int, best_y: int) -> bool {
    x < best_x || (x == best_x && y < best_y)
}

/// The square of `size` cells a side with the most power, by its power and
/// its place: of several such squares the first, going through the rows in
/// their order, and the power of a hundred thousand below zero at the place
/// `(0, 0)` where no square has more than that.
pub fn best_square(grid: &Vec<Vec<i32>>, size: usize) -> (best: (i32, (usize, usize)))
    requires
        1 <= size <= 0x8000_0000_0000,
        size <= grid@.len(),
        forall|i: int| 0 <= i < grid@.len() ==> (#[trigger] grid@[i])@.len() == grid@[0]@.len(),
        size <= grid@[0]@.len(),
        forall|x: int, y: int|
            0 <= x <= grid@.len() - size && 0 <= y <= grid@[0]@.len() - size ==> i32::MIN
                <= #[trigger] square_power(grid@, x, y, size as nat) <= i32::MAX,
    ensures
        is_best_square(grid@, size as nat, best),
{
    let rows = grid.len() - (size - 1);
    let cells = grid[0].len() - (size - 1);
    let mut highest_power: i32 = -100000;
    let mut highest_coordinate: (usize, usize) = (0, 0);
    let mut x: usize = 0;
    while x < rows
        invariant
            x <= rows,
            1 <= size <= 0x8000_0000_0000,
            rows == grid@.len() - size + 1,
            cells == grid@[0]@.len() - size + 1,
            forall|i: int| 0 <= i < grid@.len() ==> (#[trigger] grid@[i])@.len() == grid@[0]@.len(),
            forall|i: int, j: int|
                0 <= i < rows && 0 <= j < cells ==> i32::MIN <= #[trigger] square_power(
                    grid@,
                    i,
                    j,
                    size as nat,
                ) <= i32::MAX,
            highest_power >= -100000,
            forall|i: int, j: int|
                0 <= i < x && 0 <= j < cells ==> #[trigger] square_power(grid@, i, j, size as nat)
                    <= highest_power,
            highest_power == -100000 ==> highest_coordinate == (0usize, 0usize),
            highest_power > -100000 ==> {
                &&& highest_coordinate.0 < x
                &&& highest_coordinate.1 < cells
                &&& square_power(
                    grid@,
                    highest_coordinate.0 as int,
                    highest_coordinate.1 as int,
                    size as nat,
                ) == highest_power
                &&& forall|i: int, j: int|
                    0 <= i < rows && 0 <= j < cells && comes_before(
                        i,
                        j,
                        highest_coordinate.0 as int,
                        highest_coordinate.1 as int,
                    ) ==> #[trigger] square_power(grid@, i, j, size as nat) < highest_power
            },
        decreases rows - x,
    {
        let mut y: usize = 0;
        while y < cells
            invariant
                x < rows,
                y <= cells,
                1 <= size <= 0x8000_0000_0000,
                rows == grid@.len() - size + 1,
                cells == grid@[0]@.len() - size + 1,
                forall|i: int|
                    0 <= i < grid@.len() ==> (#[trigger] grid@[i])@.len() == grid@[0]@.len(),
                forall|i: int, j: int|
                    0 <= i < rows && 0 <= j < cells ==> i32::MIN <= #[trigger] square_power(
                        grid@,
                        i,
                        j,
                        size as nat,
                    ) <= i32::MAX,
                highest_power >= -100000,
                forall|i: int, j: int|
                    0 <= i < rows && 0 <= j < cells && comes_before(i, j, x as int, y as int)
                        ==> #[trigger] square_power(grid@, i, j, size as nat) <= highest_power,
                highest_power == -100000 ==> highest_coordinate == (0usize, 0usize),
                highest_power > -100000 ==> {
                    &&& comes_before(
                        highest_coordinate.0 as int,
                        highest_coordinate.1 as int,
                        x as int,
                        y as int,
                    )
                    &&& highest_coordinate.1 < cells
                    &&& square_power(
                        grid@,
                        highest_coordinate.0 as int,
                        highest_coordinate.1 as int,
                        size as nat,
                    ) == highest_power
                    &&& forall|i: int, j: int|
                        0 <= i < rows && 0 <= j < cells && comes_before(
                            i,
                            j,
                            highest_coordinate.0 as int,
                            highest_coordinate.1 as int,
                        ) ==> #[trigger] square_power(grid@, i, j, size as nat) < highest_power
                },
            decreases cells - y,
        {
            proof {
                assert(i32::MIN <= square_power(grid@, x as int, y as int, size as nat) <= i32::MAX);
            }
            let power_total = power_of_sub_grid((x, y), size, grid);
            if power_total > highest_power {
                highest_power = power_total;
                highest_coordinate = (x, y);
            }
            y += 1;
        }
        x += 1;
    }
    (highest_power, highest_coordinate)
}

/// Every cell of the grid holds a power level: a number from five below
/// zero to four.
pub open spec fn holds_levels(grid: Seq<Vec<i32>>) -> bool {
    forall|x: int, y: int|
        0 <= x < grid.len() && 0 <= y < grid[x]@.len() ==> -5 <= #[trigger] grid[x]@[y] <= 4
}

/// The sum of cells that hold power levels is within five below and four
/// above zero for each cell.
pub proof fn lemma_row_sum_of_levels(grid: Seq<Vec<i32>>, x: int, y: int, count: nat)
    requires
        holds_levels(grid),
        0 <= x < grid.len(),
        0 <= y,
        y + count <= grid[x]@.len(),
    ensures
        -5 * count <= row_sum(grid[x]@, y, count) <= 4 * count,
    decreases count,
{
    if count > 0 {
        lemma_row_sum_of_levels(grid, x, y, (count - 1) as nat);
        assert(-5 <= grid[x]@[y + count - 1] <= 4);
    }
}

/// The power of a part of a grid of power levels is within five below and
/// four above zero for each cell.
pub proof fn lemma_sum_of_levels(grid: Seq<Vec<i32>>, x: int, y: int, size: nat, rows: nat)
    requires
        holds_levels(grid),
        0 <= x,
        x + rows <= grid.len(),
        0 <= y,
        forall|i: int| x <= i < x + rows ==> y + size <= (#[trigger] grid[i])@.len(),
    ensures
        -5 * size * rows <= sub_grid_sum(grid, x, y, size, rows) <= 4 * size * rows,
    decreases rows,
{
    if rows > 0 {
        lemma_sum_of_levels(grid, x, y, size, (rows - 1) as nat);
        lemma_row_sum_of_levels(grid, x + rows - 1, y, size);
        assert(4 * size * (rows - 1) + 4 * size == 4 * size * rows) by (nonlinear_arith);
        assert(-5 * size * (rows - 1) + -5 * size == -5 * size * rows) by (nonlinear_arith);
    } else {
        assert(4 * size * rows == 0 && -5 * size * rows == 0) by (nonlinear_arith)
            requires
                rows == 0,
        ;
    }
}

/// For each size from one cell a side to `largest`, the square of that
/// size with the most power, in a grid of power levels with rows of one
/// length.
pub fn best_squares(grid: &Vec<Vec<i32>>, largest: usize) -> (best: Vec<(i32, (usize, usize))>)
    requires
        holds_levels(grid@),
        largest <= 0x4000,
        largest <= grid@.len(),
        forall|i: int| 0 <= i < grid@.len() ==> (#[trigger] grid@[i])@.len() == grid@[0]@.len(),
        largest > 0 ==> largest <= grid@[0]@.len(),
    ensures
        best@.len() == largest,
        forall|k: int| 0 <= k < largest ==> is_best_square(grid@, (k + 1) as nat, #[trigger] best@[k]),
{
    let mut best: Vec<(i32, (usize, usize))> = Vec::new();
    let mut k: usize = 0;
    while k < largest
        invariant
            k <= largest <= 0x4000,
            holds_levels(grid@),
            largest <= grid@.len(),
            forall|i: int|
                0 <= i < grid@.len() ==> (#[trigger] grid@[i])@.len() == grid@[0]@.len(),
            largest > 0 ==> largest <= grid@[0]@.len(),
            best@.len() == k,
            forall|j: int| 0 <= j < k ==> is_best_square(grid@, (j + 1) as nat, #[trigger] best@[j]),
        decreases largest - k,
    {
        let size = k + 1;
        proof {
            assert forall|x: int, y: int|
                0 <= x <= grid@.len() - size && 0 <= y <= grid@[0]@.len() - size implies i32::MIN
                <= #[trigger] square_power(grid@, x, y, size as nat) <= i32::MAX by {
                lemma_sum_of_levels(grid@, x, y, size as nat, size as nat);
                assert(4 * size * size <= 4 * 0x4000 * 0x4000) by (nonlinear_arith)
                    requires
                        0 <= size <= 0x4000,
                ;
                assert(-5 * size * size >= -5 * 0x4000 * 0x4000) by (nonlinear_arith)
                    requires
                        0 <= size <= 0x4000,
                ;
            }
        }
        best.push(best_square(grid, size));
        k += 1;
    }
    best
}

} // verus!
