//! The frame renderer: from a step and the reveal orders to the state of
//! every cell.

use vstd::prelude::*;

verus! {

/// The two states of a cell.
#[derive(Clone, Copy, Debug, PartialEq, Eq, Structural)]
pub enum Pixel {
    /// Background: not reached yet, or the highlight running ahead of a
    /// trail.
    Lit,
    /// Passed over.
    Dark,
}

/// Why a frame could not be rendered.
#[derive(Clone, Copy, Debug, PartialEq, Eq, Structural)]
pub enum RenderError {
    /// The reveal orders are not `width` columns of `height` rows each.
    DimensionMismatch,
}

/// A vector of columns as a sequence of sequences.
pub open spec fn columns<T>(grid: Seq<Vec<T>>) -> Seq<Seq<T>> {
    Seq::new(grid.len(), |x: int| grid[x]@)
}

/// `grid` has `width` columns of `height` cells each.
pub open spec fn has_shape<T>(grid: Seq<Seq<T>>, width: int, height: int) -> bool {
    &&& grid.len() == width
    &&& forall|x: int| 0 <= x < width ==> (#[trigger] grid[x]).len() == height
}

/// `a / b` rounded up, for a positive `b`.
pub open spec fn ceil_div(a: int, b: int) -> int {
    if a % b == 0 {
        a / b
    } else {
        a / b + 1
    }
}

/// The leftmost column that a frame at `step` evaluates: `step` covers
/// `ceil_div(step, height)` columns, counted from the right edge.
pub open spec fn start_column(step: int, width: int, height: int) -> int {
    if height <= 0 || ceil_div(step, height) >= width {
        0
    } else {
        width - ceil_div(step, height)
    }
}

/// How far `step` is past the moment at which cell `(x, y)` is reached: a
/// column starts `height` steps after its right neighbour, and within it a
/// cell waits for as many steps as its reveal order says.
pub open spec fn offset(
    step: int,
    width: int,
    height: int,
    orders: Seq<Seq<i32>>,
    x: int,
    y: int,
) -> int {
    step - (width - x - 1) * height - orders[x][y]
}

/// Cell `(x, y)` lies in an evaluated column and `step` is past its moment.
pub open spec fn passed(
    step: int,
    width: int,
    height: int,
    orders: Seq<Seq<i32>>,
    x: int,
    y: int,
) -> bool {
    &&& start_column(step, width, height) <= x < width
    &&& 0 <= y < height
    &&& offset(step, width, height, orders, x, y) > 0
}

/// Cell `(x, y)` carries the highlight of a passed cell to its left in the
/// same row: that cell's offset, counted in columns, ends exactly here.
pub open spec fn highlighted(
    step: int,
    width: int,
    height: int,
    orders: Seq<Seq<i32>>,
    x: int,
    y: int,
) -> bool {
    exists|from: int|
        from < x && #[trigger] passed(step, width, height, orders, from, y) && from + offset(
            step,
            width,
            height,
            orders,
            from,
            y,
        ) == x
}

/// The state of cell `(x, y)` at `step`: dark once passed, unless a
/// highlight lands on it.
pub open spec fn pixel_at(
    step: int,
    width: int,
    height: int,
    orders: Seq<Seq<i32>>,
    x: int,
    y: int,
) -> Pixel {
    if passed(step, width, height, orders, x, y) && !highlighted(
        step,
        width,
        height,
        orders,
        x,
        y,
    ) {
        Pixel::Dark
    } else {
        Pixel::Lit
    }
}

/// The whole frame at `step`, column by column.
pub open spec fn frame(step: int, width: int, height: int, orders: Seq<Seq<i32>>) -> Seq<
    Seq<Pixel>,
> {
    Seq::new(
        width as nat,
        |x: int| Seq::new(height as nat, |y: int| pixel_at(step, width, height, orders, x, y)),
    )
}

/// What [`render`] returns: the frame, or the error for orders of another
/// shape.
pub open spec fn rendered(step: int, width: int, height: int, orders: Seq<Seq<i32>>) -> Result<
    Seq<Seq<Pixel>>,
    RenderError,
> {
    if has_shape(orders, width, height) {
        Ok(frame(step, width, height, orders))
    } else {
        Err(RenderError::DimensionMismatch)
    }
}

/// A result of [`render`] with its grid as a sequence of sequences.
pub open spec fn outcome(result: Result<Vec<Vec<Pixel>>, RenderError>) -> Result<
    Seq<Seq<Pixel>>,
    RenderError,
> {
    match result {
        Ok(grid) => Ok(columns(grid@)),
        Err(error) => Err(error),
    }
}

/// A grid of `width` columns of `height` cells, all in the state `pixel`.
pub open spec fn uniform(width: int, height: int, pixel: Pixel) -> Seq<Seq<Pixel>> {
    Seq::new(width as nat, |x: int| Seq::new(height as nat, |y: int| pixel))
}

/// Every reveal order of the grid is one of `0..height`.
pub open spec fn delays_in_range(orders: Seq<Seq<i32>>, width: int, height: int) -> bool {
    forall|x: int, y: int|
        0 <= x < width && 0 <= y < height ==> 0 <= (#[trigger] orders[x][y]) < height
}

/// The last step of the animation: one step for each cell, and a column's
/// head start for each column but one.
pub open spec fn max_step(width: int, height: int) -> int {
    width * height + width - 1
}

/// How many of the first `rows` cells of column `x` are passed at `step`.
pub open spec fn passed_in_column(
    step: int,
    width: int,
    height: int,
    orders: Seq<Seq<i32>>,
    x: int,
    rows: int,
) -> nat
    decreases rows,
{
    if rows <= 0 {
        0
    } else {
        passed_in_column(step, width, height, orders, x, rows - 1) + if passed(
            step,
            width,
            height,
            orders,
            x,
            rows - 1,
        ) {
            1nat
        } else {
            0nat
        }
    }
}

/// How many cells of the first `cols` columns are passed at `step`.
pub open spec fn passed_count(
    step: int,
    width: int,
    height: int,
    orders: Seq<Seq<i32>>,
    cols: int,
) -> nat
    decreases cols,
{
    if cols <= 0 {
        0
    } else {
        passed_count(step, width, height, orders, cols - 1) + passed_in_column(
            step,
            width,
            height,
            orders,
            cols - 1,
            height,
        )
    }
}

/// The scan has evaluated cell `(x, y)` when it stands at `(at_x, at_y)`:
/// columns are taken from the right, the rows of a column from the top.
spec fn evaluated(at_x: int, at_y: int, x: int, y: int) -> bool {
    x > at_x || (x == at_x && y < at_y)
}

/// The state of cell `(x, y)` while the scan stands at `(at_x, at_y)`.
spec fn pixel_so_far(
    step: int,
    width: int,
    height: int,
    orders: Seq<Seq<i32>>,
    at_x: int,
    at_y: int,
    x: int,
    y: int,
) -> Pixel {
    if passed(step, width, height, orders, x, y) && evaluated(at_x, at_y, x, y) && !(exists|
        from: int,
    |
        from < x && #[trigger] passed(step, width, height, orders, from, y) && evaluated(
            at_x,
            at_y,
            from,
            y,
        ) && from + offset(step, width, height, orders, from, y) == x) {
        Pixel::Dark
    } else {
        Pixel::Lit
    }
}

/// `grid` is what the scan has painted when it stands at `(at_x, at_y)`.
spec fn painted(
    grid: Seq<Seq<Pixel>>,
    step: int,
    width: int,
    height: int,
    orders: Seq<Seq<i32>>,
    at_x: int,
    at_y: int,
) -> bool {
    &&& has_shape(grid, width, height)
    &&& forall|x: int, y: int|
        0 <= x < width && 0 <= y < height ==> #[trigger] grid[x][y] == pixel_so_far(
            step,
            width,
            height,
            orders,
            at_x,
            at_y,
            x,
            y,
        )
}

/// In an evaluated column the steps that the columns to its right take up
/// are fewer than `step`.
proof fn lemma_evaluated_column_started(step: int, width: int, height: int, x: int)
    requires
        0 <= step,
        0 < height,
        start_column(step, width, height) <= x < width,
    ensures
        0 <= (width - 1 - x) * height < step,
{
    let reach = ceil_div(step, height);
    let gap = width - 1 - x;
    assert(gap <= reach - 1);
    assert(step == height * (step / height) + step % height && 0 <= step % height < height) by {
        vstd::arithmetic::div_mod::lemma_fundamental_div_mod(step, height);
        vstd::arithmetic::div_mod::lemma_mod_bound(step, height);
    }
    assert((reach - 1) * height < step) by (nonlinear_arith)
        requires
            step == height * (step / height) + step % height,
            0 <= step % height < height,
            0 < height,
            reach == if step % height == 0 {
                step / height
            } else {
                step / height + 1
            },
    ;
    assert(0 <= gap * height <= (reach - 1) * height) by (nonlinear_arith)
        requires
            0 <= gap <= reach - 1,
            0 < height,
    ;
}

/// Whether `orders` holds `width` columns of `height` rows each.
pub fn has_dimensions(orders: &Vec<Vec<i32>>, width: usize, height: usize) -> (fits: bool)
    ensures
        fits == has_shape(columns(orders@), width as int, height as int),
{
    if orders.len() != width {
        return false;
    }
    let mut x: usize = 0;
    while x < width
        invariant
            x <= width,
            orders@.len() == width,
            forall|c: int| 0 <= c < x ==> (#[trigger] columns(orders@)[c]).len() == height,
        decreases width - x,
    {
        if orders[x].len() != height {
            assert(columns(orders@)[x as int].len() != height);
            return false;
        }
        x = x + 1;
    }
    true
}

/// A grid of `width` columns of `height` cells, all of them lit.
fn blank_grid(width: usize, height: usize) -> (grid: Vec<Vec<Pixel>>)
    ensures
        has_shape(columns(grid@), width as int, height as int),
        forall|x: int, y: int|
            0 <= x < width && 0 <= y < height ==> #[trigger] columns(grid@)[x][y] == Pixel::Lit,
{
    let mut grid: Vec<Vec<Pixel>> = Vec::new();
    let mut x: usize = 0;
    while x < width
        invariant
            x <= width,
            grid@.len() == x,
            forall|c: int| 0 <= c < x ==> (#[trigger] grid@[c])@.len() == height,
            forall|c: int, r: int|
                0 <= c < x && 0 <= r < height ==> #[trigger] grid@[c]@[r] == Pixel::Lit,
        decreases width - x,
    {
        let mut column: Vec<Pixel> = Vec::new();
        let mut y: usize = 0;
        while y < height
            invariant
                y <= height,
                column@.len() == y,
                forall|r: int| 0 <= r < y ==> #[trigger] column@[r] == Pixel::Lit,
            decreases height - y,
        {
            column.push(Pixel::Lit);
            y = y + 1;
        }
        grid.push(column);
        x = x + 1;
    }
    grid
}

/// The leftmost column that a frame at `step` has to evaluate.
fn first_column(step: usize, width: usize, height: usize) -> (column: usize)
    ensures
        column == start_column(step as int, width as int, height as int),
        column <= width,
{
    if height == 0 {
        return 0;
    }
    let whole: usize = step / height;
    let reach: usize = if step % height != 0 {
        assert(whole < step) by (nonlinear_arith)
            requires
                whole == step as int / height as int,
                (step as int) % (height as int) != 0,
                0 < height,
                0 <= step,
        ;
        whole + 1
    } else {
        whole
    };
    if reach >= width {
        0
    } else {
        width - reach
    }
}

/// Renders the frame at `step`: every cell starts lit; then, from the right
/// column to the left and from the top row down, each cell that `step` has
/// passed turns dark and lights the cell as many columns to its right as
/// its offset says, if the grid reaches that far.
pub fn render(step: usize, width: usize, height: usize, orders: &Vec<Vec<i32>>) -> (result: Result<
    Vec<Vec<Pixel>>,
    RenderError,
>)
    ensures
        outcome(result) == rendered(step as int, width as int, height as int, columns(orders@)),
        result matches Ok(grid) ==> grid@.len() == width && forall|x: int|
            0 <= x < width ==> (#[trigger] grid@[x])@.len() == height,
{
    if !has_dimensions(orders, width, height) {
        return Err(RenderError::DimensionMismatch);
    }
    let ghost delays = columns(orders@);
    let mut grid = blank_grid(width, height);
    let first: usize = first_column(step, width, height);
    let mut x: usize = width;
    while x > first
        invariant
            first <= x <= width,
            first == start_column(step as int, width as int, height as int),
            delays == columns(orders@),
            has_shape(delays, width as int, height as int),
            painted(columns(grid@), step as int, width as int, height as int, delays, x - 1, 0),
        decreases x,
    {
        x = x - 1;
        let mut y: usize = 0;
        while y < height
            invariant
                first <= x < width,
                y <= height,
                first == start_column(step as int, width as int, height as int),
                delays == columns(orders@),
                has_shape(delays, width as int, height as int),
                painted(
                    columns(grid@),
                    step as int,
                    width as int,
                    height as int,
                    delays,
                    x as int,
                    y as int,
                ),
            decreases height - y,
        {
            proof {
                lemma_evaluated_column_started(step as int, width as int, height as int, x as int);
            }
            let ahead: usize = width - 1 - x;
            let taken: usize = ahead * height;
            assert(delays[x as int].len() == height);
            let delay: i32 = orders[x][y];
            assert(delay == delays[x as int][y as int]);
            let past: i128 = (step - taken) as i128 - delay as i128;
            assert(past == offset(
                step as int,
                width as int,
                height as int,
                delays,
                x as int,
                y as int,
            ));
            let ghost before = columns(grid@);
            if past > 0 {
                assert(before[x as int].len() == height);
                grid[x][y] = Pixel::Dark;
                let ghost darkened = columns(grid@);
                assert(darkened[x as int] == before[x as int].update(y as int, Pixel::Dark));
                assert(forall|c: int|
                    0 <= c < width && c != x ==> #[trigger] darkened[c] == before[c]);
                if x as i128 + past < width as i128 {
                    let target: usize = (x as i128 + past) as usize;
                    assert(darkened[target as int].len() == height);
                    grid[target][y] = Pixel::Lit;
                    assert(columns(grid@)[target as int] == darkened[target as int].update(
                        y as int,
                        Pixel::Lit,
                    ));
                    assert(forall|c: int|
                        0 <= c < width && c != target ==> #[trigger] columns(grid@)[c]
                            == darkened[c]);
                }
            }
            proof {
                lemma_scan_step(
                    before,
                    columns(grid@),
                    step as int,
                    width as int,
                    height as int,
                    delays,
                    x as int,
                    y as int,
                );
            }
            y = y + 1;
        }
        proof {
            lemma_column_done(
                columns(grid@),
                step as int,
                width as int,
                height as int,
                delays,
                x as int,
            );
        }
    }
    proof {
        lemma_scan_done(columns(grid@), step as int, width as int, height as int, delays);
        assert forall|c: int| 0 <= c < width implies (#[trigger] grid@[c])@.len() == height by {
            assert(columns(grid@)[c].len() == height);
        }
    }
    Ok(grid)
}

/// What one step of the scan writes: cell `(x, y)` turns dark if passed,
/// and then the cell that its offset points at is lit.
spec fn scan_writes(
    before: Seq<Seq<Pixel>>,
    after: Seq<Seq<Pixel>>,
    step: int,
    width: int,
    height: int,
    orders: Seq<Seq<i32>>,
    x: int,
    y: int,
) -> bool {
    let past = offset(step, width, height, orders, x, y);
    &&& has_shape(after, width, height)
    &&& forall|c: int, r: int|
        0 <= c < width && 0 <= r < height ==> #[trigger] after[c][r] == if past > 0 && r == y && c
            == x + past {
            Pixel::Lit
        } else if past > 0 && r == y && c == x {
            Pixel::Dark
        } else {
            before[c][r]
        }
}

/// One step of the scan takes the painting from `(x, y)` to `(x, y + 1)`.
proof fn lemma_scan_step(
    before: Seq<Seq<Pixel>>,
    after: Seq<Seq<Pixel>>,
    step: int,
    width: int,
    height: int,
    orders: Seq<Seq<i32>>,
    x: int,
    y: int,
)
    requires
        start_column(step, width, height) <= x < width,
        0 <= y < height,
        painted(before, step, width, height, orders, x, y),
        scan_writes(before, after, step, width, height, orders, x, y),
    ensures
        painted(after, step, width, height, orders, x, y + 1),
{
    let past = offset(step, width, height, orders, x, y);
    assert forall|c: int, r: int| 0 <= c < width && 0 <= r < height implies #[trigger] after[c][r]
        == pixel_so_far(step, width, height, orders, x, y + 1, c, r) by {
        assert(before[c][r] == pixel_so_far(step, width, height, orders, x, y, c, r));
        if past > 0 && r == y && c == x + past {
            assert(passed(step, width, height, orders, x, y));
            assert(evaluated(x, y + 1, x, y));
        } else if r != y || c != x {
            assert forall|from: int|
                from < c && #[trigger] passed(step, width, height, orders, from, r) implies (
                evaluated(x, y + 1, from, r) && from + offset(step, width, height, orders, from, r)
                    == c) == (evaluated(x, y, from, r) && from + offset(
                step,
                width,
                height,
                orders,
                from,
                r,
            ) == c) by {}
        }
    }
}

/// A column scanned to its last row is the next column not yet begun.
proof fn lemma_column_done(
    grid: Seq<Seq<Pixel>>,
    step: int,
    width: int,
    height: int,
    orders: Seq<Seq<i32>>,
    x: int,
)
    requires
        painted(grid, step, width, height, orders, x, height),
    ensures
        painted(grid, step, width, height, orders, x - 1, 0),
{
    assert forall|c: int, r: int| 0 <= c < width && 0 <= r < height implies #[trigger] grid[c][r]
        == pixel_so_far(step, width, height, orders, x - 1, 0, c, r) by {
        assert(grid[c][r] == pixel_so_far(step, width, height, orders, x, height, c, r));
        assert forall|from: int| #[trigger]
            passed(step, width, height, orders, from, r) implies evaluated(x, height, from, r)
            == evaluated(x - 1, 0, from, r) by {}
    }
}

/// Once the scan has reached the first column, the painting is the frame.
proof fn lemma_scan_done(
    grid: Seq<Seq<Pixel>>,
    step: int,
    width: int,
    height: int,
    orders: Seq<Seq<i32>>,
)
    requires
        0 <= width,
        0 <= height,
        painted(
            grid,
            step,
            width,
            height,
            orders,
            start_column(step, width, height) - 1,
            0,
        ),
    ensures
        grid == frame(step, width, height, orders),
{
    let first = start_column(step, width, height);
    assert forall|c: int, r: int| 0 <= c < width && 0 <= r < height implies #[trigger] grid[c][r]
        == pixel_at(step, width, height, orders, c, r) by {
        assert(grid[c][r] == pixel_so_far(step, width, height, orders, first - 1, 0, c, r));
        assert forall|from: int| #[trigger]
            passed(step, width, height, orders, from, r) implies evaluated(first - 1, 0, from, r) by {}
    }
    assert forall|c: int| 0 <= c < width implies #[trigger] grid[c] == frame(
        step,
        width,
        height,
        orders,
    )[c] by {
        assert(grid[c] =~= frame(step, width, height, orders)[c]);
    }
    assert(grid =~= frame(step, width, height, orders));
}

/// Rounding up never loses a step: `ceil_div(a, b)` columns of `b` steps
/// hold at least `a`, and one column fewer holds less.
proof fn lemma_ceil_div_bounds(a: int, b: int)
    requires
        0 <= a,
        0 < b,
    ensures
        (ceil_div(a, b) - 1) * b < a <= ceil_div(a, b) * b,
        0 <= ceil_div(a, b),
{
    vstd::arithmetic::div_mod::lemma_fundamental_div_mod(a, b);
    vstd::arithmetic::div_mod::lemma_mod_bound(a, b);
    let whole = a / b;
    assert((whole - 1) * b == whole * b - b && (whole + 1) * b == whole * b + b && b * whole
        == whole * b) by (nonlinear_arith);
    assert(0 <= whole) by (nonlinear_arith)
        requires
            a == b * whole + a % b,
            0 <= a,
            0 < b,
            a % b < b,
    ;
}

/// A later step reaches at least as many columns.
proof fn lemma_ceil_div_grows(a: int, later: int, b: int)
    requires
        0 <= a <= later,
        0 < b,
    ensures
        ceil_div(a, b) <= ceil_div(later, b),
{
    lemma_ceil_div_bounds(a, b);
    lemma_ceil_div_bounds(later, b);
    let low = ceil_div(a, b);
    let high = ceil_div(later, b);
    assert(low <= high) by (nonlinear_arith)
        requires
            (low - 1) * b < a,
            a <= later,
            later <= high * b,
            0 < b,
    ;
}

/// At step 0 every cell is lit, whatever the reveal orders are.
pub proof fn lemma_first_frame_is_lit(width: int, height: int, orders: Seq<Seq<i32>>)
    requires
        0 <= width,
        0 <= height,
    ensures
        frame(0, width, height, orders) == uniform(width, height, Pixel::Lit),
        has_shape(orders, width, height) ==> rendered(0, width, height, orders) == Ok::<
            Seq<Seq<Pixel>>,
            RenderError,
        >(uniform(width, height, Pixel::Lit)),
{
    assert forall|x: int, y: int| 0 <= x < width && 0 <= y < height implies pixel_at(
        0,
        width,
        height,
        orders,
        x,
        y,
    ) == Pixel::Lit by {
        assert(0int % height == 0 && 0int / height == 0) by (nonlinear_arith)
            requires
                0 < height,
        ;
    }
    assert forall|x: int| 0 <= x < width implies #[trigger] frame(0, width, height, orders)[x]
        == uniform(width, height, Pixel::Lit)[x] by {
        assert(frame(0, width, height, orders)[x] =~= uniform(width, height, Pixel::Lit)[x]);
    }
    assert(frame(0, width, height, orders) =~= uniform(width, height, Pixel::Lit));
}

/// From the last step on every cell is dark, for reveal orders within
/// `0..height`.
pub proof fn lemma_last_frame_is_dark(step: int, width: int, height: int, orders: Seq<Seq<i32>>)
    requires
        0 <= width,
        0 <= height,
        delays_in_range(orders, width, height),
        step >= max_step(width, height),
    ensures
        frame(step, width, height, orders) == uniform(width, height, Pixel::Dark),
        has_shape(orders, width, height) ==> rendered(step, width, height, orders) == Ok::<
            Seq<Seq<Pixel>>,
            RenderError,
        >(uniform(width, height, Pixel::Dark)),
{
    assert forall|x: int, y: int| 0 <= x < width && 0 <= y < height implies pixel_at(
        step,
        width,
        height,
        orders,
        x,
        y,
    ) == Pixel::Dark by {
        assert(0 <= width * height && step >= 0) by (nonlinear_arith)
            requires
                0 < width,
                0 < height,
                step >= width * height + width - 1,
        ;
        lemma_ceil_div_bounds(step, height);
        let reach = ceil_div(step, height);
        assert(reach >= width) by (nonlinear_arith)
            requires
                step <= reach * height,
                step >= width * height + width - 1,
                0 < width,
                0 < height,
        ;
        assert(start_column(step, width, height) == 0);
        assert forall|c: int| 0 <= c < width implies c + #[trigger] offset(
            step,
            width,
            height,
            orders,
            c,
            y,
        ) >= width && offset(step, width, height, orders, c, y) > 0 by {
            assert(0 <= orders[c][y] < height);
            assert(width * height - (width - c - 1) * height == (c + 1) * height && (c + 1)
                * height >= height) by (nonlinear_arith)
                requires
                    0 <= c,
                    0 < height,
            ;
        }
        assert(passed(step, width, height, orders, x, y));
        assert(!highlighted(step, width, height, orders, x, y));
    }
    assert forall|x: int| 0 <= x < width implies #[trigger] frame(step, width, height, orders)[x]
        == uniform(width, height, Pixel::Dark)[x] by {
        assert(frame(step, width, height, orders)[x] =~= uniform(width, height, Pixel::Dark)[x]);
    }
    assert(frame(step, width, height, orders) =~= uniform(width, height, Pixel::Dark));
}

/// A cell that has been passed stays passed at every later step.
pub proof fn lemma_passed_stays_passed(
    step: int,
    later: int,
    width: int,
    height: int,
    orders: Seq<Seq<i32>>,
    x: int,
    y: int,
)
    requires
        0 <= step <= later,
        passed(step, width, height, orders, x, y),
    ensures
        passed(later, width, height, orders, x, y),
{
    lemma_ceil_div_grows(step, later, height);
}

/// A dark cell is dark at every later step too, but for the moments at
/// which a highlight stands on it.
pub proof fn lemma_dark_unless_highlighted(
    step: int,
    later: int,
    width: int,
    height: int,
    orders: Seq<Seq<i32>>,
    x: int,
    y: int,
)
    requires
        0 <= step <= later,
        pixel_at(step, width, height, orders, x, y) == Pixel::Dark,
    ensures
        pixel_at(later, width, height, orders, x, y) == Pixel::Dark || highlighted(
            later,
            width,
            height,
            orders,
            x,
            y,
        ),
{
    lemma_passed_stays_passed(step, later, width, height, orders, x, y);
}

/// The number of passed cells never shrinks as the step grows. A passed
/// cell is dark unless a highlight stands on it.
pub proof fn lemma_passed_count_grows(
    step: int,
    later: int,
    width: int,
    height: int,
    orders: Seq<Seq<i32>>,
)
    requires
        0 <= step <= later,
    ensures
        passed_count(step, width, height, orders, width) <= passed_count(
            later,
            width,
            height,
            orders,
            width,
        ),
{
    lemma_passed_count_grows_upto(step, later, width, height, orders, width);
}

/// [`lemma_passed_count_grows`] for the first `cols` columns.
proof fn lemma_passed_count_grows_upto(
    step: int,
    later: int,
    width: int,
    height: int,
    orders: Seq<Seq<i32>>,
    cols: int,
)
    requires
        0 <= step <= later,
    ensures
        passed_count(step, width, height, orders, cols) <= passed_count(
            later,
            width,
            height,
            orders,
            cols,
        ),
    decreases cols,
{
    if cols > 0 {
        lemma_passed_count_grows_upto(step, later, width, height, orders, cols - 1);
        lemma_passed_in_column_grows(step, later, width, height, orders, cols - 1, height);
    }
}

/// [`lemma_passed_count_grows`] for the first `rows` cells of one column.
proof fn lemma_passed_in_column_grows(
    step: int,
    later: int,
    width: int,
    height: int,
    orders: Seq<Seq<i32>>,
    x: int,
    rows: int,
)
    requires
        0 <= step <= later,
    ensures
        passed_in_column(step, width, height, orders, x, rows) <= passed_in_column(
            later,
            width,
            height,
            orders,
            x,
            rows,
        ),
    decreases rows,
{
    if rows > 0 {
        lemma_passed_in_column_grows(step, later, width, height, orders, x, rows - 1);
        if passed(step, width, height, orders, x, rows - 1) {
            lemma_passed_stays_passed(step, later, width, height, orders, x, rows - 1);
        }
    }
}

/// Rendering is a function of its inputs: two results for the same step,
/// dimensions and orders hold the same grid, or the same error.
pub proof fn lemma_render_twice_same(
    first: Result<Vec<Vec<Pixel>>, RenderError>,
    second: Result<Vec<Vec<Pixel>>, RenderError>,
    step: int,
    width: int,
    height: int,
    orders: Seq<Seq<i32>>,
)
    requires
        outcome(first) == rendered(step, width, height, orders),
        outcome(second) == rendered(step, width, height, orders),
    ensures
        outcome(first) == outcome(second),
        first is Ok ==> second is Ok && forall|x: int, y: int|
            0 <= x < width && 0 <= y < height ==> first->Ok_0@[x]@[y] == second->Ok_0@[x]@[y],
{
    if first is Ok {
        let a = first->Ok_0;
        let b = second->Ok_0;
        assert(columns(a@) == columns(b@));
        assert forall|x: int, y: int| 0 <= x < width && 0 <= y < height implies a@[x]@[y]
            == b@[x]@[y] by {
            assert(columns(a@)[x] == a@[x]@);
            assert(columns(b@)[x] == b@[x]@);
        }
    }
}

/// With reveal orders that are not negative, the columns left of the start
/// column hold no passed cell: skipping them changes no frame.
pub proof fn lemma_skipped_columns_not_passed(
    step: int,
    width: int,
    height: int,
    orders: Seq<Seq<i32>>,
    x: int,
    y: int,
)
    requires
        0 <= step,
        0 <= x < width,
        0 <= y < height,
        0 <= orders[x][y],
    ensures
        passed(step, width, height, orders, x, y) <==> offset(step, width, height, orders, x, y)
            > 0,
{
    if x < start_column(step, width, height) {
        lemma_ceil_div_bounds(step, height);
        let reach = ceil_div(step, height);
        let gap = width - x - 1;
        assert(gap * height >= step) by (nonlinear_arith)
            requires
                gap >= reach,
                step <= reach * height,
                0 < height,
        ;
    }
}

} // verus!
