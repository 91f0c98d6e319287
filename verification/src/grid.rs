//! Sums over a grid of point values, and what holds of them where no value
//! is negative.

use vstd::prelude::*;

verus! {

/// Sum of the values of one row.
pub open spec fn row_total(row: Seq<int>) -> int
    decreases row.len(),
{
    if row.len() == 0 {
        0
    } else {
        row_total(row.drop_last()) + row.last()
    }
}

/// Sum of all values of a grid.
pub open spec fn grid_total(grid: Seq<Seq<int>>) -> int
    decreases grid.len(),
{
    if grid.len() == 0 {
        0
    } else {
        grid_total(grid.drop_last()) + row_total(grid.last())
    }
}

/// A rectangular grid of `h` rows and `w` columns without a negative value.
pub open spec fn grid_ok(grid: Seq<Seq<int>>, h: int, w: int) -> bool {
    &&& grid.len() == h
    &&& forall|y: int| 0 <= y < h ==> (#[trigger] grid[y]).len() == w
    &&& forall|y: int, x: int| 0 <= y < h && 0 <= x < w ==> 0 <= #[trigger] grid[y][x]
}

/// A row without a negative value has a sum that is not negative.
pub proof fn lemma_row_total_nonneg(row: Seq<int>)
    requires
        forall|i: int| 0 <= i < row.len() ==> 0 <= #[trigger] row[i],
    ensures
        0 <= row_total(row),
    decreases row.len(),
{
    if row.len() > 0 {
        lemma_row_total_nonneg(row.drop_last());
    }
}

/// A grid without a negative value has a sum that is not negative.
pub proof fn lemma_grid_total_nonneg(grid: Seq<Seq<int>>, h: int, w: int)
    requires
        grid_ok(grid, h, w),
    ensures
        0 <= grid_total(grid),
    decreases grid.len(),
{
    if grid.len() > 0 {
        lemma_grid_total_nonneg(grid.drop_last(), h - 1, w);
        lemma_row_total_nonneg(grid.last());
    }
}

/// A row without a negative value sums to at least each of its values.
pub proof fn lemma_value_within_row(row: Seq<int>, x: int)
    requires
        forall|i: int| 0 <= i < row.len() ==> 0 <= #[trigger] row[i],
        0 <= x < row.len(),
    ensures
        0 <= row[x] <= row_total(row),
    decreases row.len(),
{
    let rest = row.drop_last();
    lemma_row_total_nonneg(rest);
    if x < rest.len() {
        lemma_value_within_row(rest, x);
    }
}

/// A grid without a negative value sums to at least each of its values.
pub proof fn lemma_cell_within_total(grid: Seq<Seq<int>>, h: int, w: int, y: int, x: int)
    requires
        grid_ok(grid, h, w),
        0 <= y < h,
        0 <= x < w,
    ensures
        0 <= grid[y][x] <= grid_total(grid),
    decreases grid.len(),
{
    let rest = grid.drop_last();
    lemma_grid_total_nonneg(rest, h - 1, w);
    if y < h - 1 {
        lemma_cell_within_total(rest, h - 1, w, y, x);
        lemma_row_total_nonneg(grid.last());
    } else {
        lemma_value_within_row(grid[y], x);
    }
}

/// Replacing one value of a row changes the row's sum by the difference.
pub proof fn lemma_row_total_update(row: Seq<int>, x: int, value: int)
    requires
        0 <= x < row.len(),
    ensures
        row_total(row.update(x, value)) == row_total(row) - row[x] + value,
    decreases row.len(),
{
    let changed = row.update(x, value);
    if x == row.len() - 1 {
        assert(changed.drop_last() =~= row.drop_last());
    } else {
        lemma_row_total_update(row.drop_last(), x, value);
        assert(changed.drop_last() =~= row.drop_last().update(x, value));
    }
}

/// Replacing one row of a grid changes the grid's sum by the difference of
/// the rows' sums.
pub proof fn lemma_grid_total_update(grid: Seq<Seq<int>>, y: int, row: Seq<int>)
    requires
        0 <= y < grid.len(),
    ensures
        grid_total(grid.update(y, row)) == grid_total(grid) - row_total(grid[y]) + row_total(row),
    decreases grid.len(),
{
    let changed = grid.update(y, row);
    if y == grid.len() - 1 {
        assert(changed.drop_last() =~= grid.drop_last());
    } else {
        lemma_grid_total_update(grid.drop_last(), y, row);
        assert(changed.drop_last() =~= grid.drop_last().update(y, row));
    }
}

/// The sum of a row's first `n` values is the sum of its first `n - 1`
/// values and the last of them.
pub proof fn lemma_row_total_take(row: Seq<int>, n: int)
    requires
        0 < n <= row.len(),
    ensures
        row_total(row.take(n)) == row_total(row.take(n - 1)) + row[n - 1],
{
    assert(row.take(n).drop_last() =~= row.take(n - 1));
}

/// The sum of a grid's first `n` rows is the sum of its first `n - 1` rows
/// and the sum of the last of them.
pub proof fn lemma_grid_total_take(grid: Seq<Seq<int>>, n: int)
    requires
        0 < n <= grid.len(),
    ensures
        grid_total(grid.take(n)) == grid_total(grid.take(n - 1)) + row_total(grid[n - 1]),
{
    assert(grid.take(n).drop_last() =~= grid.take(n - 1));
}

/// In a row without a negative value, no prefix sums to more than the row.
pub proof fn lemma_row_prefix_within(row: Seq<int>, n: int)
    requires
        forall|i: int| 0 <= i < row.len() ==> 0 <= #[trigger] row[i],
        0 <= n <= row.len(),
    ensures
        0 <= row_total(row.take(n)) <= row_total(row),
    decreases row.len() - n,
{
    if n == row.len() {
        assert(row.take(n) =~= row);
        lemma_row_total_nonneg(row);
    } else {
        lemma_row_prefix_within(row, n + 1);
        lemma_row_total_take(row, n + 1);
        lemma_row_total_nonneg(row.take(n));
    }
}

/// In a grid without a negative value, no prefix of rows sums to more than
/// the grid.
pub proof fn lemma_grid_prefix_within(grid: Seq<Seq<int>>, h: int, w: int, n: int)
    requires
        grid_ok(grid, h, w),
        0 <= n <= h,
    ensures
        0 <= grid_total(grid.take(n)) <= grid_total(grid),
    decreases h - n,
{
    if n == h {
        assert(grid.take(n) =~= grid);
        lemma_grid_total_nonneg(grid, h, w);
    } else {
        lemma_grid_prefix_within(grid, h, w, n + 1);
        lemma_grid_total_take(grid, n + 1);
        lemma_row_total_nonneg(grid[n]);
        lemma_grid_total_nonneg(grid.take(n), n, w);
    }
}

/// A row whose values are at most `cap` sums to at most `cap` for each of
/// them.
pub proof fn lemma_row_total_at_most(row: Seq<int>, cap: int)
    requires
        forall|i: int| 0 <= i < row.len() ==> #[trigger] row[i] <= cap,
    ensures
        row_total(row) <= cap * row.len(),
    decreases row.len(),
{
    if row.len() > 0 {
        lemma_row_total_at_most(row.drop_last(), cap);
        assert(cap * (row.len() - 1) + cap == cap * row.len()) by (nonlinear_arith);
    }
}

/// A grid of `h` rows of `w` values, each at most `cap`, sums to at most
/// `cap` for each of them.
pub proof fn lemma_grid_total_at_most(grid: Seq<Seq<int>>, h: int, w: int, cap: int)
    requires
        grid.len() == h,
        forall|y: int| 0 <= y < h ==> (#[trigger] grid[y]).len() == w,
        forall|y: int, x: int| 0 <= y < h && 0 <= x < w ==> #[trigger] grid[y][x] <= cap,
    ensures
        grid_total(grid) <= cap * (h * w),
    decreases grid.len(),
{
    if grid.len() > 0 {
        let rest = grid.drop_last();
        assert forall|y: int, x: int| 0 <= y < h - 1 && 0 <= x < w implies #[trigger] rest[y][x]
            <= cap by {
            assert(grid[y][x] <= cap);
        }
        lemma_grid_total_at_most(rest, h - 1, w, cap);
        assert forall|x: int| 0 <= x < grid.last().len() implies #[trigger] grid.last()[x] <= cap by {
            assert(grid[h - 1][x] <= cap);
        }
        lemma_row_total_at_most(grid.last(), cap);
        assert(cap * ((h - 1) * w) + cap * w == cap * (h * w)) by (nonlinear_arith);
    } else {
        assert(cap * (h * w) == 0) by (nonlinear_arith)
            requires
                h == 0,
        ;
    }
}

} // verus!
