//! Mathematical sums over sequences and over row-major grids.

use vstd::prelude::*;

verus! {

/// Sum of `s[lo..hi]` (zero when the range is empty).
pub open spec fn range_sum(s: Seq<int>, lo: int, hi: int) -> int
    decreases hi - lo,
{
    if hi <= lo {
        0
    } else {
        range_sum(s, lo, hi - 1) + s[hi - 1]
    }
}

/// The integers that a sequence of `i32` holds.
pub open spec fn as_ints(s: Seq<i32>) -> Seq<int> {
    s.map_values(|x: i32| x as int)
}

pub open spec fn fits_i32(v: int) -> bool {
    i32::MIN <= v <= i32::MAX
}

/// Every sum of a contiguous range of `s` is representable as an `i32`.
pub open spec fn range_sums_fit(s: Seq<int>) -> bool {
    forall|lo: int, hi: int| 0 <= lo <= hi <= s.len() ==> fits_i32(#[trigger] range_sum(s, lo, hi))
}

/// `s[start..=end]` is the maximum-sum non-empty contiguous range of `s`; among
/// all ranges of maximum sum it is the one that ends first, and among those
/// ending at `end`, the one that starts first.
pub open spec fn is_best_range(s: Seq<int>, sum: int, start: int, end: int) -> bool {
    &&& 0 <= start <= end < s.len()
    &&& range_sum(s, start, end + 1) == sum
    &&& forall|lo: int, hi: int| 0 <= lo < hi <= s.len() ==> #[trigger] range_sum(s, lo, hi) <= sum
    &&& forall|lo: int, hi: int| 0 <= lo < hi <= end ==> #[trigger] range_sum(s, lo, hi) < sum
    &&& forall|lo: int| 0 <= lo < start ==> #[trigger] range_sum(s, lo, end + 1) < sum
}

/// The best range of `s` as `(sum, start, end)`; see `is_best_range`.
pub open spec fn best_range(s: Seq<int>) -> (int, int, int) {
    choose|t: (int, int, int)| is_best_range(s, t.0, t.1, t.2)
}

/// At most one range is the best range of a sequence.
pub proof fn lemma_best_range_unique(
    s: Seq<int>,
    sum1: int,
    start1: int,
    end1: int,
    sum2: int,
    start2: int,
    end2: int,
)
    requires
        is_best_range(s, sum1, start1, end1),
        is_best_range(s, sum2, start2, end2),
    ensures
        sum1 == sum2,
        start1 == start2,
        end1 == end2,
{
    assert(range_sum(s, start2, end2 + 1) <= sum1);
    assert(range_sum(s, start1, end1 + 1) <= sum2);
    if end1 < end2 {
        assert(range_sum(s, start1, end1 + 1) < sum2);
    }
    if end2 < end1 {
        assert(range_sum(s, start2, end2 + 1) < sum1);
    }
    if start1 < start2 {
        assert(range_sum(s, start1, end2 + 1) < sum2);
    }
    if start2 < start1 {
        assert(range_sum(s, start2, end1 + 1) < sum1);
    }
}

/// A range that is best is the one `best_range` names.
pub proof fn lemma_best_range_is(s: Seq<int>, sum: int, start: int, end: int)
    requires
        is_best_range(s, sum, start, end),
    ensures
        best_range(s) == (sum, start, end),
{
    let w = (sum, start, end);
    assert(is_best_range(s, w.0, w.1, w.2));
    let t = best_range(s);
    assert(is_best_range(s, t.0, t.1, t.2));
    lemma_best_range_unique(s, sum, start, end, t.0, t.1, t.2);
}

/// Value of the cell at `(row, col)` of a row-major grid with `cols` columns.
pub open spec fn cell(w: Seq<i8>, cols: int, row: int, col: int) -> int {
    w[row * cols + col] as int
}

/// Sum of column `col` of the grid over the rows `top..bottom`.
pub open spec fn col_sum(w: Seq<i8>, cols: int, top: int, bottom: int, col: int) -> int
    decreases bottom - top,
{
    if bottom <= top {
        0
    } else {
        col_sum(w, cols, top, bottom - 1, col) + cell(w, cols, bottom - 1, col)
    }
}

/// Sum of the cells of the grid in rows `top..bottom` and columns `left..right`.
pub open spec fn rect_sum(w: Seq<i8>, cols: int, top: int, bottom: int, left: int, right: int) -> int
    decreases right - left,
{
    if right <= left {
        0
    } else {
        rect_sum(w, cols, top, bottom, left, right - 1) + col_sum(w, cols, top, bottom, right - 1)
    }
}

/// The column sums of the rows `top..bottom`: one entry per column.
pub open spec fn band(w: Seq<i8>, cols: int, top: int, bottom: int) -> Seq<int> {
    Seq::new(cols as nat, |j: int| col_sum(w, cols, top, bottom, j))
}

/// Every sum of a sub-rectangle of the `rows` x `cols` grid is representable as an `i32`.
pub open spec fn rect_sums_fit(w: Seq<i8>, rows: int, cols: int) -> bool {
    forall|top: int, bottom: int, left: int, right: int|
        0 <= top <= bottom <= rows && 0 <= left <= right <= cols ==> fits_i32(
            #[trigger] rect_sum(w, cols, top, bottom, left, right),
        )
}

/// A range of a band sums to the rectangle it spans.
pub proof fn lemma_band_range_sum(w: Seq<i8>, cols: int, top: int, bottom: int, lo: int, hi: int)
    requires
        0 <= lo <= hi <= cols,
    ensures
        range_sum(band(w, cols, top, bottom), lo, hi) == rect_sum(w, cols, top, bottom, lo, hi),
    decreases hi - lo,
{
    if lo < hi {
        lemma_band_range_sum(w, cols, top, bottom, lo, hi - 1);
    }
}

/// In a grid with `cols` columns, the cell `(row, col)` lies before the end of row `rows - 1`.
pub proof fn lemma_cell_index(rows: int, cols: int, row: int, col: int)
    requires
        0 <= row < rows,
        0 <= col < cols,
    ensures
        0 <= row * cols,
        row * cols + col < rows * cols,
        row * cols + cols <= rows * cols,
{
    assert(0 <= row * cols) by (nonlinear_arith)
        requires
            0 <= row,
            0 <= col < cols,
    ;
    assert(row * cols + cols <= rows * cols) by (nonlinear_arith)
        requires
            row + 1 <= rows,
            0 <= cols,
    ;
}

proof fn lemma_col_sum_bound(w: Seq<i8>, rows: int, cols: int, top: int, bottom: int, col: int, bound: int)
    requires
        0 <= top <= bottom <= rows,
        0 <= col < cols,
        0 <= bound,
        w.len() >= rows * cols,
        forall|i: int| 0 <= i < rows * cols ==> -bound <= #[trigger] w[i] <= bound,
    ensures
        -((bottom - top) * bound) <= col_sum(w, cols, top, bottom, col) <= (bottom - top) * bound,
    decreases bottom - top,
{
    if top < bottom {
        lemma_col_sum_bound(w, rows, cols, top, bottom - 1, col, bound);
        lemma_cell_index(rows, cols, bottom - 1, col);
        let i = (bottom - 1) * cols + col;
        assert(-bound <= w[i] <= bound);
        assert((bottom - 1 - top) * bound + bound == (bottom - top) * bound) by (nonlinear_arith);
    }
}

proof fn lemma_rect_sum_bound(
    w: Seq<i8>,
    rows: int,
    cols: int,
    top: int,
    bottom: int,
    left: int,
    right: int,
    bound: int,
)
    requires
        0 <= top <= bottom <= rows,
        0 <= left <= right <= cols,
        0 <= bound,
        w.len() >= rows * cols,
        forall|i: int| 0 <= i < rows * cols ==> -bound <= #[trigger] w[i] <= bound,
    ensures
        -((right - left) * ((bottom - top) * bound)) <= rect_sum(w, cols, top, bottom, left, right)
            <= (right - left) * ((bottom - top) * bound),
    decreases right - left,
{
    if left < right {
        lemma_rect_sum_bound(w, rows, cols, top, bottom, left, right - 1, bound);
        lemma_col_sum_bound(w, rows, cols, top, bottom, right - 1, bound);
        let m = (bottom - top) * bound;
        assert((right - 1 - left) * m + m == (right - left) * m) by (nonlinear_arith);
    }
}

/// When every cell of the grid lies within `[-bound, bound]` and
/// `rows * cols * bound` fits in an `i32`, so does every rectangle sum.
pub proof fn lemma_rect_sums_fit_when_bounded(w: Seq<i8>, rows: int, cols: int, bound: int)
    requires
        0 <= rows,
        0 <= cols,
        0 <= bound,
        w.len() >= rows * cols,
        forall|i: int| 0 <= i < rows * cols ==> -bound <= #[trigger] w[i] <= bound,
        rows * cols * bound <= i32::MAX,
    ensures
        rect_sums_fit(w, rows, cols),
{
    assert forall|top: int, bottom: int, left: int, right: int|
        0 <= top <= bottom <= rows && 0 <= left <= right <= cols implies fits_i32(
        #[trigger] rect_sum(w, cols, top, bottom, left, right),
    ) by {
        lemma_rect_sum_bound(w, rows, cols, top, bottom, left, right, bound);
        assert((right - left) * ((bottom - top) * bound) <= rows * cols * bound) by (nonlinear_arith)
            requires
                0 <= right - left <= cols,
                0 <= bottom - top <= rows,
                0 <= bound,
        ;
    }
}


proof fn lemma_col_sum_nonpositive(w: Seq<i8>, rows: int, cols: int, top: int, bottom: int, col: int)
    requires
        0 <= top <= bottom <= rows,
        0 <= col < cols,
        forall|r: int, c: int| 0 <= r < rows && 0 <= c < cols ==> #[trigger] cell(w, cols, r, c) <= 0,
    ensures
        col_sum(w, cols, top, bottom, col) <= 0,
        col_sum(w, cols, top, bottom, col) == 0 ==> forall|r: int|
            top <= r < bottom ==> #[trigger] cell(w, cols, r, col) == 0,
    decreases bottom - top,
{
    if top < bottom {
        lemma_col_sum_nonpositive(w, rows, cols, top, bottom - 1, col);
        assert(cell(w, cols, bottom - 1, col) <= 0);
    }
}

/// In a grid whose cells are all at most 0, a rectangle sums to at most 0,
/// and to 0 only when each of its cells is 0.
pub proof fn lemma_rect_sum_nonpositive(
    w: Seq<i8>,
    rows: int,
    cols: int,
    top: int,
    bottom: int,
    left: int,
    right: int,
)
    requires
        0 <= top <= bottom <= rows,
        0 <= left <= right <= cols,
        forall|r: int, c: int| 0 <= r < rows && 0 <= c < cols ==> #[trigger] cell(w, cols, r, c) <= 0,
    ensures
        rect_sum(w, cols, top, bottom, left, right) <= 0,
        rect_sum(w, cols, top, bottom, left, right) == 0 ==> forall|r: int, c: int|
            top <= r < bottom && left <= c < right ==> #[trigger] cell(w, cols, r, c) == 0,
    decreases right - left,
{
    if left < right {
        lemma_rect_sum_nonpositive(w, rows, cols, top, bottom, left, right - 1);
        lemma_col_sum_nonpositive(w, rows, cols, top, bottom, right - 1);
    }
}

} // verus!
