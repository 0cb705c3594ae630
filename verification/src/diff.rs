//! Finding the rectangle that best covers the difference between two frames.

use vstd::prelude::*;
use rayon::iter::{IntoParallelIterator, ParallelIterator};
use crate::rect::Rect;
use crate::sums::{
    as_ints, band, best_range, cell, col_sum, fits_i32, is_best_range, lemma_band_range_sum,
    lemma_best_range_is, lemma_cell_index, lemma_rect_sums_fit_when_bounded, range_sum, range_sums_fit,
    rect_sum, rect_sums_fit,
};

verus! {

/// How much a pixel that changed counts for (and against) a rectangle.
pub const SCALE: i8 = 2;

/// What a pixel that did not change counts for a rectangle.
pub const ZERO_WEIGHT: i8 = -1;

/// The least width and height of a rectangle that may be chosen.
pub const MIN_SIZE: u32 = 0;

/// How a pixel compares between the reference frame and the current frame:
/// the first letter is the reference pixel, the second the current one
/// (`B` black, `W` white).
#[derive(Clone, Copy, Debug, PartialEq, Eq, Structural, PartialOrd)]
pub enum Weight {
    BB,
    WW,
    BW,
    WB,
}

/// The weight of a pixel for a white rectangle: a pixel that turned white
/// counts for it, one that turned black against it, and a pixel that is
/// black in both frames costs a little.
pub open spec fn positive_weight(w: Weight) -> i8 {
    match w {
        Weight::BB => ZERO_WEIGHT,
        Weight::WW => 0,
        Weight::BW => SCALE,
        Weight::WB => (-SCALE) as i8,
    }
}

/// The weight of a pixel for a black rectangle (the mirror of `positive_weight`).
pub open spec fn negative_weight(w: Weight) -> i8 {
    match w {
        Weight::BB => 0,
        Weight::WW => ZERO_WEIGHT,
        Weight::BW => (-SCALE) as i8,
        Weight::WB => SCALE,
    }
}

pub open spec fn positive_weights(w: Seq<Weight>) -> Seq<i8> {
    w.map_values(|x: Weight| positive_weight(x))
}

pub open spec fn negative_weights(w: Seq<Weight>) -> Seq<i8> {
    w.map_values(|x: Weight| negative_weight(x))
}

/// Maximum-sum contiguous range of `arr` (Kadane's algorithm), as
/// `(sum, start, end)` with `arr[start..=end]` the range.
pub fn kadane_1d(arr: &[i32]) -> (res: (i32, usize, usize))
    requires
        arr.len() > 0,
        range_sums_fit(as_ints(arr@)),
    ensures
        is_best_range(as_ints(arr@), res.0 as int, res.1 as int, res.2 as int),
{
    let ghost s = as_ints(arr@);
    let n = arr.len();
    assert(range_sum(s, 0, 0) == 0);
    assert(range_sum(s, 0, 1) == s[0]);
    let mut max_sum = arr[0];
    let mut current_sum = arr[0];
    let mut start: usize = 0;
    let mut end: usize = 0;
    let mut temp_start: usize = 0;
    let mut i: usize = 1;
    while i < n
        invariant
            n == arr.len(),
            s == as_ints(arr@),
            range_sums_fit(s),
            1 <= i <= n,
            temp_start < i,
            current_sum as int == range_sum(s, temp_start as int, i as int),
            forall|lo: int| 0 <= lo < i ==> #[trigger] range_sum(s, lo, i as int) <= current_sum,
            forall|lo: int| 0 <= lo < temp_start ==> #[trigger] range_sum(s, lo, i as int) < current_sum,
            start <= end < i,
            range_sum(s, start as int, end + 1) == max_sum,
            forall|lo: int, hi: int| 0 <= lo < hi <= i ==> #[trigger] range_sum(s, lo, hi) <= max_sum,
            forall|lo: int, hi: int| 0 <= lo < hi <= end ==> #[trigger] range_sum(s, lo, hi) < max_sum,
            forall|lo: int| 0 <= lo < start ==> #[trigger] range_sum(s, lo, end + 1) < max_sum,
        decreases n - i,
    {
        let val = arr[i];
        let ghost old_cur = current_sum as int;
        let ghost old_ts = temp_start as int;
        assert(s[i as int] == val as int);
        if current_sum < 0 {
            current_sum = val;
            temp_start = i;
            assert(range_sum(s, i as int, i as int) == 0);
            assert(range_sum(s, i as int, i + 1) == val);
            assert forall|lo: int| 0 <= lo < i + 1 implies #[trigger] range_sum(s, lo, i + 1) <= current_sum
                && (lo < temp_start ==> range_sum(s, lo, i + 1) < current_sum) by {
                if lo < i {
                    assert(range_sum(s, lo, i as int) <= old_cur);
                }
            }
        } else {
            assert(range_sum(s, temp_start as int, i + 1) == current_sum + val);
            assert(fits_i32(range_sum(s, temp_start as int, i + 1)));
            current_sum = current_sum + val;
            assert forall|lo: int| 0 <= lo < i + 1 implies #[trigger] range_sum(s, lo, i + 1) <= current_sum
                && (lo < temp_start ==> range_sum(s, lo, i + 1) < current_sum) by {
                if lo < i {
                    assert(range_sum(s, lo, i as int) <= old_cur);
                    if lo < old_ts {
                        assert(range_sum(s, lo, i as int) < old_cur);
                    }
                }
            }
        }
        if current_sum > max_sum {
            max_sum = current_sum;
            start = temp_start;
            end = i;
        }
        assert forall|lo: int, hi: int| 0 <= lo < hi <= i + 1 implies #[trigger] range_sum(s, lo, hi) <= max_sum by {
            if hi == i + 1 {
                assert(range_sum(s, lo, i + 1) <= current_sum);
            }
        }
        i = i + 1;
    }
    (max_sum, start, end)
}

/// The best column range of the band of rows `top..=bottom`, as a rectangle.
pub open spec fn band_rect(w: Seq<i8>, cols: int, top: int, bottom: int, sign: bool) -> Rect {
    let r = best_range(band(w, cols, top, bottom + 1));
    Rect {
        x: r.1 as u32,
        y: top as u32,
        width: (r.2 - r.1 + 1) as u32,
        height: (bottom - top + 1) as u32,
        sign,
    }
}

/// The sum of the best column range of the band of rows `top..=bottom`.
pub open spec fn band_score(w: Seq<i8>, cols: int, top: int, bottom: int) -> int {
    best_range(band(w, cols, top, bottom + 1)).0
}

/// The band `top..=bottom` has a best column range.
pub open spec fn band_solved(w: Seq<i8>, cols: int, top: int, bottom: int) -> bool {
    let s = band(w, cols, top, bottom + 1);
    is_best_range(s, best_range(s).0, best_range(s).1, best_range(s).2)
}

/// Among the bands that start at row `top`, the one ending at `bottom` scores
/// highest, and no band ending earlier scores as high.
pub open spec fn is_band_choice(w: Seq<i8>, rows: int, cols: int, top: int, bottom: int) -> bool {
    &&& top <= bottom < rows
    &&& forall|b: int| top <= b < rows ==> #[trigger] band_score(w, cols, top, b) <= band_score(w, cols, top, bottom)
    &&& forall|b: int| top <= b < bottom ==> #[trigger] band_score(w, cols, top, b) < band_score(w, cols, top, bottom)
}

/// The bottom row of the best band that starts at row `top`.
pub open spec fn band_choice(w: Seq<i8>, rows: int, cols: int, top: int) -> int {
    choose|b: int| is_band_choice(w, rows, cols, top, b)
}

/// The best rectangle whose top row is `top`, with its score.
pub open spec fn top_candidate(w: Seq<i8>, rows: int, cols: int, top: int, sign: bool) -> (Rect, int) {
    let b = band_choice(w, rows, cols, top);
    (band_rect(w, cols, top, b, sign), band_score(w, cols, top, b))
}

/// What holds once the candidate of `top` has been computed as `res`.
pub open spec fn top_postcondition(
    w: Seq<i8>,
    rows: int,
    cols: int,
    top: int,
    sign: bool,
    res: (Rect, i32),
) -> bool {
    &&& res.0 == top_candidate(w, rows, cols, top, sign).0
    &&& res.1 as int == top_candidate(w, rows, cols, top, sign).1
    &&& is_band_choice(w, rows, cols, top, band_choice(w, rows, cols, top))
    &&& forall|b: int| top <= b < rows ==> #[trigger] band_solved(w, cols, top, b)
}

proof fn lemma_band_choice_is(w: Seq<i8>, rows: int, cols: int, top: int, bottom: int)
    requires
        is_band_choice(w, rows, cols, top, bottom),
    ensures
        band_choice(w, rows, cols, top) == bottom,
        is_band_choice(w, rows, cols, top, band_choice(w, rows, cols, top)),
{
    let c = band_choice(w, rows, cols, top);
    assert(is_band_choice(w, rows, cols, top, c));
    if c < bottom {
        assert(band_score(w, cols, top, c) < band_score(w, cols, top, bottom));
        assert(band_score(w, cols, top, bottom) <= band_score(w, cols, top, c));
    }
    if bottom < c {
        assert(band_score(w, cols, top, bottom) < band_score(w, cols, top, c));
        assert(band_score(w, cols, top, c) <= band_score(w, cols, top, bottom));
    }
}

/// The best rectangle whose top row is `top`: for each bottom row, the
/// maximum-sum column range of the band, keeping the first band that scores
/// highest. A band's score is the sum of its best range; the rectangle's
/// aspect ratio does not enter it.
fn best_in_band(weights: &[i8], rows: usize, cols: usize, top: usize, sign: bool) -> (res: (Rect, i32))
    requires
        top < rows,
        cols > 0,
        weights.len() >= rows * cols,
        rect_sums_fit(weights@, rows as int, cols as int),
    ensures
        top_postcondition(weights@, rows as int, cols as int, top as int, sign, res),
{
    let ghost w = weights@;
    let ghost r = rows as int;
    let ghost c = cols as int;
    let mut col_sums: Vec<i32> = Vec::new();
    let mut j: usize = 0;
    while j < cols
        invariant
            j <= cols,
            col_sums@.len() == j,
            forall|k: int| 0 <= k < j ==> col_sums@[k] == 0,
        decreases cols - j,
    {
        col_sums.push(0);
        j = j + 1;
    }
    let mut local_score: i32 = i32::MIN;
    let mut local_rect = Rect::empty(sign);
    let ghost mut best_b: int = top as int;
    let mut bottom: usize = top;
    while bottom < rows
        invariant
            w == weights@,
            r == rows,
            c == cols,
            top < rows,
            cols > 0,
            weights.len() >= rows * cols,
            rect_sums_fit(w, r, c),
            top <= bottom <= rows,
            col_sums@.len() == cols,
            forall|k: int| 0 <= k < c ==> #[trigger] col_sums@[k] == col_sum(w, c, top as int, bottom as int, k),
            bottom == top ==> local_score == i32::MIN,
            forall|b: int| top <= b < bottom ==> #[trigger] band_solved(w, c, top as int, b),
            bottom > top ==> {
                &&& top <= best_b < bottom
                &&& forall|b: int| top <= b < bottom ==> #[trigger] band_score(w, c, top as int, b) <= band_score(w, c, top as int, best_b)
                &&& forall|b: int| top <= b < best_b ==> #[trigger] band_score(w, c, top as int, b) < band_score(w, c, top as int, best_b)
                &&& local_score as int == band_score(w, c, top as int, best_b)
                &&& local_rect == band_rect(w, c, top as int, best_b, sign)
            },
        decreases rows - bottom,
    {
        proof {
            lemma_cell_index(r, c, bottom as int, 0);
        }
        let row_start = bottom * cols;
        let mut j: usize = 0;
        while j < cols
            invariant
                w == weights@,
                c == cols,
                r == rows,
                top <= bottom < rows,
                weights.len() >= rows * cols,
                row_start == bottom * cols,
                row_start + cols <= rows * cols,
                rect_sums_fit(w, r, c),
                j <= cols,
                col_sums@.len() == cols,
                forall|k: int| 0 <= k < j ==> #[trigger] col_sums@[k] == col_sum(w, c, top as int, bottom + 1, k),
                forall|k: int| j <= k < c ==> #[trigger] col_sums@[k] == col_sum(w, c, top as int, bottom as int, k),
            decreases cols - j,
        {
            let ghost next = col_sum(w, c, top as int, bottom + 1, j as int);
            assert(next == col_sum(w, c, top as int, bottom as int, j as int) + cell(w, c, bottom as int, j as int));
            assert(rect_sum(w, c, top as int, bottom + 1, j as int, j as int) == 0);
            assert(rect_sum(w, c, top as int, bottom + 1, j as int, j + 1) == next);
            assert(fits_i32(rect_sum(w, c, top as int, bottom + 1, j as int, j + 1)));
            let v = col_sums[j] + weights[row_start + j] as i32;
            col_sums.set(j, v);
            j = j + 1;
        }
        let ghost s = band(w, c, top as int, bottom + 1);
        assert(as_ints(col_sums@) =~= s);
        assert forall|lo: int, hi: int| 0 <= lo <= hi <= s.len() implies fits_i32(#[trigger] range_sum(s, lo, hi)) by {
            lemma_band_range_sum(w, c, top as int, bottom + 1, lo, hi);
            assert(fits_i32(rect_sum(w, c, top as int, bottom + 1, lo, hi)));
        }
        let (current_sum, left, right) = kadane_1d(col_sums.as_slice());
        proof {
            lemma_best_range_is(s, current_sum as int, left as int, right as int);
            assert(band_solved(w, c, top as int, bottom as int));
            // a band always holds a range of one cell, and one cell sums to at least -128
            assert(range_sum(s, 0, 0) == 0);
            assert(range_sum(s, 0, 1) == s[0]);
            assert(col_sum(w, c, top as int, top as int, 0) == 0);
            assert(range_sum(s, 0, 1) <= current_sum);
        }
        let score = current_sum;
        if score > local_score {
            local_score = score;
            local_rect = Rect {
                x: left as u32,
                y: top as u32,
                width: (right - left + 1) as u32,
                height: (bottom - top + 1) as u32,
                sign,
            };
            proof {
                best_b = bottom as int;
            }
        }
        bottom = bottom + 1;
    }
    proof {
        lemma_band_choice_is(w, r, c, top as int, best_b);
    }
    (local_rect, local_score)
}


/// Runs `best_in_band` for every top row `0..rows` on rayon's thread pool.
///
/// Trusted: rayon's `into_par_iter().map(..).collect()` over a range calls the
/// closure once for each item and collects the results into the `Vec` in the
/// order of the items (the `Vec`'s `ParallelExtend` writes each result at its
/// index). So element `top` is what `best_in_band` returned for `top`, and it
/// meets that function's postcondition.
#[verifier::external_body]
fn candidates_by_top(weights: &[i8], rows: usize, cols: usize, sign: bool) -> (res: Vec<(Rect, i32)>)
    requires
        rows > 0 ==> cols > 0,
        weights.len() >= rows * cols,
        rect_sums_fit(weights@, rows as int, cols as int),
    ensures
        res@.len() == rows,
        forall|t: int|
            0 <= t < rows ==> top_postcondition(weights@, rows as int, cols as int, t, sign, #[trigger] res@[t]),
{
    (0..rows).into_par_iter().map(|top| best_in_band(weights, rows, cols, top, sign)).collect()
}

/// A rectangle is wide and tall enough to be chosen.
pub open spec fn passes_min_size(r: Rect) -> bool {
    r.width >= MIN_SIZE && r.height >= MIN_SIZE
}

/// The candidate of row `t` passes the size filter, scores highest among the
/// candidates that pass, and no later candidate that passes scores as high.
pub open spec fn is_top_choice(w: Seq<i8>, rows: int, cols: int, sign: bool, t: int) -> bool {
    &&& 0 <= t < rows
    &&& passes_min_size(top_candidate(w, rows, cols, t, sign).0)
    &&& forall|u: int|
        #![trigger top_candidate(w, rows, cols, u, sign)]
        0 <= u < rows && passes_min_size(top_candidate(w, rows, cols, u, sign).0) ==> top_candidate(
            w,
            rows,
            cols,
            u,
            sign,
        ).1 <= top_candidate(w, rows, cols, t, sign).1
    &&& forall|u: int|
        #![trigger top_candidate(w, rows, cols, u, sign)]
        t < u < rows && passes_min_size(top_candidate(w, rows, cols, u, sign).0) ==> top_candidate(
            w,
            rows,
            cols,
            u,
            sign,
        ).1 < top_candidate(w, rows, cols, t, sign).1
}

/// The rectangle of greatest sum of the `rows` x `cols` grid `w`, with its sum:
/// the candidate of the last top row that scores highest among those that pass
/// the size filter, or the empty rectangle with sum 0 where none passes.
pub open spec fn kadane_2d_spec(w: Seq<i8>, rows: int, cols: int, sign: bool) -> (Rect, int) {
    if exists|t: int| 0 <= t < rows && #[trigger] passes_min_size(top_candidate(w, rows, cols, t, sign).0) {
        top_candidate(w, rows, cols, choose|t: int| is_top_choice(w, rows, cols, sign, t), sign)
    } else {
        (Rect::empty_spec(sign), 0)
    }
}

proof fn lemma_top_choice_is(w: Seq<i8>, rows: int, cols: int, sign: bool, t: int)
    requires
        is_top_choice(w, rows, cols, sign, t),
    ensures
        (choose|u: int| is_top_choice(w, rows, cols, sign, u)) == t,
{
    let c = choose|u: int| is_top_choice(w, rows, cols, sign, u);
    assert(is_top_choice(w, rows, cols, sign, c));
    let sc = top_candidate(w, rows, cols, c, sign).1;
    let st = top_candidate(w, rows, cols, t, sign).1;
    if c < t {
        assert(st < sc);
        assert(st <= sc && sc <= st);
    }
    if t < c {
        assert(sc < st);
        assert(sc <= st && st <= sc);
    }
}

/// The sub-rectangle of greatest sum of the `rows` x `cols` row-major grid
/// `weights`, with its sum; the rectangle carries `sign`.
///
/// For each top row the best rectangle is found by running `kadane_1d` over the
/// column sums of each band; the top rows are searched in parallel.
pub fn kadane_2d(weights: &[i8], rows: usize, cols: usize, sign: bool) -> (res: (Rect, i32))
    requires
        rows > 0 ==> cols > 0,
        weights.len() >= rows * cols,
        rect_sums_fit(weights@, rows as int, cols as int),
    ensures
        res.0 == kadane_2d_spec(weights@, rows as int, cols as int, sign).0,
        res.1 as int == kadane_2d_spec(weights@, rows as int, cols as int, sign).1,
        res.0.sign == sign,
        rows == 0 ==> res.0 == Rect::empty_spec(sign) && res.1 == 0,
        forall|top: int, bottom: int, left: int, right: int|
            0 <= top < bottom <= rows && 0 <= left < right <= cols ==> #[trigger] rect_sum(
                weights@,
                cols as int,
                top,
                bottom,
                left,
                right,
            ) <= res.1,
        0 < rows <= u32::MAX && cols <= u32::MAX ==> {
            &&& 1 <= res.0.width
            &&& 1 <= res.0.height
            &&& res.0.x + res.0.width <= cols
            &&& res.0.y + res.0.height <= rows
            &&& rect_sum(
                weights@,
                cols as int,
                res.0.y as int,
                res.0.y + res.0.height,
                res.0.x as int,
                res.0.x + res.0.width,
            ) == res.1
        },
{
    let ghost w = weights@;
    let ghost r = rows as int;
    let ghost c = cols as int;
    let candidates = candidates_by_top(weights, rows, cols, sign);
    let mut found = false;
    let mut best: (Rect, i32) = (Rect::empty(sign), 0);
    let ghost mut best_t: int = 0;
    let mut t: usize = 0;
    while t < rows
        invariant
            w == weights@,
            r == rows,
            c == cols,
            candidates@.len() == rows,
            forall|u: int| 0 <= u < rows ==> top_postcondition(w, r, c, u, sign, #[trigger] candidates@[u]),
            t <= rows,
            found == exists|u: int| 0 <= u < t && #[trigger] passes_min_size(top_candidate(w, r, c, u, sign).0),
            !found ==> best == (Rect::empty_spec(sign), 0i32),
            found ==> {
                &&& 0 <= best_t < t
                &&& passes_min_size(top_candidate(w, r, c, best_t, sign).0)
                &&& best == candidates@[best_t]
                &&& forall|u: int|
                    #![trigger top_candidate(w, r, c, u, sign)]
                    0 <= u < t && passes_min_size(top_candidate(w, r, c, u, sign).0) ==> top_candidate(
                        w,
                        r,
                        c,
                        u,
                        sign,
                    ).1 <= top_candidate(w, r, c, best_t, sign).1
                &&& forall|u: int|
                    #![trigger top_candidate(w, r, c, u, sign)]
                    best_t < u < t && passes_min_size(top_candidate(w, r, c, u, sign).0) ==> top_candidate(
                        w,
                        r,
                        c,
                        u,
                        sign,
                    ).1 < top_candidate(w, r, c, best_t, sign).1
            },
        decreases rows - t,
    {
        let cand = candidates[t];
        assert(top_postcondition(w, r, c, t as int, sign, candidates@[t as int]));
        assert(passes_min_size(top_candidate(w, r, c, t as int, sign).0) == (cand.0.width >= MIN_SIZE
            && cand.0.height >= MIN_SIZE));
        if cand.0.width >= MIN_SIZE && cand.0.height >= MIN_SIZE {
            if !found || cand.1 >= best.1 {
                best = cand;
                proof {
                    best_t = t as int;
                }
            }
            found = true;
        }
        t = t + 1;
    }
    proof {
        if found {
            lemma_top_choice_is(w, r, c, sign, best_t);
        }
        if rows > 0 {
            assert(passes_min_size(top_candidate(w, r, c, 0, sign).0));
            assert(found);
        }
        assert forall|top: int, bottom: int, left: int, right: int|
            0 <= top < bottom <= rows && 0 <= left < right <= cols implies #[trigger] rect_sum(
            w,
            c,
            top,
            bottom,
            left,
            right,
        ) <= best.1 by {
            assert(top_postcondition(w, r, c, top, sign, candidates@[top]));
            let b = band_choice(w, r, c, top);
            assert(band_solved(w, c, top, bottom - 1));
            lemma_band_range_sum(w, c, top, bottom, left, right);
            let s = band(w, c, top, bottom);
            assert(range_sum(s, left, right) <= best_range(s).0);
            assert(band_score(w, c, top, bottom - 1) <= band_score(w, c, top, b));
            assert(passes_min_size(top_candidate(w, r, c, top, sign).0));
        }
        if 0 < rows <= u32::MAX && cols <= u32::MAX {
            let b = band_choice(w, r, c, best_t);
            assert(top_postcondition(w, r, c, best_t, sign, candidates@[best_t]));
            assert(band_solved(w, c, best_t, b));
            let s = band(w, c, best_t, b + 1);
            let br = best_range(s);
            lemma_band_range_sum(w, c, best_t, b + 1, br.1, br.2 + 1);
        }
    }
    best
}


/// Every rectangle sum of both weight grids of `w` fits in an `i32`.
pub open spec fn weight_grids_fit(w: Seq<Weight>, rows: int, cols: int) -> bool {
    &&& rect_sums_fit(positive_weights(w), rows, cols)
    &&& rect_sums_fit(negative_weights(w), rows, cols)
}

/// The rectangle that best compensates the difference `w`: the best white
/// rectangle, unless the best black one scores strictly higher.
pub open spec fn best_rect_spec(w: Seq<Weight>, rows: int, cols: int) -> Rect {
    let p = kadane_2d_spec(positive_weights(w), rows, cols, true);
    let n = kadane_2d_spec(negative_weights(w), rows, cols, false);
    if p.1 >= n.1 {
        p.0
    } else {
        n.0
    }
}

/// The score of `best_rect_spec`: the higher of the two polarities' scores.
pub open spec fn best_rect_score(w: Seq<Weight>, rows: int, cols: int) -> int {
    let p = kadane_2d_spec(positive_weights(w), rows, cols, true).1;
    let n = kadane_2d_spec(negative_weights(w), rows, cols, false).1;
    if p >= n {
        p
    } else {
        n
    }
}

/// A grid of `rows * cols` weights with `2 * rows * cols <= i32::MAX` has
/// every rectangle sum of both weight grids within `i32`.
pub proof fn lemma_weight_grids_fit(w: Seq<Weight>, rows: int, cols: int)
    requires
        0 <= rows,
        0 <= cols,
        w.len() >= rows * cols,
        rows * cols * 2 <= i32::MAX,
    ensures
        weight_grids_fit(w, rows, cols),
{
    let p = positive_weights(w);
    let n = negative_weights(w);
    assert forall|i: int| 0 <= i < rows * cols implies -2 <= #[trigger] p[i] <= 2 by {
        assert(p[i] == positive_weight(w[i]));
    }
    assert forall|i: int| 0 <= i < rows * cols implies -2 <= #[trigger] n[i] <= 2 by {
        assert(n[i] == negative_weight(w[i]));
    }
    lemma_rect_sums_fit_when_bounded(p, rows, cols, 2);
    lemma_rect_sums_fit_when_bounded(n, rows, cols, 2);
}

/// The rectangle that best compensates the difference weights of a
/// `rows` x `cols` frame: the best rectangle of the positive weights (white)
/// and of the negative weights (black) are found apart, and the one of higher
/// score wins, white on a tie.
pub fn best_rect(weights: &[Weight], rows: usize, cols: usize) -> (r: Rect)
    requires
        rows > 0 ==> cols > 0,
        weights.len() >= rows * cols,
        weight_grids_fit(weights@, rows as int, cols as int),
    ensures
        r == best_rect_spec(weights@, rows as int, cols as int),
        rows == 0 ==> r == Rect::empty_spec(true),
        forall|top: int, bottom: int, left: int, right: int|
            0 <= top < bottom <= rows && 0 <= left < right <= cols ==> {
                &&& rect_sum(positive_weights(weights@), cols as int, top, bottom, left, right)
                    <= kadane_2d_spec(positive_weights(weights@), rows as int, cols as int, true).1
                &&& rect_sum(negative_weights(weights@), cols as int, top, bottom, left, right)
                    <= kadane_2d_spec(negative_weights(weights@), rows as int, cols as int, false).1
            },
        r.sign == (kadane_2d_spec(positive_weights(weights@), rows as int, cols as int, true).1
            >= kadane_2d_spec(negative_weights(weights@), rows as int, cols as int, false).1),
        forall|top: int, bottom: int, left: int, right: int|
            0 <= top < bottom <= rows && 0 <= left < right <= cols ==> {
                &&& rect_sum(positive_weights(weights@), cols as int, top, bottom, left, right)
                    <= best_rect_score(weights@, rows as int, cols as int)
                &&& rect_sum(negative_weights(weights@), cols as int, top, bottom, left, right)
                    <= best_rect_score(weights@, rows as int, cols as int)
            },
        0 < rows <= u32::MAX && cols <= u32::MAX ==> {
            &&& 1 <= r.width
            &&& 1 <= r.height
            &&& r.x + r.width <= cols
            &&& r.y + r.height <= rows
            &&& rect_sum(
                if r.sign {
                    positive_weights(weights@)
                } else {
                    negative_weights(weights@)
                },
                cols as int,
                r.y as int,
                r.y + r.height,
                r.x as int,
                r.x + r.width,
            ) == best_rect_score(weights@, rows as int, cols as int)
        },
{
    let mut weights_pos: Vec<i8> = Vec::new();
    let mut weights_neg: Vec<i8> = Vec::new();
    let mut i: usize = 0;
    while i < weights.len()
        invariant
            i <= weights.len(),
            weights_pos@ =~= positive_weights(weights@).take(i as int),
            weights_neg@ =~= negative_weights(weights@).take(i as int),
        decreases weights.len() - i,
    {
        let (p, n): (i8, i8) = match weights[i] {
            Weight::BB => (ZERO_WEIGHT, 0),
            Weight::WW => (0, ZERO_WEIGHT),
            Weight::BW => (SCALE, -SCALE),
            Weight::WB => (-SCALE, SCALE),
        };
        weights_pos.push(p);
        weights_neg.push(n);
        i = i + 1;
    }
    assert(weights_pos@ =~= positive_weights(weights@));
    assert(weights_neg@ =~= negative_weights(weights@));
    let (pos_rect, pos_sum) = kadane_2d(weights_pos.as_slice(), rows, cols, true);
    let (neg_rect, neg_sum) = kadane_2d(weights_neg.as_slice(), rows, cols, false);
    proof {
        assert forall|top: int, bottom: int, left: int, right: int|
            0 <= top < bottom <= rows && 0 <= left < right <= cols implies {
            &&& rect_sum(positive_weights(weights@), cols as int, top, bottom, left, right)
                <= best_rect_score(weights@, rows as int, cols as int)
            &&& rect_sum(negative_weights(weights@), cols as int, top, bottom, left, right)
                <= best_rect_score(weights@, rows as int, cols as int)
        } by {
            assert(rect_sum(weights_pos@, cols as int, top, bottom, left, right) <= pos_sum);
            assert(rect_sum(weights_neg@, cols as int, top, bottom, left, right) <= neg_sum);
        }
    }
    if pos_sum >= neg_sum {
        pos_rect
    } else {
        neg_rect
    }
}


/// The last index in `[0, n)` where `f` is greatest.
proof fn lemma_last_max(f: spec_fn(int) -> int, n: int) -> (t: int)
    requires
        n > 0,
    ensures
        0 <= t < n,
        forall|u: int| 0 <= u < n ==> #[trigger] f(u) <= f(t),
        forall|u: int| t < u < n ==> #[trigger] f(u) < f(t),
    decreases n,
{
    if n == 1 {
        0
    } else {
        let s = lemma_last_max(f, n - 1);
        if f(n - 1) >= f(s) {
            n - 1
        } else {
            s
        }
    }
}

/// The best rectangle of a grid does not depend on the colour it is painted
/// with: for either sign it has the same place, size and score.
pub proof fn lemma_kadane_2d_spec_sign(g: Seq<i8>, rows: int, cols: int)
    ensures
        ({
            let a = kadane_2d_spec(g, rows, cols, true);
            let b = kadane_2d_spec(g, rows, cols, false);
            &&& a.1 == b.1
            &&& a.0.x == b.0.x
            &&& a.0.y == b.0.y
            &&& a.0.width == b.0.width
            &&& a.0.height == b.0.height
            &&& a.0.sign
            &&& !b.0.sign
        }),
{
    if rows > 0 {
        assert(passes_min_size(top_candidate(g, rows, cols, 0, true).0));
        assert(passes_min_size(top_candidate(g, rows, cols, 0, false).0));
        let f = |u: int| top_candidate(g, rows, cols, u, true).1;
        let t = lemma_last_max(f, rows);
        assert forall|u: int| 0 <= u < rows implies top_candidate(g, rows, cols, u, true).1 == f(u)
            && top_candidate(g, rows, cols, u, false).1 == f(u) by {}
        assert(is_top_choice(g, rows, cols, true, t)) by {
            assert forall|u: int| 0 <= u < rows implies #[trigger] top_candidate(g, rows, cols, u, true).1
                <= top_candidate(g, rows, cols, t, true).1 by {
                assert(f(u) <= f(t));
            }
            assert forall|u: int| t < u < rows implies #[trigger] top_candidate(g, rows, cols, u, true).1
                < top_candidate(g, rows, cols, t, true).1 by {
                assert(f(u) < f(t));
            }
        }
        assert(is_top_choice(g, rows, cols, false, t)) by {
            assert forall|u: int| 0 <= u < rows implies #[trigger] top_candidate(g, rows, cols, u, false).1
                <= top_candidate(g, rows, cols, t, false).1 by {
                assert(f(u) <= f(t));
            }
            assert forall|u: int| t < u < rows implies #[trigger] top_candidate(g, rows, cols, u, false).1
                < top_candidate(g, rows, cols, t, false).1 by {
                assert(f(u) < f(t));
            }
        }
        lemma_top_choice_is(g, rows, cols, true, t);
        lemma_top_choice_is(g, rows, cols, false, t);
    }
}

/// A pixel's weight with black and white exchanged in both frames.
pub open spec fn swap_colours(w: Weight) -> Weight {
    match w {
        Weight::BB => Weight::WW,
        Weight::WW => Weight::BB,
        Weight::BW => Weight::WB,
        Weight::WB => Weight::BW,
    }
}

pub open spec fn swapped(w: Seq<Weight>) -> Seq<Weight> {
    w.map_values(|x: Weight| swap_colours(x))
}

/// Exchanging black and white in both frames gives the same rectangle in the
/// other colour, where the best white and the best black rectangle do not tie
/// (on a tie white wins either way).
pub proof fn lemma_best_rect_colour_swap(w: Seq<Weight>, rows: int, cols: int)
    requires
        kadane_2d_spec(positive_weights(w), rows, cols, true).1 != kadane_2d_spec(
            negative_weights(w),
            rows,
            cols,
            false,
        ).1,
    ensures
        ({
            let a = best_rect_spec(w, rows, cols);
            let b = best_rect_spec(swapped(w), rows, cols);
            &&& b.x == a.x
            &&& b.y == a.y
            &&& b.width == a.width
            &&& b.height == a.height
            &&& b.sign == !a.sign
        }),
{
    assert(positive_weights(swapped(w)) =~= negative_weights(w));
    assert(negative_weights(swapped(w)) =~= positive_weights(w));
    lemma_kadane_2d_spec_sign(positive_weights(w), rows, cols);
    lemma_kadane_2d_spec_sign(negative_weights(w), rows, cols);
}


/// How many pixels of kind `k` column `col` holds in rows `top..bottom`.
pub open spec fn col_count(w: Seq<Weight>, cols: int, top: int, bottom: int, col: int, k: Weight) -> int
    decreases bottom - top,
{
    if bottom <= top {
        0
    } else {
        col_count(w, cols, top, bottom - 1, col, k) + if w[(bottom - 1) * cols + col] == k {
            1int
        } else {
            0int
        }
    }
}

/// How many pixels of kind `k` the rectangle of rows `top..bottom` and
/// columns `left..right` holds.
pub open spec fn rect_count(
    w: Seq<Weight>,
    cols: int,
    top: int,
    bottom: int,
    left: int,
    right: int,
    k: Weight,
) -> int
    decreases right - left,
{
    if right <= left {
        0
    } else {
        rect_count(w, cols, top, bottom, left, right - 1, k) + col_count(w, cols, top, bottom, right - 1, k)
    }
}

proof fn lemma_column_score_counts(w: Seq<Weight>, rows: int, cols: int, top: int, bottom: int, col: int)
    requires
        0 <= top <= bottom <= rows,
        0 <= col < cols,
        w.len() >= rows * cols,
    ensures
        col_sum(positive_weights(w), cols, top, bottom, col) == SCALE * col_count(w, cols, top, bottom, col, Weight::BW)
            - SCALE * col_count(w, cols, top, bottom, col, Weight::WB) + ZERO_WEIGHT * col_count(
            w,
            cols,
            top,
            bottom,
            col,
            Weight::BB,
        ),
        col_sum(negative_weights(w), cols, top, bottom, col) == SCALE * col_count(w, cols, top, bottom, col, Weight::WB)
            - SCALE * col_count(w, cols, top, bottom, col, Weight::BW) + ZERO_WEIGHT * col_count(
            w,
            cols,
            top,
            bottom,
            col,
            Weight::WW,
        ),
    decreases bottom - top,
{
    if top < bottom {
        lemma_column_score_counts(w, rows, cols, top, bottom - 1, col);
        lemma_cell_index(rows, cols, bottom - 1, col);
        let i = (bottom - 1) * cols + col;
        assert(positive_weights(w)[i] == positive_weight(w[i]));
        assert(negative_weights(w)[i] == negative_weight(w[i]));
    }
}

/// What a rectangle scores is what it covers. For a white rectangle each
/// pixel that turned white counts 2 (`SCALE`) for it, each pixel that turned
/// black (a change against its colour) counts 2 against it, and each pixel
/// black in both frames counts -1 (`ZERO_WEIGHT`); pixels white in both
/// frames count nothing. A black rectangle is the mirror image.
pub proof fn lemma_rectangle_score_counts(
    w: Seq<Weight>,
    rows: int,
    cols: int,
    top: int,
    bottom: int,
    left: int,
    right: int,
)
    requires
        0 <= top <= bottom <= rows,
        0 <= left <= right <= cols,
        w.len() >= rows * cols,
    ensures
        rect_sum(positive_weights(w), cols, top, bottom, left, right) == 2 * rect_count(
            w,
            cols,
            top,
            bottom,
            left,
            right,
            Weight::BW,
        ) - 2 * rect_count(w, cols, top, bottom, left, right, Weight::WB)
            - rect_count(w, cols, top, bottom, left, right, Weight::BB),
        rect_sum(negative_weights(w), cols, top, bottom, left, right) == 2 * rect_count(
            w,
            cols,
            top,
            bottom,
            left,
            right,
            Weight::WB,
        ) - 2 * rect_count(w, cols, top, bottom, left, right, Weight::BW)
            - rect_count(w, cols, top, bottom, left, right, Weight::WW),
    decreases right - left,
{
    if left < right {
        lemma_rectangle_score_counts(w, rows, cols, top, bottom, left, right - 1);
        lemma_column_score_counts(w, rows, cols, top, bottom, right - 1);
    }
}

} // verus!
