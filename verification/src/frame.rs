//! Binary frames, painting rectangles onto them, and measuring how two frames differ.

use vstd::prelude::*;
use vstd::arithmetic::div_mod::{
    lemma_fundamental_div_mod, lemma_fundamental_div_mod_converse, lemma_mod_bound,
};
use crate::diff::{
    best_rect, best_rect_score, best_rect_spec, lemma_weight_grids_fit, negative_weights,
    positive_weights, Weight,
};
use crate::sums::{cell, col_sum, lemma_cell_index, lemma_rect_sum_nonpositive, rect_sum};
use crate::rect::Rect;

verus! {

/// A single-channel 8-bit frame, row-major: the pixel at `(row, col)` is
/// `pixels[row * width + col]`. A pixel greater than 0 counts as white.
pub struct Frame {
    pub width: usize,
    pub height: usize,
    pub pixels: Vec<u8>,
}

/// The row of pixel index `i` in a frame `width` pixels wide.
pub open spec fn row_of(i: int, width: int) -> int {
    i / width
}

/// The column of pixel index `i` in a frame `width` pixels wide.
pub open spec fn col_of(i: int, width: int) -> int {
    i % width
}

/// An all-black frame of `n` pixels.
pub open spec fn blank(n: int) -> Seq<u8> {
    Seq::new(n as nat, |i: int| 0u8)
}

/// The value a rectangle paints.
pub open spec fn paint_value(sign: bool) -> u8 {
    if sign {
        255
    } else {
        0
    }
}

/// `px`, a frame `width` pixels wide, with the rectangle `r` painted on it
/// (the part of `r` outside the frame is clipped away).
pub open spec fn painted(px: Seq<u8>, width: int, r: Rect) -> Seq<u8> {
    Seq::new(
        px.len(),
        |i: int|
            if r.covers(row_of(i, width), col_of(i, width)) {
                paint_value(r.sign)
            } else {
                px[i]
            },
    )
}

/// `px` with the rectangles `rs` painted on it, in order.
pub open spec fn painted_all(px: Seq<u8>, width: int, rs: Seq<Rect>) -> Seq<u8>
    decreases rs.len(),
{
    if rs.len() == 0 {
        px
    } else {
        painted(painted_all(px, width, rs.drop_last()), width, rs.last())
    }
}

/// Painting a list of rectangles paints them one after the other, in order:
/// nothing for no rectangle, and one more rectangle painted on top of the
/// others for a longer list.
pub proof fn lemma_painted_all_in_order(px: Seq<u8>, width: int, rs: Seq<Rect>, r: Rect)
    ensures
        painted_all(px, width, Seq::<Rect>::empty()) == px,
        painted_all(px, width, rs.push(r)) == painted(painted_all(px, width, rs), width, r),
{
    assert(rs.push(r).drop_last() =~= rs);
}

/// Painting `a` and then `b` is painting `a + b`.
pub proof fn lemma_painted_all_append(px: Seq<u8>, width: int, a: Seq<Rect>, b: Seq<Rect>)
    ensures
        painted_all(px, width, a + b) == painted_all(painted_all(px, width, a), width, b),
    decreases b.len(),
{
    if b.len() == 0 {
        assert(a + b =~= a);
    } else {
        lemma_painted_all_append(px, width, a, b.drop_last());
        assert((a + b).drop_last() =~= a + b.drop_last());
    }
}

/// Painting a rectangle a second time changes nothing.
pub proof fn lemma_painted_twice(px: Seq<u8>, width: int, r: Rect)
    ensures
        painted(painted(px, width, r), width, r) == painted(px, width, r),
{
    assert(painted(painted(px, width, r), width, r) =~= painted(px, width, r));
}

/// Two rectangles of the same colour can be painted in either order.
pub proof fn lemma_painted_same_colour_commute(px: Seq<u8>, width: int, a: Rect, b: Rect)
    requires
        a.sign == b.sign,
    ensures
        painted(painted(px, width, a), width, b) == painted(painted(px, width, b), width, a),
{
    assert(painted(painted(px, width, a), width, b) =~= painted(painted(px, width, b), width, a));
}

/// The part of `painted(px, width, r)` done once the rows before `row`, and
/// the columns before `col` of row `row`, have been painted.
spec fn painted_upto(px: Seq<u8>, width: int, r: Rect, row: int, col: int) -> Seq<u8> {
    Seq::new(
        px.len(),
        |i: int|
            if r.covers(row_of(i, width), col_of(i, width)) && (row_of(i, width) < row || (row_of(
                i,
                width,
            ) == row && col_of(i, width) < col)) {
                paint_value(r.sign)
            } else {
                px[i]
            },
    )
}

impl Frame {
    /// The pixel buffer holds exactly `width * height` pixels.
    pub open spec fn wf(&self) -> bool {
        self.pixels@.len() == self.width * self.height
    }

    /// An all-black frame.
    pub fn black(width: usize, height: usize) -> (f: Frame)
        requires
            width * height <= usize::MAX,
        ensures
            f.wf(),
            f.width == width,
            f.height == height,
            f.pixels@ == blank(width * height),
    {
        let n = width * height;
        let mut pixels: Vec<u8> = Vec::new();
        let mut i: usize = 0;
        while i < n
            invariant
                i <= n,
                pixels@ == blank(i as int),
            decreases n - i,
        {
            pixels.push(0);
            i = i + 1;
            assert(pixels@ =~= blank(i as int));
        }
        Frame { width, height, pixels }
    }

    /// A frame of the given size holding `pixels`, if there are exactly
    /// `width * height` of them.
    pub fn from_pixels(width: usize, height: usize, pixels: Vec<u8>) -> (f: Option<Frame>)
        ensures
            f is Some <==> pixels@.len() == width * height,
            f matches Some(f) ==> f.wf() && f.width == width && f.height == height && f.pixels@
                == pixels@,
    {
        let len = pixels.len();
        match width.checked_mul(height) {
            Some(n) => {
                if len == n {
                    Some(Frame { width, height, pixels })
                } else {
                    None
                }
            },
            None => None,
        }
    }

    /// A copy of the frame.
    pub fn duplicate(&self) -> (f: Frame)
        ensures
            f.width == self.width,
            f.height == self.height,
            f.pixels@ == self.pixels@,
    {
        let mut pixels: Vec<u8> = Vec::new();
        let mut i: usize = 0;
        while i < self.pixels.len()
            invariant
                i <= self.pixels@.len(),
                pixels@ == self.pixels@.take(i as int),
            decreases self.pixels@.len() - i,
        {
            pixels.push(self.pixels[i]);
            i = i + 1;
            assert(pixels@ =~= self.pixels@.take(i as int));
        }
        assert(pixels@ =~= self.pixels@);
        Frame { width: self.width, height: self.height, pixels }
    }
}

proof fn lemma_index_of(width: int, row: int, col: int)
    requires
        width > 0,
        0 <= col < width,
    ensures
        row_of(row * width + col, width) == row,
        col_of(row * width + col, width) == col,
{
    lemma_fundamental_div_mod_converse(row * width + col, width, row, col);
}

/// Paints the rectangle onto the frame: the pixels that it covers become
/// white (`sign`) or black, clipped to the frame; the others stay.
pub fn rect2frame(frame: &mut Frame, rectangle: &Rect)
    requires
        old(frame).wf(),
        rectangle.drawable(),
    ensures
        final(frame).width == old(frame).width,
        final(frame).height == old(frame).height,
        final(frame).pixels@ == painted(old(frame).pixels@, old(frame).width as int, *rectangle),
{
    let ghost old_px = frame.pixels@;
    let width = frame.width;
    let height = frame.height;
    let len = frame.pixels.len();
    let ghost w = width as int;
    let r = *rectangle;
    if width == 0 {
        assert(frame.pixels@ =~= painted(old_px, w, r));
        return ;
    }
    let x_end = r.x as usize + r.width as usize;
    let y_end = r.y as usize + r.height as usize;
    let x0 = if (r.x as usize) < width { r.x as usize } else { width };
    let x1 = if x_end < width { x_end } else { width };
    let y0 = if (r.y as usize) < height { r.y as usize } else { height };
    let y1 = if y_end < height { y_end } else { height };
    let color: u8 = if r.sign { 255 } else { 0 };
    let mut row = y0;
    assert(frame.pixels@ =~= painted_upto(old_px, w, r, y0 as int, 0)) by {
        assert forall|i: int| 0 <= i < old_px.len() implies !(r.covers(#[trigger] row_of(i, w), col_of(i, w)) && (
        row_of(i, w) < y0 || (row_of(i, w) == y0 && col_of(i, w) < 0))) by {
            lemma_fundamental_div_mod(i, w);
            assert(row_of(i, w) >= 0) by (nonlinear_arith)
                requires
                    i == w * row_of(i, w) + col_of(i, w),
                    0 <= i,
                    col_of(i, w) < w,
                    w > 0,
            ;
        }
    }
    while row < y1
        invariant
            frame.width == width,
            frame.height == height,
            width > 0,
            w == width,
            old_px.len() == width * height,
            old_px.len() == len,
            y0 <= row,
            y0 == r.y || (y0 == height && r.y >= height),
            x0 == r.x || (x0 == width && r.x >= width),
            y1 <= height,
            x0 <= x1 <= width,
            x1 <= r.x + r.width,
            y1 <= r.y + r.height,
            x1 == width || x1 == r.x + r.width,
            y1 == height || y1 == r.y + r.height,
            color == paint_value(r.sign),
            row <= y1 || y0 >= y1,
            frame.pixels@ == painted_upto(old_px, w, r, row as int, 0),
        decreases y1 - row,
    {
        let mut col = x0;
        assert(frame.pixels@ =~= painted_upto(old_px, w, r, row as int, x0 as int)) by {
            assert forall|i: int| 0 <= i < old_px.len() && #[trigger] row_of(i, w) == row && r.covers(
                row_of(i, w),
                col_of(i, w),
            ) implies col_of(i, w) >= x0 by {
                lemma_mod_bound(i, w);
            }
        }
        while col < x1
            invariant
                frame.width == width,
                frame.height == height,
                width > 0,
                w == width,
                old_px.len() == width * height,
                old_px.len() == len,
                row < y1,
                y1 <= height,
                r.y <= row,
                y1 <= r.y + r.height,
                x1 <= r.x + r.width,
                x0 <= col <= x1,
                x1 <= width,
                x0 == r.x || (x0 == width && r.x >= width),
                color == paint_value(r.sign),
                frame.pixels@ == painted_upto(old_px, w, r, row as int, col as int),
            decreases x1 - col,
        {
            assert(0 <= row * width && row * width + col < width * height) by (nonlinear_arith)
                requires
                    row < height,
                    col < width,
            ;
            let k = row * width + col;
            proof {
                lemma_index_of(w, row as int, col as int);
            }
            frame.pixels.set(k, color);
            assert(frame.pixels@ =~= painted_upto(old_px, w, r, row as int, col + 1)) by {
                assert forall|i: int| 0 <= i < old_px.len() && i != k implies (#[trigger] row_of(i, w) == row
                    && col_of(i, w) == col) == false by {
                    lemma_fundamental_div_mod(i, w);
                    if row_of(i, w) == row && col_of(i, w) == col {
                        assert(i == w * row + col);
                        assert(w * row == row * w) by (nonlinear_arith);
                    }
                }
            }
            col = col + 1;
        }
        assert(frame.pixels@ =~= painted_upto(old_px, w, r, row + 1, 0)) by {
            assert forall|i: int| 0 <= i < old_px.len() && #[trigger] row_of(i, w) == row && r.covers(
                row_of(i, w),
                col_of(i, w),
            ) implies col_of(i, w) < x1 by {
                lemma_fundamental_div_mod(i, w);
            }
        }
        row = row + 1;
    }
    assert(frame.pixels@ =~= painted(old_px, w, r)) by {
        assert forall|i: int| 0 <= i < old_px.len() && r.covers(#[trigger] row_of(i, w), col_of(i, w)) implies row_of(
            i,
            w,
        ) < row by {
            lemma_fundamental_div_mod(i, w);
            if row_of(i, w) >= height {
                assert(w * row_of(i, w) >= w * height) by (nonlinear_arith)
                    requires
                        row_of(i, w) >= height,
                        w > 0,
                ;
            }
        }
    }
}


/// Why two frames could not be compared.
#[derive(Clone, Copy, Debug, PartialEq, Eq, Structural)]
pub enum FrameError {
    /// The current frame lacks pixels that the reference frame has.
    SizeMismatch,
}

/// How a pixel that is white (`orig`) or black in the reference compares with
/// one that is white (`curr`) or black in the current frame.
pub open spec fn weight_of(orig: bool, curr: bool) -> Weight {
    match (orig, curr) {
        (false, false) => Weight::BB,
        (false, true) => Weight::BW,
        (true, false) => Weight::WB,
        (true, true) => Weight::WW,
    }
}

/// The difference between a `rows` x `cols` reference frame `ref_px` and a
/// current frame `cur_px` that is `cur_cols` pixels wide: one weight per pixel
/// of the reference, row-major.
pub open spec fn difference_weights(
    ref_px: Seq<u8>,
    rows: int,
    cols: int,
    cur_px: Seq<u8>,
    cur_cols: int,
) -> Seq<Weight> {
    Seq::new(
        (rows * cols) as nat,
        |i: int|
            weight_of(
                ref_px[row_of(i, cols) * cols + col_of(i, cols)] > 0,
                cur_px[row_of(i, cols) * cur_cols + col_of(i, cols)] > 0,
            ),
    )
}

/// The difference between two frames (see `difference_weights`).
pub open spec fn frame_difference(reference: &Frame, current: &Frame) -> Seq<Weight> {
    difference_weights(
        reference.pixels@,
        reference.height as int,
        reference.width as int,
        current.pixels@,
        current.width as int,
    )
}

/// No pixel changes colour between the two frames.
pub open spec fn no_change(weights: Seq<Weight>) -> bool {
    forall|i: int| 0 <= i < weights.len() ==> #[trigger] weights[i] == Weight::BB || weights[i] == Weight::WW
}

/// The current frame covers the reference frame (or the reference is empty).
pub open spec fn frames_comparable(reference: &Frame, current: &Frame) -> bool {
    reference.height == 0 || reference.width == 0 || (reference.height <= current.height
        && reference.width <= current.width)
}

/// The picture of a difference: one grey level per weight (see `weight_pixel`).
pub open spec fn weight_picture(w: Seq<Weight>) -> Seq<u8> {
    w.map_values(|x: Weight| weight_pixel(x))
}

/// The rectangle that best compensates the difference between the reference
/// frame and the current frame, with the picture of the difference, of the
/// reference's size.
pub fn frames2rect(reference: &Frame, current: &Frame) -> (res: Result<(Rect, Frame), FrameError>)
    requires
        reference.wf(),
        current.wf(),
        reference.height > 0 ==> reference.width > 0,
        reference.height * reference.width * 2 <= i32::MAX,
    ensures
        res is Ok <==> frames_comparable(reference, current),
        res matches Ok((rect, picture)) ==> {
            &&& rect == best_rect_spec(
                frame_difference(reference, current),
                reference.height as int,
                reference.width as int,
            )
            &&& picture.wf()
            &&& picture.width == reference.width
            &&& picture.height == reference.height
            &&& picture.pixels@ == weight_picture(frame_difference(reference, current))
            &&& rect.x + rect.width <= reference.width
            &&& rect.y + rect.height <= reference.height
            &&& reference.height == 0 ==> rect == Rect::empty_spec(true)
            &&& no_change(frame_difference(reference, current)) ==> forall|i: int|
                0 <= i < reference.pixels@.len() ==> (#[trigger] painted(
                    reference.pixels@,
                    reference.width as int,
                    rect,
                )[i] > 0) == (reference.pixels@[i] > 0)
        },
{
    let rows = reference.height;
    let cols = reference.width;
    if rows > 0 && cols > 0 && (current.height < rows || current.width < cols) {
        return Err(FrameError::SizeMismatch);
    }
    let ghost spec_w = frame_difference(reference, current);
    let ref_len = reference.pixels.len();
    let cur_len = current.pixels.len();
    let mut weights: Vec<Weight> = Vec::new();
    let mut row: usize = 0;
    assert(row * cols == 0) by (nonlinear_arith)
        requires
            row == 0,
    ;
    assert(weights@ =~= spec_w.take(row * cols));
    while row < rows
        invariant
            rows == reference.height,
            cols == reference.width,
            reference.wf(),
            current.wf(),
            frames_comparable(reference, current),
            spec_w == frame_difference(reference, current),
            ref_len == reference.pixels@.len(),
            cur_len == current.pixels@.len(),
            row <= rows,
            weights@ == spec_w.take(row * cols),
        decreases rows - row,
    {
        let mut col: usize = 0;
        while col < cols
            invariant
                rows == reference.height,
                cols == reference.width,
                reference.wf(),
                current.wf(),
                frames_comparable(reference, current),
                spec_w == frame_difference(reference, current),
                ref_len == reference.pixels@.len(),
                cur_len == current.pixels@.len(),
                row < rows,
                col <= cols,
                weights@ == spec_w.take(row * cols + col),
            decreases cols - col,
        {
            assert(rows * cols == cols * rows) by (nonlinear_arith);
            assert(0 <= row * cols && row * cols + col < rows * cols) by (nonlinear_arith)
                requires
                    row < rows,
                    col < cols,
            ;
            assert(0 <= row * current.width && row * current.width + col < current.width
                * current.height) by (nonlinear_arith)
                requires
                    row < rows <= current.height,
                    col < cols <= current.width,
            ;
            let orig = reference.pixels[row * cols + col] > 0;
            let curr = current.pixels[row * current.width + col] > 0;
            let weight = match (orig, curr) {
                (false, false) => Weight::BB,
                (false, true) => Weight::BW,
                (true, false) => Weight::WB,
                (true, true) => Weight::WW,
            };
            proof {
                lemma_index_of(cols as int, row as int, col as int);
                assert(rows * cols == reference.height * reference.width);
            }
            weights.push(weight);
            assert(weights@ =~= spec_w.take(row * cols + col + 1));
            col = col + 1;
        }
        assert(row * cols + cols == (row + 1) * cols) by (nonlinear_arith);
        row = row + 1;
    }
    assert(weights@ =~= spec_w) by {
        assert(rows * cols == reference.height * reference.width);
    }
    proof {
        lemma_weight_grids_fit(weights@, rows as int, cols as int);
    }
    let rect = best_rect(weights.as_slice(), rows, cols);
    proof {
        if rows > 0 {
            assert(rows <= rows * cols && cols <= rows * cols) by (nonlinear_arith)
                requires
                    rows >= 1,
                    cols >= 1,
            ;
            if no_change(weights@) {
                lemma_no_change_keeps_colours(reference, current, weights@, rect);
            }
        }
    }
    let picture = match weight2frame(weights.as_slice(), rows, cols) {
        Some(f) => f,
        None => {
            // there are exactly `rows * cols` weights
            proof {
                assert(false);
            }
            Frame { width: cols, height: rows, pixels: Vec::new() }
        },
    };
    assert(weights@.len() == rows * cols);
    assert(rows * cols == cols * rows) by (nonlinear_arith);
    assert(picture.pixels@ =~= weight_picture(weights@));
    Ok((rect, picture))
}

/// Where no pixel changes colour, the best rectangle only covers pixels that
/// already have its colour: its score is 0, and every cell it covers weighs 0.
proof fn lemma_no_change_keeps_colours(reference: &Frame, current: &Frame, weights: Seq<Weight>, rect: Rect)
    requires
        reference.wf(),
        reference.height > 0,
        reference.width > 0,
        reference.height <= u32::MAX,
        reference.width <= u32::MAX,
        no_change(weights),
        weights == frame_difference(reference, current),
        forall|top: int, bottom: int, left: int, right: int|
            0 <= top < bottom <= reference.height && 0 <= left < right <= reference.width ==> {
                &&& rect_sum(positive_weights(weights), reference.width as int, top, bottom, left, right)
                    <= best_rect_score(weights, reference.height as int, reference.width as int)
                &&& rect_sum(negative_weights(weights), reference.width as int, top, bottom, left, right)
                    <= best_rect_score(weights, reference.height as int, reference.width as int)
            },
        rect.x + rect.width <= reference.width,
        rect.y + rect.height <= reference.height,
        rect_sum(
            if rect.sign {
                positive_weights(weights)
            } else {
                negative_weights(weights)
            },
            reference.width as int,
            rect.y as int,
            rect.y + rect.height,
            rect.x as int,
            rect.x + rect.width,
        ) == best_rect_score(weights, reference.height as int, reference.width as int),
    ensures
        forall|i: int|
            0 <= i < reference.pixels@.len() ==> (#[trigger] painted(
                reference.pixels@,
                reference.width as int,
                rect,
            )[i] > 0) == (reference.pixels@[i] > 0),
{
    let rows = reference.height as int;
    let cols = reference.width as int;
    let score = best_rect_score(weights, rows, cols);
    let g = if rect.sign {
        positive_weights(weights)
    } else {
        negative_weights(weights)
    };
    let other = if rect.sign {
        negative_weights(weights)
    } else {
        positive_weights(weights)
    };
    assert(rows * cols == cols * rows) by (nonlinear_arith);
    assert forall|r: int, c: int| 0 <= r < rows && 0 <= c < cols implies #[trigger] cell(g, cols, r, c) <= 0
        && cell(other, cols, r, c) <= 0 by {
        lemma_cell_index(rows, cols, r, c);
        let i = r * cols + c;
        assert(weights[i] == Weight::BB || weights[i] == Weight::WW);
    }
    assert forall|r: int, c: int| 0 <= r < rows && 0 <= c < cols implies #[trigger] cell(other, cols, r, c)
        <= 0 by {
        assert(cell(g, cols, r, c) <= 0);
    }
    // one cell of one of the two grids weighs 0, so the score is at least 0
    assert(rect_sum(g, cols, 0, 1, 0, 0) == 0);
    assert(col_sum(g, cols, 0, 0, 0) == 0);
    assert(rect_sum(other, cols, 0, 1, 0, 0) == 0);
    assert(col_sum(other, cols, 0, 0, 0) == 0);
    assert(rows * cols >= 1) by (nonlinear_arith)
        requires
            rows >= 1,
            cols >= 1,
    ;
    assert(0 * cols == 0);
    assert(cell(g, cols, 0, 0) == g[0]);
    assert(cell(other, cols, 0, 0) == other[0]);
    assert(col_sum(g, cols, 0, 1, 0) == g[0]);
    assert(col_sum(other, cols, 0, 1, 0) == other[0]);
    assert(rect_sum(g, cols, 0, 1, 0, 1) == g[0]);
    assert(rect_sum(other, cols, 0, 1, 0, 1) == other[0]);
    assert(weights[0] == Weight::BB || weights[0] == Weight::WW);
    assert(score >= 0);
    lemma_rect_sum_nonpositive(
        g,
        rows,
        cols,
        rect.y as int,
        rect.y + rect.height,
        rect.x as int,
        rect.x + rect.width,
    );
    assert forall|i: int| 0 <= i < reference.pixels@.len() implies (#[trigger] painted(
        reference.pixels@,
        cols,
        rect,
    )[i] > 0) == (reference.pixels@[i] > 0) by {
        if rect.covers(row_of(i, cols), col_of(i, cols)) {
            let r = row_of(i, cols);
            let c = col_of(i, cols);
            lemma_fundamental_div_mod(i, cols);
            lemma_mod_bound(i, cols);
            assert(i == r * cols + c) by (nonlinear_arith)
                requires
                    i == cols * r + c,
            ;
            assert(cell(g, cols, r, c) == 0);
            assert(g[i] == 0);
            assert(weights[i] == Weight::BB || weights[i] == Weight::WW);
        }
    }
}

/// The grey level that shows a difference weight: white where a pixel turned
/// white, black where it turned black, mid-grey where it stayed.
pub open spec fn weight_pixel(w: Weight) -> u8 {
    match w {
        Weight::BB | Weight::WW => 128,
        Weight::BW => 255,
        Weight::WB => 0,
    }
}

/// A `rows` x `cols` picture of the difference weights: pixel `i` shows
/// `weights[i]`, and the pixels past the weights stay mid-grey. `None` when
/// there are more weights than pixels.
pub fn weight2frame(weights: &[Weight], rows: usize, cols: usize) -> (res: Option<Frame>)
    requires
        rows * cols <= usize::MAX,
    ensures
        res is Some <==> weights.len() <= rows * cols,
        res matches Some(f) ==> {
            &&& f.wf()
            &&& f.width == cols
            &&& f.height == rows
            &&& forall|i: int|
                0 <= i < rows * cols ==> #[trigger] f.pixels@[i] == if i < weights.len() {
                    weight_pixel(weights@[i])
                } else {
                    128u8
                }
        },
{
    let n = rows * cols;
    if weights.len() > n {
        return None;
    }
    let mut pixels: Vec<u8> = Vec::new();
    let mut i: usize = 0;
    while i < n
        invariant
            n == rows * cols,
            weights.len() <= n,
            i <= n,
            pixels@.len() == i,
            forall|k: int|
                0 <= k < i ==> #[trigger] pixels@[k] == if k < weights.len() {
                    weight_pixel(weights@[k])
                } else {
                    128u8
                },
        decreases n - i,
    {
        let v: u8 = if i < weights.len() {
            match weights[i] {
                Weight::BB | Weight::WW => 128,
                Weight::BW => 255,
                Weight::WB => 0,
            }
        } else {
            128
        };
        pixels.push(v);
        i = i + 1;
    }
    assert(rows * cols == cols * rows) by (nonlinear_arith);
    Some(Frame { width: cols, height: rows, pixels })
}

} // verus!
