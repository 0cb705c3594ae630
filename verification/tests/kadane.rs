use rectenc::{best_rect, kadane_1d, kadane_2d, Rect, Weight};
use rectenc::Weight::{BB, BW, WB, WW};

fn rect(x: u32, y: u32, width: u32, height: u32, sign: bool) -> Rect {
    Rect { x, y, width, height, sign }
}

#[test]
fn kadane_1d_classic() {
    assert_eq!(kadane_1d(&[-2, 1, -3, 4, -1, 2, 1, -5, 4]), (6, 3, 6));
}

#[test]
fn kadane_1d_all_negative_takes_largest_element() {
    assert_eq!(kadane_1d(&[-3, -1, -2]), (-1, 1, 1));
}

#[test]
fn kadane_1d_single_element() {
    assert_eq!(kadane_1d(&[5]), (5, 0, 0));
}

#[test]
fn kadane_1d_tie_keeps_earliest_end() {
    assert_eq!(kadane_1d(&[1, -1, 1]), (1, 0, 0));
    assert_eq!(kadane_1d(&[2, -2, 2]), (2, 0, 0));
}

#[test]
fn kadane_1d_tie_keeps_earliest_start() {
    assert_eq!(kadane_1d(&[0, 0, 5]), (5, 0, 2));
    assert_eq!(kadane_1d(&[0, 3, -3, 3]), (3, 0, 1));
}

#[test]
fn kadane_2d_single_cell_best() {
    let w = [1, -2, 3, -4, 5, -6, 7, -8, 9];
    assert_eq!(kadane_2d(&w, 3, 3, true), (rect(2, 2, 1, 1, true), 9));
}

#[test]
fn kadane_2d_classic_grid() {
    let w = [0, -2, -7, 0, 9, 2, -6, 2, -4, 1, -4, 1, -1, 8, 0, -2];
    assert_eq!(kadane_2d(&w, 4, 4, false), (rect(0, 1, 2, 3, false), 15));
}

#[test]
fn kadane_2d_tie_between_tops_keeps_the_last() {
    assert_eq!(kadane_2d(&[-1, -1, -1, -1], 2, 2, true), (rect(0, 1, 1, 1, true), -1));
}

#[test]
fn kadane_2d_no_rows_gives_empty_rect() {
    assert_eq!(kadane_2d(&[], 0, 5, true), (rect(0, 0, 0, 0, true), 0));
}

#[test]
fn kadane_2d_spans_zero_cells_between_gains() {
    assert_eq!(kadane_2d(&[3, 0, 0, 3], 2, 2, true), (rect(0, 0, 2, 2, true), 6));
}

#[test]
fn kadane_2d_result_is_no_worse_than_any_rectangle() {
    let w: Vec<i8> = (0..30).map(|i| ((i * 37 + 11) % 19) as i8 - 9).collect();
    let (r, score) = kadane_2d(&w, 5, 6, true);
    let sum = |t: usize, b: usize, l: usize, rr: usize| -> i32 {
        let mut s = 0i32;
        for row in t..b {
            for col in l..rr {
                s += w[row * 6 + col] as i32;
            }
        }
        s
    };
    for t in 0..5 {
        for b in t + 1..=5 {
            for l in 0..6 {
                for rr in l + 1..=6 {
                    assert!(sum(t, b, l, rr) <= score);
                }
            }
        }
    }
    let (x, y, wd, h) = (r.x as usize, r.y as usize, r.width as usize, r.height as usize);
    assert_eq!(sum(y, y + h, x, x + wd), score);
}

#[test]
fn best_rect_covers_pixels_turned_white() {
    let ws = [BB, BW, BW, BB, BB, BW, BW, BB, BB, BB, BB, BB];
    assert_eq!(best_rect(&ws, 3, 4), rect(1, 0, 2, 2, true));
}

#[test]
fn best_rect_covers_pixels_turned_black() {
    let ws = [WW, WB, WW, WW, WB, WW];
    assert_eq!(best_rect(&ws, 2, 3), rect(1, 0, 1, 2, false));
}

#[test]
fn best_rect_without_change_prefers_the_cheaper_polarity() {
    assert_eq!(best_rect(&[BB; 4], 2, 2), rect(0, 1, 1, 1, false));
    assert_eq!(best_rect(&[WW; 4], 2, 2), rect(0, 1, 1, 1, true));
}

#[test]
fn best_rect_empty_frame() {
    assert_eq!(best_rect(&[], 0, 0), rect(0, 0, 0, 0, true));
}

#[test]
fn best_rect_colour_swap_gives_the_same_rectangle_in_the_other_colour() {
    let swap = |w: &Weight| match w {
        BB => WW,
        WW => BB,
        BW => WB,
        WB => BW,
    };
    let cases: [&[Weight]; 3] = [
        &[BB, BW, BW, BB, BB, BW, BW, BB, BB, BB, BB, BB],
        &[WW, WB, WW, WW, WB, WW, BB, BB, BB, WW, WB, WW],
        &[BW, WB, WB, WB, BB, WW, BW, BW, WW, WW, BB, WB],
    ];
    for ws in cases {
        let swapped: Vec<Weight> = ws.iter().map(swap).collect();
        let a = best_rect(ws, 3, 4);
        let b = best_rect(&swapped, 3, 4);
        assert_eq!((a.x, a.y, a.width, a.height), (b.x, b.y, b.width, b.height));
        assert_eq!(b.sign, !a.sign);
    }
}
