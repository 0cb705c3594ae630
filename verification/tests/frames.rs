use rectenc::{frames2rect, rect2frame, weight2frame, Frame, FrameError, Rect, Weight};
use rectenc::Weight::{BB, BW, WB, WW};

fn frame(width: usize, height: usize, white: &[usize]) -> Frame {
    let mut px = vec![0u8; width * height];
    for &i in white {
        px[i] = 255;
    }
    Frame::from_pixels(width, height, px).unwrap()
}

#[test]
fn from_pixels_checks_the_length() {
    assert!(Frame::from_pixels(2, 2, vec![0; 4]).is_some());
    assert!(Frame::from_pixels(2, 2, vec![0; 5]).is_none());
    assert!(Frame::from_pixels(usize::MAX, 2, vec![]).is_none());
}

#[test]
fn black_frame_is_all_zero() {
    let f = Frame::black(3, 2);
    assert_eq!((f.width, f.height), (3, 2));
    assert_eq!(f.pixels, vec![0; 6]);
}

#[test]
fn rect2frame_paints_white_and_clips() {
    let mut f = Frame::black(4, 3);
    rect2frame(&mut f, &Rect { x: 1, y: 1, width: 2, height: 5, sign: true });
    assert_eq!(f.pixels, vec![0, 0, 0, 0, 0, 255, 255, 0, 0, 255, 255, 0]);
}

#[test]
fn rect2frame_paints_black() {
    let mut f = Frame::from_pixels(4, 3, vec![255; 12]).unwrap();
    rect2frame(&mut f, &Rect { x: 3, y: 2, width: 9, height: 9, sign: false });
    let mut expected = vec![255; 12];
    expected[11] = 0;
    assert_eq!(f.pixels, expected);
}

#[test]
fn rect2frame_empty_or_outside_changes_nothing() {
    let mut f = frame(4, 3, &[5]);
    rect2frame(&mut f, &Rect { x: 0, y: 0, width: 0, height: 3, sign: true });
    rect2frame(&mut f, &Rect { x: 4, y: 0, width: 2, height: 3, sign: true });
    rect2frame(&mut f, &Rect { x: 0, y: 3, width: 4, height: 1, sign: true });
    assert_eq!(f.pixels, frame(4, 3, &[5]).pixels);
}

#[test]
fn frames2rect_finds_the_new_block() {
    let reference = Frame::black(4, 3);
    let current = frame(4, 3, &[1, 2, 5, 6]);
    let (r, picture) = frames2rect(&reference, &current).unwrap();
    assert_eq!(r, Rect { x: 1, y: 0, width: 2, height: 2, sign: true });
    assert_eq!((picture.width, picture.height), (4, 3));
    assert_eq!(picture.pixels, vec![128, 255, 255, 128, 128, 255, 255, 128, 128, 128, 128, 128]);
}

#[test]
fn frames2rect_one_row_example() {
    let reference = Frame::from_pixels(3, 1, vec![0, 0, 0]).unwrap();
    let current = Frame::from_pixels(3, 1, vec![0, 255, 0]).unwrap();
    let (r, picture) = frames2rect(&reference, &current).unwrap();
    assert_eq!(r, Rect { x: 1, y: 0, width: 1, height: 1, sign: true });
    assert_eq!((picture.width, picture.height), (3, 1));
    assert_eq!(picture.pixels, vec![128, 255, 128]);
}

#[test]
fn frames2rect_weights_compare_pixel_by_pixel() {
    let reference = frame(2, 1, &[0, 1]);
    let current = frame(2, 1, &[1]);
    let (_, picture) = frames2rect(&reference, &current).unwrap();
    assert_eq!(picture.pixels, vec![0, 128]);
}

#[test]
fn frames2rect_rejects_a_smaller_current_frame() {
    let reference = Frame::black(4, 3);
    assert_eq!(frames2rect(&reference, &Frame::black(3, 3)).err(), Some(FrameError::SizeMismatch));
    assert_eq!(frames2rect(&reference, &Frame::black(4, 2)).err(), Some(FrameError::SizeMismatch));
}

#[test]
fn frames2rect_accepts_a_larger_current_frame() {
    let reference = Frame::black(2, 1);
    let current = frame(3, 2, &[1]);
    let (r, picture) = frames2rect(&reference, &current).unwrap();
    assert_eq!(picture.pixels, vec![128, 255]);
    assert_eq!(r, Rect { x: 1, y: 0, width: 1, height: 1, sign: true });
}

#[test]
fn weight2frame_shows_the_weights() {
    let f = weight2frame(&[BB, WW, BW, WB], 2, 2).unwrap();
    assert_eq!((f.width, f.height), (2, 2));
    assert_eq!(f.pixels, vec![128, 128, 255, 0]);
}

#[test]
fn weight2frame_fills_missing_weights_with_grey_and_refuses_extra_ones() {
    let f = weight2frame(&[Weight::BW], 1, 2).unwrap();
    assert_eq!(f.pixels, vec![255, 128]);
    assert!(weight2frame(&[Weight::BW; 3], 1, 2).is_none());
}

#[test]
fn rect2frame_clips_a_huge_rectangle() {
    let mut f = Frame::black(2, 2);
    rect2frame(&mut f, &Rect { x: 1, y: 0, width: 50_000, height: 50_000, sign: true });
    assert_eq!(f.pixels, vec![0, 255, 0, 255]);
}

#[test]
fn rect2frame_twice_is_once() {
    let r = Rect { x: 1, y: 1, width: 2, height: 1, sign: true };
    let mut once = frame(4, 3, &[0]);
    rect2frame(&mut once, &r);
    let mut twice = frame(4, 3, &[0]);
    rect2frame(&mut twice, &r);
    rect2frame(&mut twice, &r);
    assert_eq!(once.pixels, twice.pixels);
}

#[test]
fn rect2frame_same_colour_order_does_not_matter() {
    let a = Rect { x: 0, y: 0, width: 2, height: 2, sign: false };
    let b = Rect { x: 1, y: 1, width: 3, height: 2, sign: false };
    let mut f1 = Frame::from_pixels(4, 3, vec![255; 12]).unwrap();
    rect2frame(&mut f1, &a);
    rect2frame(&mut f1, &b);
    let mut f2 = Frame::from_pixels(4, 3, vec![255; 12]).unwrap();
    rect2frame(&mut f2, &b);
    rect2frame(&mut f2, &a);
    assert_eq!(f1.pixels, f2.pixels);
}

#[test]
fn frames2rect_without_difference_changes_no_colour() {
    for white in [&[][..], &[0, 1, 2, 3, 4, 5][..], &[1, 4, 5][..]] {
        let reference = frame(3, 2, white);
        let current = frame(3, 2, white);
        let (r, _) = frames2rect(&reference, &current).unwrap();
        let mut painted = frame(3, 2, white);
        rect2frame(&mut painted, &r);
        for i in 0..6 {
            assert_eq!(painted.pixels[i] > 0, reference.pixels[i] > 0);
        }
    }
}
