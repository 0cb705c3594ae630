use rectenc::{decode_frames, metadata_rect, Encoder, Frame, FrameCursor, FrameError, FrameStep, Rect};

fn frame(width: usize, height: usize, white: &[usize]) -> Frame {
    let mut px = vec![0u8; width * height];
    for &i in white {
        px[i] = 255;
    }
    Frame::from_pixels(width, height, px).unwrap()
}

#[test]
fn metadata_rect_holds_the_stream_parameters() {
    assert_eq!(
        metadata_rect(30.0f32.to_bits(), 3, 640, 480),
        Rect { x: 30.0f32.to_bits(), y: 3, width: 640, height: 480, sign: true }
    );
}

#[test]
fn encoder_starts_with_metadata_and_black_reference() {
    let enc = Encoder::new(4, 3, 7, 2);
    assert_eq!(enc.rects, vec![Rect { x: 7, y: 2, width: 4, height: 3, sign: true }]);
    assert_eq!(enc.reference.pixels, vec![0; 12]);
}

#[test]
fn encoder_paints_the_best_rectangles() {
    let mut enc = Encoder::new(4, 3, 0, 1);
    let target = frame(4, 3, &[1, 2, 5, 6]);
    let pictures = enc.encode(&target).unwrap();
    assert_eq!(pictures.len(), 1);
    assert_eq!(pictures[0].pixels, vec![128, 255, 255, 128, 128, 255, 255, 128, 128, 128, 128, 128]);
    assert_eq!(enc.rects[1], Rect { x: 1, y: 0, width: 2, height: 2, sign: true });
    assert_eq!(enc.reference.pixels, target.pixels);
    enc.encode(&Frame::black(4, 3)).unwrap();
    assert_eq!(enc.rects[2], Rect { x: 0, y: 0, width: 3, height: 2, sign: false });
    assert_eq!(enc.reference.pixels, vec![0; 12]);
}

#[test]
fn encoder_uses_every_rectangle_of_a_frame() {
    let mut enc = Encoder::new(4, 3, 0, 2);
    let target = frame(4, 3, &[0, 4, 11]);
    enc.encode(&target).unwrap();
    assert_eq!(
        &enc.rects[1..],
        &[Rect { x: 0, y: 0, width: 1, height: 2, sign: true }, Rect { x: 3, y: 2, width: 1, height: 1, sign: true }]
    );
    assert_eq!(enc.reference.pixels, target.pixels);
}

#[test]
fn encoder_refuses_a_smaller_frame_and_keeps_its_state() {
    let mut enc = Encoder::new(4, 3, 0, 1);
    assert_eq!(enc.encode(&Frame::black(2, 3)).err(), Some(FrameError::SizeMismatch));
    assert_eq!(enc.rects.len(), 1);
}

#[test]
fn encoder_with_no_rectangles_per_frame_writes_nothing() {
    let mut enc = Encoder::new(4, 3, 0, 0);
    assert_eq!(enc.encode(&Frame::black(2, 3)).unwrap().len(), 0);
    assert_eq!(enc.rects.len(), 1);
}

#[test]
fn decoding_gives_back_the_encoder_references() {
    let targets = [frame(4, 3, &[1, 2, 5, 6]), frame(4, 3, &[0, 4, 11]), Frame::black(4, 3), frame(4, 3, &[3, 7, 11])];
    let mut enc = Encoder::new(4, 3, 25, 2);
    let mut references = Vec::new();
    for t in &targets {
        enc.encode(t).unwrap();
        references.push(enc.reference.pixels.clone());
    }
    let frames = decode_frames(&enc.rects);
    assert_eq!(frames.len(), targets.len());
    for (f, r) in frames.iter().zip(references.iter()) {
        assert_eq!((f.width, f.height), (4, 3));
        assert_eq!(&f.pixels, r);
    }
}

#[test]
fn decoding_accumulates_rectangles_and_drops_a_partial_frame() {
    let rects = [
        Rect { x: 0, y: 2, width: 3, height: 2, sign: true },
        Rect { x: 0, y: 0, width: 1, height: 1, sign: true },
        Rect { x: 2, y: 1, width: 1, height: 1, sign: true },
        Rect { x: 0, y: 0, width: 3, height: 1, sign: false },
        Rect { x: 9, y: 9, width: 0, height: 0, sign: true },
        Rect { x: 0, y: 0, width: 3, height: 2, sign: true },
    ];
    let frames = decode_frames(&rects);
    assert_eq!(frames.len(), 2);
    assert_eq!(frames[0].pixels, vec![255, 0, 0, 0, 0, 255]);
    assert_eq!(frames[1].pixels, vec![0, 0, 0, 0, 0, 255]);
}

#[test]
fn frame_cursor_refuses_an_empty_video() {
    assert!(FrameCursor::new(0, false).is_none());
    assert!(FrameCursor::new(0, true).is_none());
}

#[test]
fn frame_cursor_walks_every_frame() {
    // four frames give the pairs (0, 1), (1, 2) and (2, 3)
    let mut c = FrameCursor::new(4, false).unwrap();
    assert_eq!(c.total_frames, 4);
    assert_eq!(c.step(true), FrameStep::Start);
    assert_eq!(c.current_index, 2);
    assert_eq!(c.step(false), FrameStep::Advance);
    assert_eq!(c.current_index, 3);
    assert_eq!(c.step(false), FrameStep::Advance);
    assert_eq!(c.current_index, 4);
    assert_eq!(c.step(false), FrameStep::Finish);
    assert_eq!(c.current_index, 4);
}

#[test]
fn frame_cursor_two_frames_give_one_pair() {
    let mut c = FrameCursor::new(2, false).unwrap();
    assert_eq!(c.step(true), FrameStep::Start);
    assert_eq!(c.step(false), FrameStep::Finish);
}

#[test]
fn frame_cursor_preview_walks_the_preview_length() {
    let c = FrameCursor::new(3, true).unwrap();
    assert_eq!(c.total_frames, rectenc::cursor::PREVIEW_FRAMES);
    assert_eq!(c.current_index, 0);
    let c = FrameCursor::new(100_000, true).unwrap();
    assert_eq!(c.total_frames, rectenc::cursor::PREVIEW_FRAMES);
}

#[test]
fn appending_to_a_stream_keeps_its_earlier_frames() {
    let mut enc = Encoder::new(4, 3, 25, 1);
    enc.encode(&frame(4, 3, &[1, 2, 5, 6])).unwrap();
    let before = decode_frames(&enc.rects);
    enc.encode(&frame(4, 3, &[11])).unwrap();
    let after = decode_frames(&enc.rects);
    assert_eq!(before.len(), 1);
    assert_eq!(after.len(), 2);
    assert_eq!(after[0].pixels, before[0].pixels);
    assert_eq!(after[1].pixels, enc.reference.pixels);
}

#[test]
fn decoding_draws_a_rectangle_far_larger_than_the_frame() {
    let rects = [
        Rect { x: 0, y: 1, width: 2, height: 2, sign: true },
        Rect { x: 0, y: 0, width: 50_000, height: 50_000, sign: true },
    ];
    let frames = decode_frames(&rects);
    assert_eq!(frames.len(), 1);
    assert_eq!(frames[0].pixels, vec![255; 4]);
}
