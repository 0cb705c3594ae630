//! The coded stream: a metadata rectangle followed, frame after frame, by the
//! rectangles painted onto a reference that starts all black.
//!
//! The metadata rectangle holds the frame rate's bits in `x`, the number of
//! rectangles per frame in `y`, and the frame size in `width` and `height`.

use vstd::prelude::*;
use vstd::arithmetic::div_mod::{lemma_fundamental_div_mod, lemma_mod_add_multiples_vanish};
use crate::diff::best_rect_spec;
use crate::frame::{
    blank, difference_weights, frames2rect, lemma_painted_all_append, painted, painted_all, rect2frame,
    weight_picture,
    Frame, FrameError,
};
use crate::rect::Rect;

verus! {

/// The metadata rectangle that opens a stream.
pub open spec fn metadata_rect_spec(fps_bits: u32, rect_count: u8, width: u32, height: u32) -> Rect {
    Rect { x: fps_bits, y: rect_count as u32, width, height, sign: true }
}

/// The metadata rectangle that opens a stream.
pub fn metadata_rect(fps_bits: u32, rect_count: u8, width: u32, height: u32) -> (r: Rect)
    ensures
        r == metadata_rect_spec(fps_bits, rect_count, width, height),
{
    Rect { x: fps_bits, y: rect_count as u32, width, height, sign: true }
}

/// The number of whole frames that a stream holds (a trailing partial frame
/// does not count).
pub open spec fn stream_frame_count(rects: Seq<Rect>) -> int {
    (rects.len() - 1) / (rects[0].y as int)
}

/// The frame that a stream shows after its first `k` frames: all the
/// rectangles of those frames painted, in order, onto a black frame.
pub open spec fn stream_frame(rects: Seq<Rect>, k: int) -> Seq<u8> {
    let meta = rects[0];
    painted_all(
        blank(meta.width * meta.height),
        meta.width as int,
        rects.subrange(1, 1 + k * meta.y),
    )
}

/// A stream that can be decoded: it opens with a metadata rectangle whose
/// rectangle count is neither 0 nor `u32::MAX` (the value that marks a stream
/// coded adaptively), its frames fit in memory, and every rectangle of its
/// whole frames can be drawn.
pub open spec fn decodable(rects: Seq<Rect>) -> bool {
    &&& rects.len() >= 1
    &&& rects[0].y != 0
    &&& rects[0].y != u32::MAX
    &&& rects[0].width * rects[0].height <= usize::MAX
    &&& forall|i: int|
        1 <= i < 1 + stream_frame_count(rects) * rects[0].y ==> (#[trigger] rects[i]).drawable()
}

/// Painting one more rectangle extends `painted_all`.
proof fn lemma_painted_all_push(px: Seq<u8>, width: int, rects: Seq<Rect>, lo: int, hi: int)
    requires
        0 <= lo <= hi < rects.len(),
    ensures
        painted_all(px, width, rects.subrange(lo, hi + 1)) == painted(
            painted_all(px, width, rects.subrange(lo, hi)),
            width,
            rects[hi],
        ),
{
    assert(rects.subrange(lo, hi + 1).drop_last() =~= rects.subrange(lo, hi));
}

/// Decodes a stream into its frames: frame `i` is the stream's frame after its
/// first `i + 1` frames, of the size that the metadata gives.
pub fn decode_frames(rectangles: &[Rect]) -> (frames: Vec<Frame>)
    requires
        decodable(rectangles@),
    ensures
        frames@.len() == stream_frame_count(rectangles@),
        forall|i: int|
            0 <= i < frames@.len() ==> {
                &&& (#[trigger] frames@[i]).wf()
                &&& frames@[i].width == rectangles@[0].width
                &&& frames@[i].height == rectangles@[0].height
                &&& frames@[i].pixels@ == stream_frame(rectangles@, i + 1)
            },
{
    let ghost rs = rectangles@;
    let metadata = rectangles[0];
    let width = metadata.width as usize;
    let height = metadata.height as usize;
    let rect_count = metadata.y as usize;
    let frame_count = (rectangles.len() - 1) / rect_count;
    proof {
        lemma_fundamental_div_mod(rectangles.len() - 1, rect_count as int);
        assert(frame_count * rect_count <= rectangles.len() - 1) by (nonlinear_arith)
            requires
                rectangles.len() - 1 == rect_count * frame_count + (rectangles.len() - 1) % (
                rect_count as int),
                (rectangles.len() - 1) % (rect_count as int) >= 0,
        ;
    }
    let mut current = Frame::black(width, height);
    let mut frames: Vec<Frame> = Vec::new();
    let mut idx: usize = 1;
    let mut i: usize = 0;
    while i < frame_count
        invariant
            rs == rectangles@,
            decodable(rs),
            metadata == rs[0],
            width == metadata.width,
            height == metadata.height,
            rect_count == metadata.y,
            frame_count == stream_frame_count(rs),
            frame_count * rect_count <= rs.len() - 1,
            i <= frame_count,
            idx == 1 + i * rect_count,
            current.wf(),
            current.width == width,
            current.height == height,
            current.pixels@ == painted_all(blank(width * height), width as int, rs.subrange(1, idx as int)),
            frames@.len() == i,
            forall|k: int|
                0 <= k < i ==> {
                    &&& (#[trigger] frames@[k]).wf()
                    &&& frames@[k].width == width
                    &&& frames@[k].height == height
                    &&& frames@[k].pixels@ == stream_frame(rs, k + 1)
                },
        decreases frame_count - i,
    {
        assert((i + 1) * rect_count <= frame_count * rect_count) by (nonlinear_arith)
            requires
                i + 1 <= frame_count,
        ;
        let mut j: usize = 0;
        while j < rect_count
            invariant
                rs == rectangles@,
                decodable(rs),
                metadata == rs[0],
                width == metadata.width,
                height == metadata.height,
                rect_count == metadata.y,
                frame_count == stream_frame_count(rs),
                frame_count * rect_count <= rs.len() - 1,
                i < frame_count,
                (i + 1) * rect_count <= frame_count * rect_count,
                j <= rect_count,
                idx == 1 + i * rect_count + j,
                current.wf(),
                current.width == width,
                current.height == height,
                current.pixels@ == painted_all(blank(width * height), width as int, rs.subrange(1, idx as int)),
            decreases rect_count - j,
        {
            assert(idx < 1 + frame_count * rect_count) by (nonlinear_arith)
                requires
                    idx == 1 + i * rect_count + j,
                    j < rect_count,
                    (i + 1) * rect_count <= frame_count * rect_count,
            ;
            assert(rs[idx as int].drawable());
            proof {
                lemma_painted_all_push(blank(width * height), width as int, rs, 1, idx as int);
            }
            rect2frame(&mut current, &rectangles[idx]);
            idx = idx + 1;
            j = j + 1;
        }
        assert(idx == 1 + (i + 1) * rect_count) by (nonlinear_arith)
            requires
                idx == 1 + i * rect_count + rect_count,
        ;
        frames.push(current.duplicate());
        i = i + 1;
    }
    frames
}

/// Encodes frames one after the other. `reference` is what a decoder shows
/// after the rectangles written so far; `rects` is the stream written so far.
pub struct Encoder {
    pub reference: Frame,
    pub rect_count: u8,
    pub rects: Vec<Rect>,
}

impl Encoder {
    /// The encoder's state is consistent: the stream opens with the metadata
    /// of the reference's size and the rectangle count, holds whole frames
    /// only, and the reference is the stream's rectangles painted onto black.
    pub open spec fn wf(&self) -> bool {
        &&& self.rects@.len() >= 1
        &&& self.reference.wf()
        &&& self.reference.width == self.rects@[0].width
        &&& self.reference.height == self.rects@[0].height
        &&& self.rects@[0].y == self.rect_count
        &&& self.reference.height > 0 ==> self.reference.width > 0
        &&& self.reference.height * self.reference.width * 2 <= i32::MAX
        &&& self.rect_count > 0 ==> (self.rects@.len() - 1) % (self.rect_count as int) == 0
        &&& forall|i: int| 1 <= i < self.rects@.len() ==> (#[trigger] self.rects@[i]).drawable()
        &&& self.reference.pixels@ == painted_all(
            blank(self.reference.width * self.reference.height),
            self.reference.width as int,
            self.rects@.subrange(1, self.rects@.len() as int),
        )
    }

    /// The reference just before the rectangle `j` of a frame is painted:
    /// the frame's first `j` rectangles painted onto the reference `start`.
    pub open spec fn reference_before(start: Seq<u8>, width: int, new_rects: Seq<Rect>, j: int) -> Seq<u8> {
        painted_all(start, width, new_rects.take(j))
    }

    /// A new encoder for frames of the given size, `rect_count` rectangles per
    /// frame; the stream starts with the metadata rectangle.
    pub fn new(width: u32, height: u32, fps_bits: u32, rect_count: u8) -> (e: Encoder)
        requires
            height > 0 ==> width > 0,
            height * width * 2 <= i32::MAX,
        ensures
            e.wf(),
            e.rect_count == rect_count,
            e.rects@ == seq![metadata_rect_spec(fps_bits, rect_count, width, height)],
            e.reference.pixels@ == blank(width * height),
    {
        assert(width * height == height * width) by (nonlinear_arith);
        let reference = Frame::black(width as usize, height as usize);
        let mut rects: Vec<Rect> = Vec::new();
        rects.push(metadata_rect(fps_bits, rect_count, width, height));
        assert(rects@.subrange(1, 1) =~= Seq::<Rect>::empty());
        Encoder { reference, rect_count, rects }
    }

    /// Encodes the next frame: `rect_count` times, finds the rectangle that
    /// best compensates the difference between the reference and `target`,
    /// writes it to the stream and paints it onto the reference. Returns the
    /// picture of the difference of each step (see `frames2rect`). Fails, changing nothing, when
    /// `target` lacks pixels of the reference.
    #[verifier::spinoff_prover]
    #[verifier::rlimit(40)]
    pub fn encode(&mut self, target: &Frame) -> (res: Result<Vec<Frame>, FrameError>)
        requires
            old(self).wf(),
            target.wf(),
        ensures
            final(self).wf(),
            final(self).rect_count == old(self).rect_count,
            final(self).reference.width == old(self).reference.width,
            final(self).reference.height == old(self).reference.height,
            res is Err <==> (old(self).rect_count > 0 && (old(self).reference.height > 0
                && old(self).reference.width > 0) && (target.height < old(self).reference.height
                || target.width < old(self).reference.width)),
            res is Err ==> *final(self) == *old(self),
            res matches Ok(pictures) ==> {
                let start = old(self).reference.pixels@;
                let rows = old(self).reference.height as int;
                let cols = old(self).reference.width as int;
                let n = old(self).rects@.len() as int;
                let new_rects = final(self).rects@.subrange(n, final(self).rects@.len() as int);
                &&& final(self).rects@.len() == n + old(self).rect_count
                &&& final(self).rects@.subrange(0, n) == old(self).rects@
                &&& final(self).rects@[0] == old(self).rects@[0]
                &&& pictures@.len() == old(self).rect_count
                &&& forall|j: int|
                    0 <= j < old(self).rect_count ==> {
                        let before = Encoder::reference_before(start, cols, new_rects, j);
                        let diff = difference_weights(before, rows, cols, target.pixels@, target.width as int);
                        &&& (#[trigger] pictures@[j]).pixels@ == weight_picture(diff)
                        &&& pictures@[j].wf()
                        &&& pictures@[j].width == cols
                        &&& pictures@[j].height == rows
                        &&& new_rects[j] == best_rect_spec(diff, rows, cols)
                    }
                &&& final(self).reference.pixels@ == painted_all(start, cols, new_rects)
            },
    {
        let ghost old_self = *self;
        let ghost start = self.reference.pixels@;
        let ghost n = self.rects@.len() as int;
        let rows = self.reference.height;
        let cols = self.reference.width;
        let mut pictures: Vec<Frame> = Vec::new();
        let mut j: u8 = 0;
        assert(self.rects@.subrange(0, n) =~= old_self.rects@);
        assert(painted_all(start, cols as int, self.rects@.subrange(n, n)) == start) by {
            assert(self.rects@.subrange(n, n).len() == 0);
        }
        while j < self.rect_count
            invariant
                old_self == *old(self),
                0 <= j <= self.rect_count,
                self.rect_count == old_self.rect_count,
                rows == self.reference.height,
                cols == self.reference.width,
                rows == old_self.reference.height,
                cols == old_self.reference.width,
                target.wf(),
                old_self.wf(),
                start == old_self.reference.pixels@,
                n == old_self.rects@.len(),
                self.reference.wf(),
                self.rects@.len() == n + j,
                self.rects@.subrange(0, n) == old_self.rects@,
                j == 0 ==> *self == old_self,
                forall|i: int| 1 <= i < self.rects@.len() ==> (#[trigger] self.rects@[i]).drawable(),
                j > 0 ==> (rows == 0 || cols == 0 || (rows <= target.height && cols <= target.width)),
                self.reference.pixels@ == painted_all(start, cols as int, self.rects@.subrange(n, n + j)),
                pictures@.len() == j,
                forall|k: int|
                    0 <= k < j ==> {
                        let before = Encoder::reference_before(
                            start,
                            cols as int,
                            self.rects@.subrange(n, n + j),
                            k,
                        );
                        let diff = difference_weights(
                            before,
                            rows as int,
                            cols as int,
                            target.pixels@,
                            target.width as int,
                        );
                        &&& (#[trigger] pictures@[k]).pixels@ == weight_picture(diff)
                        &&& pictures@[k].wf()
                        &&& pictures@[k].width == cols
                        &&& pictures@[k].height == rows
                        &&& self.rects@[n + k] == best_rect_spec(diff, rows as int, cols as int)
                    },
            decreases old_self.rect_count - j,
        {
            match frames2rect(&self.reference, target) {
                Ok((rect, picture)) => {
                    let ghost before_rects = self.rects@;
                    let ghost before_px = self.reference.pixels@;
                    let ghost before_pictures = pictures@;
                    proof {
                        if rows > 0 {
                            assert(cols <= rows * cols && rows <= rows * cols) by (nonlinear_arith)
                                requires
                                    rows >= 1,
                                    cols >= 1,
                            ;
                        }
                        assert(rect.drawable());
                    }
                    self.rects.push(rect);
                    rect2frame(&mut self.reference, &rect);
                    pictures.push(picture);
                    proof {
                        let new_j = self.rects@.subrange(n, n + j + 1);
                        assert(new_j.drop_last() =~= before_rects.subrange(n, n + j));
                        assert(new_j.last() == rect);
                        assert(self.rects@.subrange(0, n) =~= before_rects.subrange(0, n));
                        assert forall|i: int| 1 <= i < self.rects@.len() implies (
                        #[trigger] self.rects@[i]).drawable() by {
                            if i < before_rects.len() {
                                assert(self.rects@[i] == before_rects[i]);
                            }
                        }
                        assert forall|k: int| 0 <= k < j + 1 implies {
                            let before = Encoder::reference_before(start, cols as int, new_j, k);
                            let diff = difference_weights(
                                before,
                                rows as int,
                                cols as int,
                                target.pixels@,
                                target.width as int,
                            );
                            &&& (#[trigger] pictures@[k]).pixels@ == weight_picture(diff)
                        &&& pictures@[k].wf()
                        &&& pictures@[k].width == cols
                        &&& pictures@[k].height == rows
                            &&& self.rects@[n + k] == best_rect_spec(diff, rows as int, cols as int)
                        } by {
                            assert(new_j.take(k) =~= before_rects.subrange(n, n + j).take(k));
                            if k < j {
                                assert(pictures@[k] == before_pictures[k]);
                                assert(self.rects@[n + k] == before_rects[n + k]);
                            } else {
                                assert(new_j.take(k) =~= before_rects.subrange(n, n + j));
                                assert(pictures@[k] == picture);
                                assert(picture.pixels@ == weight_picture(
                                    difference_weights(before_px, rows as int, cols as int, target.pixels@, target.width as int),
                                ));
                            }
                        }
                    }
                },
                Err(e) => {
                    assert(j == 0);
                    return Err(e);
                },
            }
            j = j + 1;
        }
        proof {
            let rc = self.rect_count as int;
            let all = self.rects@;
            let new_rects = all.subrange(n, n + rc);
            assert(all.subrange(1, n + rc) =~= old_self.rects@.subrange(1, n) + new_rects);
            lemma_painted_all_append(
                blank(cols * rows),
                cols as int,
                old_self.rects@.subrange(1, n),
                new_rects,
            );
            if rc > 0 {
                lemma_mod_add_multiples_vanish(n - 1, rc);
            }
            assert(all[0] == old_self.rects@[0]);
            assert(all.len() == n + rc);
            assert(all.subrange(n, all.len() as int) == new_rects);
            assert(all.subrange(0, n) == old_self.rects@);
            assert(pictures@.len() == rc);
            assert(self.reference.pixels@ == painted_all(start, cols as int, new_rects));
            assert forall|k: int| 0 <= k < rc implies {
                let before = Encoder::reference_before(start, cols as int, new_rects, k);
                let diff = difference_weights(
                    before,
                    rows as int,
                    cols as int,
                    target.pixels@,
                    target.width as int,
                );
                &&& (#[trigger] pictures@[k]).pixels@ == weight_picture(diff)
                &&& pictures@[k].wf()
                &&& pictures@[k].width == cols
                &&& pictures@[k].height == rows
                &&& new_rects[k] == best_rect_spec(diff, rows as int, cols as int)
            } by {
                assert(self.rects@[n + k] == new_rects[k]);
            }
        }
        Ok(pictures)
    }
}


/// What an encoder has written is a stream that can be decoded, made of whole
/// frames, and the stream's frame after all of them is the encoder's reference:
/// decoding gives back, as its last frame, what the encoder painted.
pub proof fn lemma_decoding_replays_encoder(enc: Encoder)
    requires
        enc.wf(),
        enc.rect_count > 0,
    ensures
        decodable(enc.rects@),
        1 + stream_frame_count(enc.rects@) * enc.rect_count == enc.rects@.len(),
        stream_frame(enc.rects@, stream_frame_count(enc.rects@)) == enc.reference.pixels@,
{
    let rs = enc.rects@;
    let rc = enc.rect_count as int;
    lemma_fundamental_div_mod(rs.len() - 1, rc);
    assert(stream_frame_count(rs) * rc == rc * stream_frame_count(rs)) by (nonlinear_arith);
    assert(enc.reference.width * enc.reference.height == enc.reference.height * enc.reference.width)
        by (nonlinear_arith);
}

/// Appending rectangles to a stream leaves the frames it already holds as they
/// were: the stream's frame after its first `k` frames is the same before and
/// after.
pub proof fn lemma_stream_frame_prefix(rects: Seq<Rect>, more: Seq<Rect>, k: int)
    requires
        rects.len() >= 1,
        0 <= k,
        1 + k * rects[0].y <= rects.len(),
    ensures
        stream_frame(rects + more, k) == stream_frame(rects, k),
{
    assert(0 <= k * rects[0].y) by (nonlinear_arith)
        requires
            0 <= k,
    ;
    assert((rects + more)[0] == rects[0]);
    assert((rects + more).subrange(1, 1 + k * rects[0].y) =~= rects.subrange(1, 1 + k * rects[0].y));
}


/// The rectangles of a frame are chosen in turn, each against the reference
/// as it stands at that moment: the first against the frame's starting
/// reference, each next one against the reference the previous one was
/// chosen against with the previous one painted on it; and once all are
/// painted, the reference is the start with all of them painted in order.
pub proof fn lemma_rectangles_chosen_in_turn(start: Seq<u8>, width: int, rects: Seq<Rect>, j: int)
    requires
        0 <= j < rects.len(),
    ensures
        Encoder::reference_before(start, width, rects, 0) == start,
        Encoder::reference_before(start, width, rects, j + 1) == painted(
            Encoder::reference_before(start, width, rects, j),
            width,
            rects[j],
        ),
        Encoder::reference_before(start, width, rects, rects.len() as int) == painted_all(start, width, rects),
{
    assert(rects.take(0) =~= Seq::<Rect>::empty());
    assert(rects.take(j + 1).drop_last() =~= rects.take(j));
    assert(rects.take(rects.len() as int) =~= rects);
}

} // verus!
