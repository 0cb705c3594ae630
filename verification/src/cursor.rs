//! Which frames to read next when walking a video two frames at a time.
//!
//! Reading the frames is left to the caller; this module decides, from the
//! frames already buffered and the position in the video, what to read.

use vstd::prelude::*;

verus! {

/// How many frames a preview walks.
pub const PREVIEW_FRAMES: usize = 512;

/// What the reader does before handing out the next pair of frames.
#[derive(Clone, Copy, Debug, PartialEq, Eq, Structural)]
pub enum FrameStep {
    /// The buffer is empty: read two frames.
    Start,
    /// Drop the older buffered frame and read the next one.
    Advance,
    /// No pair is left.
    Finish,
}

/// The position of a reader in a video of `total_frames` frames.
#[derive(Clone, Copy, Debug, PartialEq, Eq, Structural)]
pub struct FrameCursor {
    pub current_index: usize,
    pub total_frames: usize,
}

impl FrameCursor {
    /// A cursor at the start of a video of `total_frames` frames; a preview
    /// walks `PREVIEW_FRAMES` frames whatever the video's length (the reader
    /// stops on its own where a shorter video ends). `None` for a video
    /// without frames.
    pub fn new(total_frames: usize, preview: bool) -> (c: Option<FrameCursor>)
        ensures
            c is None <==> total_frames == 0,
            c matches Some(c) ==> c.current_index == 0 && c.total_frames == if preview {
                PREVIEW_FRAMES
            } else {
                total_frames
            },
    {
        if total_frames == 0 {
            return None;
        }
        let total = if preview { PREVIEW_FRAMES } else { total_frames };
        Some(FrameCursor { current_index: 0, total_frames: total })
    }

    /// Decides the next step and moves the cursor accordingly.
    /// `current_index` counts the frames read so far. With an empty buffer,
    /// read the first two frames; while a frame of the video is left to read,
    /// drop the oldest buffered frame and read one more; otherwise stop where
    /// it is. So every frame after the first ends up as the newer frame of a
    /// pair.
    pub fn step(&mut self, buffer_empty: bool) -> (s: FrameStep)
        requires
            buffer_empty ==> old(self).current_index <= usize::MAX - 2,
        ensures
            final(self).total_frames == old(self).total_frames,
            buffer_empty ==> s == FrameStep::Start && final(self).current_index == old(self).current_index + 2,
            !buffer_empty && old(self).current_index < old(self).total_frames ==> s == FrameStep::Advance
                && final(self).current_index == old(self).current_index + 1,
            !buffer_empty && old(self).current_index >= old(self).total_frames ==> s == FrameStep::Finish
                && final(self).current_index == old(self).current_index,
    {
        if buffer_empty {
            self.current_index = self.current_index + 2;
            FrameStep::Start
        } else if self.current_index < self.total_frames {
            self.current_index = self.current_index + 1;
            FrameStep::Advance
        } else {
            FrameStep::Finish
        }
    }
}

} // verus!
