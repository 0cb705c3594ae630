//! Lossy video coding with rectangles: each frame is approximated by painting a
//! few filled rectangles onto a binary reference frame, each rectangle being
//! the one that best covers the difference between the reference and the frame.

pub mod rect;
pub mod sums;
pub mod diff;
pub mod frame;
pub mod codec;
pub mod cursor;

pub use codec::{decode_frames, metadata_rect, Encoder};
pub use cursor::{FrameCursor, FrameStep};
pub use diff::{best_rect, kadane_1d, kadane_2d, Weight};
pub use frame::{frames2rect, rect2frame, weight2frame, Frame, FrameError};
pub use rect::Rect;
