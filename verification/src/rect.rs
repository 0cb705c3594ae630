//! The rectangles that a video is coded as.

use vstd::prelude::*;

verus! {

/// A filled axis-aligned rectangle: columns `x..x + width`, rows `y..y + height`,
/// painted white when `sign` holds and black otherwise.
///
/// The first rectangle of a coded stream carries the stream's metadata instead
/// (see `codec`).
#[derive(Clone, Copy, Debug, PartialEq, Eq, Structural)]
pub struct Rect {
    pub x: u32,
    pub y: u32,
    pub width: u32,
    pub height: u32,
    pub sign: bool,
}

impl Rect {
    /// The empty rectangle at the origin with the given sign.
    pub open spec fn empty_spec(sign: bool) -> Rect {
        Rect { x: 0, y: 0, width: 0, height: 0, sign }
    }

    /// The empty rectangle at the origin with the given sign.
    pub fn empty(sign: bool) -> (r: Rect)
        ensures
            r == Rect::empty_spec(sign),
    {
        Rect { x: 0, y: 0, width: 0, height: 0, sign }
    }

    /// The rectangle's corners stay within `i32`, the coordinate type of the
    /// drawing routine that paints it.
    pub open spec fn drawable(self) -> bool {
        &&& self.x + self.width <= i32::MAX
        &&& self.y + self.height <= i32::MAX
    }

    /// Whether the pixel at `(row, col)` lies inside the rectangle.
    pub open spec fn covers(self, row: int, col: int) -> bool {
        &&& self.y <= row < self.y + self.height
        &&& self.x <= col < self.x + self.width
    }
}

impl Default for Rect {
    fn default() -> (r: Rect)
        ensures
            r == Rect::empty_spec(false),
    {
        Rect::empty(false)
    }
}

} // verus!
