//! A detection: one box seen on one frame, in center form.
use vstd::prelude::*;
use crate::geometry::{bounded, Corners};

verus! {

/// A box given by its center and its size, each in millionths of the frame
/// side (`500_000` is the middle of the frame). Sizes are not checked: a
/// negative width gives a degenerate box.
#[derive(Clone, Copy, Debug, PartialEq, Eq, Structural)]
pub struct Detection {
    pub x: i32,
    pub y: i32,
    pub width: i32,
    pub height: i32,
}

/// Corner form of a detection, in half-millionths:
/// `(2x - w, 2y - h, 2x + w, 2y + h)`, which is `(x - w/2, ..)` doubled.
pub open spec fn corners_of(d: Detection) -> Corners {
    (
        (2 * d.x - d.width) as i64,
        (2 * d.y - d.height) as i64,
        (2 * d.x + d.width) as i64,
        (2 * d.y + d.height) as i64,
    )
}

/// Center of a detection.
pub open spec fn center_of(d: Detection) -> (i32, i32) {
    (d.x, d.y)
}

/// The corners of every detection are exact and within what `iou` accepts.
pub proof fn lemma_corners_exact(d: Detection)
    ensures
        corners_of(d).0 == 2 * d.x - d.width,
        corners_of(d).1 == 2 * d.y - d.height,
        corners_of(d).2 == 2 * d.x + d.width,
        corners_of(d).3 == 2 * d.y + d.height,
        bounded(corners_of(d)),
{
}

impl Detection {
    pub fn new(x: i32, y: i32, width: i32, height: i32) -> (r: Detection)
        ensures
            r == (Detection { x, y, width, height }),
    {
        Detection { x, y, width, height }
    }

    pub fn x(&self) -> (r: i32)
        ensures
            r == self.x,
    {
        self.x
    }

    pub fn y(&self) -> (r: i32)
        ensures
            r == self.y,
    {
        self.y
    }

    pub fn width(&self) -> (r: i32)
        ensures
            r == self.width,
    {
        self.width
    }

    pub fn height(&self) -> (r: i32)
        ensures
            r == self.height,
    {
        self.height
    }

    /// Corner form, in half-millionths of the frame side.
    pub fn bbox(&self) -> (r: Corners)
        ensures
            r == corners_of(*self),
            bounded(r),
    {
        proof {
            lemma_corners_exact(*self);
        }
        let x2 = 2 * (self.x as i64);
        let y2 = 2 * (self.y as i64);
        let w = self.width as i64;
        let h = self.height as i64;
        (x2 - w, y2 - h, x2 + w, y2 + h)
    }

    pub fn center(&self) -> (r: (i32, i32))
        ensures
            r == center_of(*self),
    {
        (self.x, self.y)
    }
}

} // verus!
