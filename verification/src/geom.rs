//! Plane geometry over exact rationals: vectors, sizes and rectangles.

use vstd::prelude::*;

verus! {

use crate::rational::Frac;

/// A two-dimensional vector (or point) in viewport or scaled-image coordinates.
#[derive(Clone, Copy, PartialEq, Eq, Structural, Debug)]
pub struct Vec2 {
    pub x: Frac,
    pub y: Frac,
}

impl Vec2 {
    pub open spec fn wf(self) -> bool {
        self.x.wf() && self.y.wf()
    }

    /// The origin.
    pub fn zero() -> (r: Vec2)
        ensures
            r == (Vec2 { x: Frac { num: 0, den: 1 }, y: Frac { num: 0, den: 1 } }),
            r.wf(),
    {
        Vec2 { x: Frac { num: 0, den: 1 }, y: Frac { num: 0, den: 1 } }
    }
}

/// A width and height, in pixels of the relevant coordinate space.
#[derive(Clone, Copy, PartialEq, Eq, Structural, Debug)]
pub struct Size {
    pub width: Frac,
    pub height: Frac,
}

impl Size {
    pub open spec fn wf(self) -> bool {
        self.width.wf() && self.height.wf()
    }

    /// Both sides strictly positive.
    pub open spec fn pos(self) -> bool {
        self.width.pos() && self.height.pos()
    }
}

/// The pixel dimensions of a decoded raster image; `0` on an axis means
/// that no image is loaded.
#[derive(Clone, Copy, PartialEq, Eq, Structural, Debug)]
pub struct ImageSize {
    pub width: u32,
    pub height: u32,
}

impl ImageSize {
    /// The placeholder that stands in for a missing or undecodable image.
    pub fn empty() -> (r: ImageSize)
        ensures
            r == (ImageSize { width: 0, height: 0 }),
    {
        ImageSize { width: 0, height: 0 }
    }

    /// Whether an image with actual contents is loaded.
    pub open spec fn nonempty(self) -> bool {
        self.width > 0 && self.height > 0
    }
}

/// An axis-aligned rectangle, `(x0, y0)` through `(x1, y1)`.
#[derive(Clone, Copy, PartialEq, Eq, Structural, Debug)]
pub struct Rect {
    pub x0: Frac,
    pub y0: Frac,
    pub x1: Frac,
    pub y1: Frac,
}

impl Rect {
    pub open spec fn wf(self) -> bool {
        self.x0.wf() && self.y0.wf() && self.x1.wf() && self.y1.wf()
    }

    /// The corners are ordered: `x0 <= x1` and `y0 <= y1`.
    pub open spec fn ordered(self) -> bool {
        self.x0.rat().le(self.x1.rat()) && self.y0.rat().le(self.y1.rat())
    }

    /// The rectangle spanned by two points, corners normalized axis by axis.
    pub fn from_points(p1: Vec2, p2: Vec2) -> (r: Rect)
        requires
            p1.wf(),
            p2.wf(),
        ensures
            r.wf(),
            r.ordered(),
            r.x0 == if p1.x.rat().le(p2.x.rat()) {
                p1.x
            } else {
                p2.x
            },
            r.y0 == if p1.y.rat().le(p2.y.rat()) {
                p1.y
            } else {
                p2.y
            },
            r.x1 == if p1.x.rat().le(p2.x.rat()) {
                p2.x
            } else {
                p1.x
            },
            r.y1 == if p1.y.rat().le(p2.y.rat()) {
                p2.y
            } else {
                p1.y
            },
    {
        let x0 = p1.x.min_with(p2.x);
        let x1 = if p1.x.le(p2.x) {
            p2.x
        } else {
            p1.x
        };
        let y0 = p1.y.min_with(p2.y);
        let y1 = if p1.y.le(p2.y) {
            p2.y
        } else {
            p1.y
        };
        Rect { x0, y0, x1, y1 }
    }
}

} // verus!
