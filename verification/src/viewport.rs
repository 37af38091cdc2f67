use vstd::prelude::*;

verus! {

/// The value that an `i32` denotes when its bits are read as a `u32`.
pub open spec fn as_unsigned(v: int) -> int {
    if v >= 0 {
        v
    } else {
        v + 0x1_0000_0000
    }
}

/// The rectangle of screen pixels that drawing may touch: columns
/// `xmin..xmax` and rows `ymin..ymax`, upper bounds excluded.
#[derive(Debug, Copy, Clone)]
pub struct Viewport {
    xmin: i32,
    xmax: i32,
    ymin: i32,
    ymax: i32,
}

impl Viewport {
    pub closed spec fn left(self) -> int {
        self.xmin as int
    }

    pub closed spec fn right(self) -> int {
        self.xmax as int
    }

    pub closed spec fn top(self) -> int {
        self.ymin as int
    }

    pub closed spec fn bottom(self) -> int {
        self.ymax as int
    }

    /// Whether the pixel `(x, y)` lies in the viewport.
    pub open spec fn holds(self, x: int, y: int) -> bool {
        self.left() <= x < self.right() && self.top() <= y < self.bottom()
    }

    pub fn new(xmin: i32, xmax: i32, ymin: i32, ymax: i32) -> (r: Self)
        ensures
            r.left() == xmin,
            r.right() == xmax,
            r.top() == ymin,
            r.bottom() == ymax,
    {
        Self { xmin, xmax, ymin, ymax }
    }

    /// The number of columns, `xmax - xmin`, read as a `u32` (a viewport
    /// whose bounds are swapped wraps around).
    pub fn width(&self) -> (r: u32)
        requires
            i32::MIN <= self.right() - self.left() <= i32::MAX,
        ensures
            r == as_unsigned(self.right() - self.left()),
    {
        let d: i32 = self.xmax - self.xmin;
        proof {
            assert((d as u32) as int == if d >= 0 { d as int } else { d + 0x1_0000_0000 }) by (bit_vector);
        }
        d as u32
    }

    /// The number of rows, `ymax - ymin`, read as a `u32`.
    pub fn height(&self) -> (r: u32)
        requires
            i32::MIN <= self.bottom() - self.top() <= i32::MAX,
        ensures
            r == as_unsigned(self.bottom() - self.top()),
    {
        let d: i32 = self.ymax - self.ymin;
        proof {
            assert((d as u32) as int == if d >= 0 { d as int } else { d + 0x1_0000_0000 }) by (bit_vector);
        }
        d as u32
    }

    /// The bounds `(xmin, xmax, ymin, ymax)`.
    pub fn bounds(&self) -> (r: (i32, i32, i32, i32))
        ensures
            r.0 == self.left(),
            r.1 == self.right(),
            r.2 == self.top(),
            r.3 == self.bottom(),
    {
        (self.xmin, self.xmax, self.ymin, self.ymax)
    }

    /// Whether pixel `(x, y)` lies in the viewport.
    pub fn contains(&self, x: i32, y: i32) -> (r: bool)
        ensures
            r == self.holds(x as int, y as int),
    {
        x >= self.xmin && x < self.xmax && y >= self.ymin && y < self.ymax
    }
}

} // verus!
