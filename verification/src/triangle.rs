use vstd::prelude::*;
use crate::raster::SoftwareRenderer;
use crate::target::{can_plot, plot_all, RenderTarget};
use crate::viewport::Viewport;

verus! {

/// Which winding a triangle is drawn with.
#[derive(Debug, Copy, Clone, PartialEq, Eq)]
pub enum CullMode {
    Off,
    Clockwise,
    CounterClockwise,
}

impl Default for CullMode {
    fn default() -> (r: Self)
        ensures
            r == CullMode::Clockwise,
    {
        CullMode::Clockwise
    }
}

impl CullMode {
    /// Whether a triangle of the given winding has its second and third
    /// vertices swapped before it is filled: counter-clockwise triangles
    /// are turned round unless the mode is `CounterClockwise`.
    pub fn swaps_winding(&self, counter_clockwise: bool) -> (r: bool)
        ensures
            r == (counter_clockwise && !(*self is CounterClockwise)),
    {
        match self {
            CullMode::Off => counter_clockwise,
            CullMode::Clockwise => counter_clockwise,
            CullMode::CounterClockwise => false,
        }
    }
}

impl Viewport {
    /// The bounds of a triangle's bounding box `lo_x..=hi_x`, `lo_y..=hi_y`
    /// cut to the viewport: `(max(xmin, lo_x), min(xmax - 1, hi_x),
    /// max(ymin, lo_y), min(ymax - 1, hi_y))`.
    pub fn clamp_box(&self, lo_x: i32, hi_x: i32, lo_y: i32, hi_y: i32) -> (r: (i32, i32, i32, i32))
        requires
            self.right() > i32::MIN,
            self.bottom() > i32::MIN,
        ensures
            r.0 == (if self.left() >= lo_x { self.left() } else { lo_x as int }),
            r.1 == (if self.right() - 1 <= hi_x { self.right() - 1 } else { hi_x as int }),
            r.2 == (if self.top() >= lo_y { self.top() } else { lo_y as int }),
            r.3 == (if self.bottom() - 1 <= hi_y { self.bottom() - 1 } else { hi_y as int }),
    {
        let (xmin, xmax, ymin, ymax) = self.bounds();
        (
            if xmin >= lo_x { xmin } else { lo_x },
            if xmax - 1 <= hi_x { xmax - 1 } else { hi_x },
            if ymin >= lo_y { ymin } else { lo_y },
            if ymax - 1 <= hi_y { ymax - 1 } else { hi_y },
        )
    }
}

/// The covered pixels among the first `n` of the box whose top-left
/// pixel is `(x0, y0)` and which is `w` pixels wide, row by row: pixel
/// `k` of the box is covered when `covered[k]` is.
pub open spec fn box_cells(x0: int, y0: int, w: int, covered: Seq<bool>, n: int) -> Seq<(int, int)>
    decreases n,
{
    if n <= 0 || w <= 0 {
        Seq::empty()
    } else {
        let prev = box_cells(x0, y0, w, covered, n - 1);
        if covered[n - 1] {
            prev.push((x0 + (n - 1) % w, y0 + (n - 1) / w))
        } else {
            prev
        }
    }
}

proof fn lemma_box_cells_prefix(x0: int, y0: int, w: int, covered: Seq<bool>, n: int, m: int)
    requires
        0 <= n <= m,
    ensures
        box_cells(x0, y0, w, covered, n).len() <= box_cells(x0, y0, w, covered, m).len(),
        box_cells(x0, y0, w, covered, m).subrange(0, box_cells(x0, y0, w, covered, n).len() as int)
            == box_cells(x0, y0, w, covered, n),
    decreases m - n,
{
    if n < m {
        lemma_box_cells_prefix(x0, y0, w, covered, n, m - 1);
        let a = box_cells(x0, y0, w, covered, n);
        let b = box_cells(x0, y0, w, covered, m - 1);
        let c = box_cells(x0, y0, w, covered, m);
        assert(c.subrange(0, b.len() as int) =~= b);
        assert(c.subrange(0, a.len() as int) =~= b.subrange(0, a.len() as int));
    } else {
        let c = box_cells(x0, y0, w, covered, m);
        assert(c.subrange(0, c.len() as int) =~= c);
    }
}

proof fn lemma_box_cells_exact(x0: int, y0: int, w: int, covered: Seq<bool>, n: int, x: int, y: int)
    requires
        w > 0,
        0 <= n <= covered.len(),
    ensures
        box_cells(x0, y0, w, covered, n).contains((x, y)) <==> (x0 <= x < x0 + w && 0 <= (y - y0) * w + (x - x0) < n
            && covered[(y - y0) * w + (x - x0)]),
    decreases n,
{
    let cells = box_cells(x0, y0, w, covered, n);
    let m = (y - y0) * w + (x - x0);
    if n > 0 {
        lemma_box_cells_exact(x0, y0, w, covered, n - 1, x, y);
        let prev = box_cells(x0, y0, w, covered, n - 1);
        let p = (x0 + (n - 1) % w, y0 + (n - 1) / w);
        assert(((n - 1) / w) * w + (n - 1) % w == n - 1 && 0 <= (n - 1) % w < w) by (nonlinear_arith)
            requires w > 0, n >= 1;
        assert(((y - y0) * w + (x - x0) == n - 1 && x0 <= x < x0 + w) ==> (y - y0 == (n - 1) / w && x - x0 == (
        n - 1) % w)) by (nonlinear_arith)
            requires w > 0, n >= 1, ((n - 1) / w) * w + (n - 1) % w == n - 1, 0 <= (n - 1) % w < w;
        assert(p.1 - y0 == (n - 1) / w && p.0 - x0 == (n - 1) % w);
        assert((p.1 - y0) * w + (p.0 - x0) == n - 1);
        if covered[n - 1] {
            assert(cells == prev.push(p));
            assert(cells.contains((x, y)) <==> (prev.contains((x, y)) || (x, y) == p)) by {
                if cells.contains((x, y)) {
                    let k = choose|k: int| 0 <= k < cells.len() && cells[k] == (x, y);
                    if k < prev.len() {
                        assert(prev[k] == cells[k]);
                    }
                }
                if prev.contains((x, y)) {
                    let k = choose|k: int| 0 <= k < prev.len() && prev[k] == (x, y);
                    assert(cells[k] == prev[k]);
                }
                if (x, y) == p {
                    assert(cells[prev.len() as int] == p);
                }
            }
        } else {
            assert(cells == prev);
        }
    } else {
        assert(cells =~= Seq::<(int, int)>::empty());
    }
}

/// The pixels that `fill_covered` sets are exactly the covered cells of the
/// box: pixel `(x, y)` is among them when it lies in one of the `w`
/// columns from `x0` on and in a row from `y0` on, and the cell at offset
/// `(y - y0) * w + (x - x0)` is covered.
pub proof fn lemma_box_cells_are_covered(x0: int, y0: int, w: int, covered: Seq<bool>, x: int, y: int)
    requires
        w > 0,
    ensures
        box_cells(x0, y0, w, covered, covered.len() as int).contains((x, y)) <==> (x0 <= x < x0 + w && 0 <= (y - y0)
            * w + (x - x0) < covered.len() && covered[(y - y0) * w + (x - x0)]),
{
    lemma_box_cells_exact(x0, y0, w, covered, covered.len() as int, x, y);
}

impl SoftwareRenderer {
    /// Sets to `colour` the covered pixels of the box `xmin..=xmax`,
    /// `ymin..=ymax`; `covered` tells, row by row, which pixels of the box
    /// a triangle covers.
    pub fn fill_covered(
        &mut self,
        target: &mut RenderTarget,
        xmin: i32,
        xmax: i32,
        ymin: i32,
        ymax: i32,
        covered: &[bool],
        colour: [u8; 4],
    )
        requires
            xmin <= xmax && ymin <= ymax ==> covered@.len() == (xmax - xmin + 1) * (ymax - ymin + 1),
            forall|k: int|
                0 <= k < box_cells(xmin as int, ymin as int, xmax - xmin + 1, covered@, covered@.len() as int).len()
                    ==> can_plot(
                    old(target).bytes().len(),
                    old(target).fb_width(),
                    old(target).view_rect(),
                    #[trigger] box_cells(xmin as int, ymin as int, xmax - xmin + 1, covered@, covered@.len() as int)[k],
                ),
        ensures
            final(target).bytes() == if xmin <= xmax && ymin <= ymax {
                plot_all(
                    old(target).bytes(),
                    old(target).fb_width(),
                    old(target).view_rect(),
                    box_cells(xmin as int, ymin as int, xmax - xmin + 1, covered@, covered@.len() as int),
                    colour@,
                )
            } else {
                old(target).bytes()
            },
            final(target).fb_width() == old(target).fb_width(),
            final(target).view_rect() == old(target).view_rect(),
            *final(final(target).fb()) == *final(old(target).fb()),
            final(final(target).fb().slice())@ == final(old(target).fb().slice())@,
    {
        if xmin > xmax || ymin > ymax {
            return;
        }
        let ghost start = target.bytes();
        let ghost wd = target.fb_width();
        let ghost vp = target.view_rect();
        let wl: i64 = xmax as i64 - xmin as i64 + 1;
        let hl: i64 = ymax as i64 - ymin as i64 + 1;
        assert(wl <= wl * hl && hl <= wl * hl) by (nonlinear_arith)
            requires wl >= 1, hl >= 1;
        assert(wl * hl == covered@.len());
        let total = covered.len();
        assert(wl <= usize::MAX && hl <= usize::MAX);
        let w = wl as usize;
        let h = hl as usize;
        let ghost cells = box_cells(xmin as int, ymin as int, w as int, covered@, covered@.len() as int);
        let mut row: usize = 0;
        assert(covered@.len() == w * h);
        while row < h
            invariant
                0 <= row <= h,
                w == xmax - xmin + 1,
                h == ymax - ymin + 1,
                covered@.len() == w * h,
                w * h <= usize::MAX,
                cells == box_cells(xmin as int, ymin as int, w as int, covered@, covered@.len() as int),
                forall|k: int| 0 <= k < cells.len() ==> can_plot(start.len(), wd, vp, #[trigger] cells[k]),
                target.fb_width() == wd,
                target.view_rect() == vp,
                target.bytes().len() == start.len(),
                target.bytes() == plot_all(start, wd, vp, box_cells(xmin as int, ymin as int, w as int, covered@, row * w), colour@),
                *final(target.fb()) == *final(old(target).fb()),
                final(target.fb().slice())@ == final(old(target).fb().slice())@,
            decreases h - row,
        {
            let mut col: usize = 0;
            assert(row * w + w <= w * h) by (nonlinear_arith)
                requires row < h;
            while col < w
                invariant
                    0 <= row < h,
                    0 <= col <= w,
                    w == xmax - xmin + 1,
                    h == ymax - ymin + 1,
                    covered@.len() == w * h,
                    w * h <= usize::MAX,
                    row * w + w <= w * h,
                    cells == box_cells(xmin as int, ymin as int, w as int, covered@, covered@.len() as int),
                    forall|k: int| 0 <= k < cells.len() ==> can_plot(start.len(), wd, vp, #[trigger] cells[k]),
                    target.fb_width() == wd,
                    target.view_rect() == vp,
                    target.bytes().len() == start.len(),
                    target.bytes() == plot_all(
                        start,
                        wd,
                        vp,
                        box_cells(xmin as int, ymin as int, w as int, covered@, row * w + col),
                        colour@,
                    ),
                    *final(target.fb()) == *final(old(target).fb()),
                    final(target.fb().slice())@ == final(old(target).fb().slice())@,
                decreases w - col,
            {
                let n = row * w + col;
                let ghost prev = box_cells(xmin as int, ymin as int, w as int, covered@, n as int);
                assert((n as int) / (w as int) == row && (n as int) % (w as int) == col) by (nonlinear_arith)
                    requires n == row * w + col, 0 <= col < w;
                proof {
                    lemma_box_cells_prefix(xmin as int, ymin as int, w as int, covered@, n as int, n + 1);
                    lemma_box_cells_prefix(xmin as int, ymin as int, w as int, covered@, n + 1, covered@.len() as int);
                }
                if covered[n] {
                    let x = (xmin as i64 + col as i64) as i32;
                    let y = (ymin as i64 + row as i64) as i32;
                    assert(box_cells(xmin as int, ymin as int, w as int, covered@, n + 1) == prev.push((x as int, y as int)));
                    assert(cells.subrange(0, prev.len() as int + 1)[prev.len() as int] == (x as int, y as int));
                    assert(cells[prev.len() as int] == (x as int, y as int));
                    target.put(x, y, colour);
                    assert(prev.push((x as int, y as int)).drop_last() =~= prev);
                } else {
                    assert(box_cells(xmin as int, ymin as int, w as int, covered@, n + 1) == prev);
                }
                col = col + 1;
            }
            assert(row * w + w == (row + 1) * w) by (nonlinear_arith);
            row = row + 1;
        }
        assert(h * w == covered@.len()) by (nonlinear_arith)
            requires covered@.len() == w * h;
    }
}

} // verus!
