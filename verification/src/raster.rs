use vstd::prelude::*;
use crate::target::{can_plot, plot_all, RenderTarget};

verus! {

/// The absolute value of `v`.
pub open spec fn abs(v: int) -> int {
    if v < 0 {
        -v
    } else {
        v
    }
}

/// Whether `v` is an `i32` value.
pub open spec fn fits_i32(v: int) -> bool {
    i32::MIN <= v <= i32::MAX
}

/// The point reached after `i` steps along x and `j` steps along y,
/// walking from `from` towards `to`.
pub open spec fn line_point(from: (int, int), to: (int, int), i: int, j: int) -> (int, int) {
    (
        if from.0 < to.0 { from.0 + i } else { from.0 - i },
        if from.1 < to.1 { from.1 + j } else { from.1 - j },
    )
}

/// Whether x moves in the step from error term `err`, with `a = |x1 - x0|`
/// and `b = |y1 - y0|`: `e2 = err * 2` is at least `dy = -b`.
pub open spec fn step_x(a: int, b: int, err: int) -> bool {
    2 * err >= -b
}

/// Whether y moves in the step from error term `err`: `e2` is at most `dx = a`.
pub open spec fn step_y(a: int, b: int, err: int) -> bool {
    2 * err <= a
}

/// The error term after the step from `err`: `dy` is added when x moves,
/// `dx` when y moves.
pub open spec fn next_err(a: int, b: int, err: int) -> int {
    err + (if step_x(a, b, err) { -b } else { 0int }) + (if step_y(a, b, err) { a } else { 0int })
}

/// The pixels that Bresenham's walk visits from state `(i, j, err)` on,
/// up to and including `to`.
pub open spec fn line_walk(from: (int, int), to: (int, int), i: int, j: int, err: int) -> Seq<(int, int)>
    decreases abs(to.0 - from.0) + abs(to.1 - from.1) + 2 - i - j,
{
    let a = abs(to.0 - from.0);
    let b = abs(to.1 - from.1);
    if i < 0 || j < 0 || i > a || j > b {
        Seq::empty()
    } else if i == a && j == b {
        seq![line_point(from, to, i, j)]
    } else {
        let di: int = if step_x(a, b, err) { 1 } else { 0 };
        let dj: int = if step_y(a, b, err) { 1 } else { 0 };
        seq![line_point(from, to, i, j)] + line_walk(from, to, i + di, j + dj, next_err(a, b, err))
    }
}

/// The pixels of the line from `from` to `to`, in drawing order.
pub open spec fn line_points(from: (int, int), to: (int, int)) -> Seq<(int, int)> {
    line_walk(from, to, 0, 0, abs(to.0 - from.0) - abs(to.1 - from.1))
}

/// Whether the `i32` arithmetic of the walk from state `(i, j, err)` on
/// stays in range: `err * 2`, then `err + dy`, then `err + dx`.
pub open spec fn walk_fits(from: (int, int), to: (int, int), i: int, j: int, err: int) -> bool
    decreases abs(to.0 - from.0) + abs(to.1 - from.1) + 2 - i - j,
{
    let a = abs(to.0 - from.0);
    let b = abs(to.1 - from.1);
    if i < 0 || j < 0 || i > a || j > b {
        true
    } else if i == a && j == b {
        true
    } else {
        let di: int = if step_x(a, b, err) { 1 } else { 0 };
        let dj: int = if step_y(a, b, err) { 1 } else { 0 };
        let mid = err + (if step_x(a, b, err) { -b } else { 0int });
        &&& fits_i32(2 * err)
        &&& fits_i32(mid)
        &&& fits_i32(next_err(a, b, err))
        &&& walk_fits(from, to, i + di, j + dj, next_err(a, b, err))
    }
}

/// Whether drawing the line from `from` to `to` keeps all of its `i32`
/// arithmetic in range.
pub open spec fn line_fits(from: (int, int), to: (int, int)) -> bool {
    &&& fits_i32(to.0 - from.0) && to.0 - from.0 != i32::MIN
    &&& fits_i32(to.1 - from.1) && to.1 - from.1 != i32::MIN
    &&& walk_fits(from, to, 0, 0, abs(to.0 - from.0) - abs(to.1 - from.1))
}

/// With the error term `a (1 + j) - b (1 + i)`, a step never moves past the end point.
proof fn lemma_no_overshoot(a: int, b: int, i: int, j: int, err: int)
    requires
        0 <= i <= a,
        0 <= j <= b,
        !(i == a && j == b),
        err == a * (1 + j) - b * (1 + i),
    ensures
        step_x(a, b, err) ==> i < a,
        step_y(a, b, err) ==> j < b,
        step_x(a, b, err) || step_y(a, b, err),
{
    if i == a && step_x(a, b, err) {
        assert(a * (1 + j) <= a * b) by (nonlinear_arith)
            requires 0 <= a, j < b;
        assert(b * (1 + i) == b + b * a) by (nonlinear_arith)
            requires i == a;
        assert(a * b == b * a) by (nonlinear_arith);
    }
    if j == b && step_y(a, b, err) {
        assert(b * (1 + i) <= b * a) by (nonlinear_arith)
            requires 0 <= b, i < a;
        assert(a * (1 + j) == a + a * b) by (nonlinear_arith)
            requires j == b;
        assert(a * b == b * a) by (nonlinear_arith);
    }
}

proof fn lemma_err_step(a: int, b: int, i: int, j: int, err: int)
    requires
        err == a * (1 + j) - b * (1 + i),
    ensures
        next_err(a, b, err) == a * (1 + (j + if step_y(a, b, err) { 1int } else { 0int }))
            - b * (1 + (i + if step_x(a, b, err) { 1int } else { 0int })),
{
    assert(a * (1 + (j + 1)) == a * (1 + j) + a) by (nonlinear_arith);
    assert(b * (1 + (i + 1)) == b * (1 + i) + b) by (nonlinear_arith);
}

/// Two distinct pixels that touch, sideways or diagonally.
pub open spec fn touching(p: (int, int), q: (int, int)) -> bool {
    &&& p != q
    &&& abs(q.0 - p.0) <= 1
    &&& abs(q.1 - p.1) <= 1
}

proof fn lemma_walk_shape(from: (int, int), to: (int, int), i: int, j: int, err: int)
    requires
        0 <= i <= abs(to.0 - from.0),
        0 <= j <= abs(to.1 - from.1),
        err == abs(to.0 - from.0) * (1 + j) - abs(to.1 - from.1) * (1 + i),
        abs(to.0 - from.0) >= abs(to.1 - from.1) ==> 2 * err >= -abs(to.1 - from.1),
        abs(to.1 - from.1) >= abs(to.0 - from.0) ==> 2 * err <= abs(to.0 - from.0),
    ensures
        ({
            let w = line_walk(from, to, i, j, err);
            let a = abs(to.0 - from.0);
            let b = abs(to.1 - from.1);
            &&& a >= b ==> w.len() == a - i + 1
            &&& b >= a ==> w.len() == b - j + 1
            &&& w.len() >= 1
            &&& w[0] == line_point(from, to, i, j)
            &&& w.last() == to
            &&& forall|k: int| 0 <= k < w.len() - 1 ==> touching(#[trigger] w[k], w[k + 1])
        }),
    decreases abs(to.0 - from.0) + abs(to.1 - from.1) + 2 - i - j,
{
    let a = abs(to.0 - from.0);
    let b = abs(to.1 - from.1);
    let w = line_walk(from, to, i, j, err);
    if i == a && j == b {
        assert(w == seq![line_point(from, to, i, j)]);
    } else {
        lemma_no_overshoot(a, b, i, j, err);
        lemma_err_step(a, b, i, j, err);
        let di: int = if step_x(a, b, err) { 1 } else { 0 };
        let dj: int = if step_y(a, b, err) { 1 } else { 0 };
        let e2 = next_err(a, b, err);
        lemma_walk_shape(from, to, i + di, j + dj, e2);
        let rest = line_walk(from, to, i + di, j + dj, e2);
        assert(w == seq![line_point(from, to, i, j)] + rest);
        assert(touching(line_point(from, to, i, j), rest[0]));
        assert forall|k: int| 0 <= k < w.len() - 1 implies touching(#[trigger] w[k], w[k + 1]) by {
            if k > 0 {
                assert(w[k] == rest[k - 1]);
                assert(w[k + 1] == rest[k]);
            }
        }
    }
}

/// The line from `from` to `to` starts at `from`, ends at `to`, has one
/// pixel per step along its longer axis plus one, and each pixel touches
/// the next.
pub proof fn lemma_line_shape(from: (int, int), to: (int, int))
    ensures
        ({
            let pts = line_points(from, to);
            let a = abs(to.0 - from.0);
            let b = abs(to.1 - from.1);
            &&& pts.len() == (if a >= b { a } else { b }) + 1
            &&& pts[0] == from
            &&& pts.last() == to
            &&& forall|k: int| 0 <= k < pts.len() - 1 ==> touching(#[trigger] pts[k], pts[k + 1])
        }),
{
    let a = abs(to.0 - from.0);
    let b = abs(to.1 - from.1);
    assert(a - b == a * (1 + 0) - b * (1 + 0)) by (nonlinear_arith);
    lemma_walk_shape(from, to, 0, 0, a - b);
}

/// How far pixel `p` lies off the ideal line from `from` to `to`, scaled:
/// `|dx| * |p.y - y0| - |dy| * |p.x - x0|`. Divided by the length of the
/// longer axis it is the distance along the shorter axis, in pixels.
pub open spec fn line_offset(from: (int, int), to: (int, int), p: (int, int)) -> int {
    abs(to.0 - from.0) * abs(p.1 - from.1) - abs(to.1 - from.1) * abs(p.0 - from.0)
}

proof fn lemma_walk_close(from: (int, int), to: (int, int), i: int, j: int, err: int)
    requires
        0 <= i <= abs(to.0 - from.0),
        0 <= j <= abs(to.1 - from.1),
        err == abs(to.0 - from.0) * (1 + j) - abs(to.1 - from.1) * (1 + i),
        abs(to.0 - from.0) >= abs(to.1 - from.1) ==> abs(to.0 - from.0) - 2 * abs(to.1 - from.1) <= 2 * err
            <= 3 * abs(to.0 - from.0) - 2 * abs(to.1 - from.1),
        abs(to.1 - from.1) >= abs(to.0 - from.0) ==> 2 * abs(to.0 - from.0) - 3 * abs(to.1 - from.1) <= 2 * err
            <= 2 * abs(to.0 - from.0) - abs(to.1 - from.1),
    ensures
        forall|k: int|
            0 <= k < line_walk(from, to, i, j, err).len() ==> 2 * abs(
                line_offset(from, to, #[trigger] line_walk(from, to, i, j, err)[k]),
            ) <= (if abs(to.0 - from.0) >= abs(to.1 - from.1) {
                abs(to.0 - from.0)
            } else {
                abs(to.1 - from.1)
            }),
    decreases abs(to.0 - from.0) + abs(to.1 - from.1) + 2 - i - j,
{
    let a = abs(to.0 - from.0);
    let b = abs(to.1 - from.1);
    let m = if a >= b { a } else { b };
    let w = line_walk(from, to, i, j, err);
    let p = line_point(from, to, i, j);
    assert(abs(p.0 - from.0) == i && abs(p.1 - from.1) == j);
    assert(line_offset(from, to, p) == err - a + b) by (nonlinear_arith)
        requires
            line_offset(from, to, p) == a * j - b * i,
            err == a * (1 + j) - b * (1 + i),
    ;
    assert(2 * abs(line_offset(from, to, p)) <= m);
    if i == a && j == b {
        assert(w == seq![p]);
    } else {
        lemma_no_overshoot(a, b, i, j, err);
        lemma_err_step(a, b, i, j, err);
        let di: int = if step_x(a, b, err) { 1 } else { 0 };
        let dj: int = if step_y(a, b, err) { 1 } else { 0 };
        let e2 = next_err(a, b, err);
        lemma_walk_close(from, to, i + di, j + dj, e2);
        let rest = line_walk(from, to, i + di, j + dj, e2);
        assert(w == seq![p] + rest);
        assert forall|k: int| 0 <= k < w.len() implies 2 * abs(line_offset(from, to, #[trigger] w[k])) <= m by {
            if k > 0 {
                assert(w[k] == rest[k - 1]);
            }
        }
    }
}

/// Every pixel of the line from `from` to `to` lies within half a pixel of
/// the ideal line, measured along the shorter axis.
pub proof fn lemma_line_close(from: (int, int), to: (int, int))
    ensures
        forall|k: int|
            0 <= k < line_points(from, to).len() ==> 2 * abs(line_offset(from, to, #[trigger] line_points(from, to)[k]))
                <= (if abs(to.0 - from.0) >= abs(to.1 - from.1) {
                abs(to.0 - from.0)
            } else {
                abs(to.1 - from.1)
            }),
{
    let a = abs(to.0 - from.0);
    let b = abs(to.1 - from.1);
    assert(a - b == a * (1 + 0) - b * (1 + 0)) by (nonlinear_arith);
    lemma_walk_close(from, to, 0, 0, a - b);
}

proof fn lemma_walk_fits_bounded(from: (int, int), to: (int, int), i: int, j: int, err: int)
    requires
        0 <= i <= abs(to.0 - from.0),
        0 <= j <= abs(to.1 - from.1),
        err == abs(to.0 - from.0) * (1 + j) - abs(to.1 - from.1) * (1 + i),
        -3 * abs(to.1 - from.1) <= 2 * err <= 3 * abs(to.0 - from.0),
        3 * abs(to.0 - from.0) <= i32::MAX,
        3 * abs(to.1 - from.1) <= i32::MAX,
    ensures
        walk_fits(from, to, i, j, err),
    decreases abs(to.0 - from.0) + abs(to.1 - from.1) + 2 - i - j,
{
    let a = abs(to.0 - from.0);
    let b = abs(to.1 - from.1);
    if !(i == a && j == b) {
        lemma_no_overshoot(a, b, i, j, err);
        lemma_err_step(a, b, i, j, err);
        let di: int = if step_x(a, b, err) { 1 } else { 0 };
        let dj: int = if step_y(a, b, err) { 1 } else { 0 };
        lemma_walk_fits_bounded(from, to, i + di, j + dj, next_err(a, b, err));
    }
}

/// A line whose extent along each axis is at most a third of `i32::MAX`
/// keeps all of its arithmetic within `i32`.
pub proof fn lemma_short_line_fits(from: (int, int), to: (int, int))
    requires
        fits_i32(from.0) && fits_i32(from.1) && fits_i32(to.0) && fits_i32(to.1),
        3 * abs(to.0 - from.0) <= i32::MAX,
        3 * abs(to.1 - from.1) <= i32::MAX,
    ensures
        line_fits(from, to),
{
    let a = abs(to.0 - from.0);
    let b = abs(to.1 - from.1);
    assert(a - b == a * (1 + 0) - b * (1 + 0)) by (nonlinear_arith);
    lemma_walk_fits_bounded(from, to, 0, 0, a - b);
}

/// Whether `draw_line` may draw the line from `from` to `to` on `target`:
/// its `i32` arithmetic stays in range and each of its pixels may be set.
pub fn line_drawable(target: &RenderTarget, from: (i32, i32), to: (i32, i32)) -> (r: bool)
    ensures
        r == (line_fits((from.0 as int, from.1 as int), (to.0 as int, to.1 as int)) && forall|k: int|
            0 <= k < line_points((from.0 as int, from.1 as int), (to.0 as int, to.1 as int)).len() ==> can_plot(
                target.bytes().len(),
                target.fb_width(),
                target.view_rect(),
                #[trigger] line_points((from.0 as int, from.1 as int), (to.0 as int, to.1 as int))[k],
            )),
{
    let ghost f = (from.0 as int, from.1 as int);
    let ghost t = (to.0 as int, to.1 as int);
    let ghost all = line_points(f, t);
    let ghost len = target.bytes().len();
    let ghost w = target.fb_width();
    let ghost vp = target.view_rect();
    let ddx: i64 = to.0 as i64 - from.0 as i64;
    let ddy: i64 = to.1 as i64 - from.1 as i64;
    if ddx <= i32::MIN as i64 || ddx > i32::MAX as i64 || ddy <= i32::MIN as i64 || ddy > i32::MAX as i64 {
        return false;
    }
    let a: i64 = if ddx < 0 { -ddx } else { ddx };
    let b: i64 = if ddy < 0 { -ddy } else { ddy };
    let mut x: i64 = from.0 as i64;
    let mut y: i64 = from.1 as i64;
    let x1: i64 = to.0 as i64;
    let y1: i64 = to.1 as i64;
    let sx: i64 = if from.0 < to.0 { 1 } else { -1 };
    let sy: i64 = if from.1 < to.1 { 1 } else { -1 };
    let mut err: i64 = a - b;
    let ghost mut i: int = 0;
    let ghost mut j: int = 0;
    let ghost mut done: Seq<(int, int)> = Seq::empty();
    assert(err == a * (1 + j) - b * (1 + i)) by (nonlinear_arith)
        requires err == a - b, i == 0, j == 0;
    assert(all == done + line_walk(f, t, i, j, err as int));
    loop
        invariant
            f == (from.0 as int, from.1 as int),
            t == (to.0 as int, to.1 as int),
            a == abs(t.0 - f.0),
            b == abs(t.1 - f.1),
            a <= i32::MAX,
            b <= i32::MAX,
            sx == (if f.0 < t.0 { 1int } else { -1int }),
            sy == (if f.1 < t.1 { 1int } else { -1int }),
            x1 == t.0,
            y1 == t.1,
            0 <= i <= a,
            0 <= j <= b,
            (x as int, y as int) == line_point(f, t, i, j),
            err == a * (1 + j) - b * (1 + i),
            fits_i32(err as int),
            all == line_points(f, t),
            all == done + line_walk(f, t, i, j, err as int),
            line_fits(f, t) == walk_fits(f, t, i, j, err as int),
            fits_i32(t.0 - f.0) && t.0 - f.0 != i32::MIN,
            fits_i32(t.1 - f.1) && t.1 - f.1 != i32::MIN,
            forall|k: int| 0 <= k < done.len() ==> can_plot(len, w, vp, #[trigger] done[k]),
            len == target.bytes().len(),
            w == target.fb_width(),
            vp == target.view_rect(),
        decreases (a - i) + (b - j),
    {
        let ghost here = line_walk(f, t, i, j, err as int);
        assert(here[0] == (x as int, y as int));
        assert(all[done.len() as int] == here[0]);
        assert(x as int == line_point(f, t, i, j).0);
        assert(y as int == line_point(f, t, i, j).1);
        assert(fits_i32(x as int) && fits_i32(y as int));
        let xi = x as i32;
        let yi = y as i32;
        assert(xi as int == x as int && yi as int == y as int);
        if !target.can_put(xi, yi) {
            assert(!can_plot(len, w, vp, all[done.len() as int]));
            return false;
        }
        if x == x1 && y == y1 {
            assert(i == a && j == b);
            assert(here =~= seq![line_point(f, t, i, j)]);
            assert(all =~= done.push(here[0]));
            assert forall|k: int| 0 <= k < all.len() implies can_plot(len, w, vp, #[trigger] all[k]) by {
                if k < done.len() {
                    assert(all[k] == done[k]);
                }
            }
            return true;
        }
        proof {
            lemma_no_overshoot(a as int, b as int, i, j, err as int);
            lemma_err_step(a as int, b as int, i, j, err as int);
        }
        let e2 = 2 * err;
        if e2 < i32::MIN as i64 || e2 > i32::MAX as i64 {
            return false;
        }
        let mid = if e2 >= -b { err - b } else { err };
        if mid < i32::MIN as i64 || mid > i32::MAX as i64 {
            return false;
        }
        let next = if e2 <= a { mid + a } else { mid };
        if next < i32::MIN as i64 || next > i32::MAX as i64 {
            return false;
        }
        let ghost old_err = err as int;
        let ghost di: int = if step_x(a as int, b as int, old_err) { 1 } else { 0 };
        let ghost dj: int = if step_y(a as int, b as int, old_err) { 1 } else { 0 };
        if e2 >= -b {
            x = x + sx;
        }
        if e2 <= a {
            y = y + sy;
        }
        err = next;
        proof {
            assert(here == seq![line_point(f, t, i, j)] + line_walk(f, t, i + di, j + dj, next_err(a as int, b as int, old_err)));
            let before = done;
            done = done.push(here[0]);
            assert(all =~= done + line_walk(f, t, i + di, j + dj, next_err(a as int, b as int, old_err)));
            assert forall|k: int| 0 <= k < done.len() implies can_plot(len, w, vp, #[trigger] done[k]) by {
                if k < before.len() {
                    assert(done[k] == before[k]);
                }
            }
            i = i + di;
            j = j + dj;
        }
    }
}

/// Draws into a `RenderTarget` on the CPU.
pub struct SoftwareRenderer {}

impl SoftwareRenderer {
    pub fn new() -> Self {
        Self {}
    }

    /// Draws the line from `from` to `to` with Bresenham's algorithm;
    /// pixels outside the viewport are skipped.
    pub fn draw_line(&mut self, target: &mut RenderTarget, from: (i32, i32), to: (i32, i32), colour: [u8; 4])
        requires
            line_fits((from.0 as int, from.1 as int), (to.0 as int, to.1 as int)),
            forall|k: int|
                0 <= k < line_points((from.0 as int, from.1 as int), (to.0 as int, to.1 as int)).len()
                    ==> can_plot(
                    old(target).bytes().len(),
                    old(target).fb_width(),
                    old(target).view_rect(),
                    #[trigger] line_points((from.0 as int, from.1 as int), (to.0 as int, to.1 as int))[k],
                ),
        ensures
            final(target).bytes() == plot_all(
                old(target).bytes(),
                old(target).fb_width(),
                old(target).view_rect(),
                line_points((from.0 as int, from.1 as int), (to.0 as int, to.1 as int)),
                colour@,
            ),
            final(target).fb_width() == old(target).fb_width(),
            final(target).view_rect() == old(target).view_rect(),
            *final(final(target).fb()) == *final(old(target).fb()),
            final(final(target).fb().slice())@ == final(old(target).fb().slice())@,
    {
        let ghost f = (from.0 as int, from.1 as int);
        let ghost t = (to.0 as int, to.1 as int);
        let ghost all = line_points(f, t);
        let mut x0 = from.0;
        let mut y0 = from.1;
        let x1 = to.0;
        let y1 = to.1;

        let ddx = x1 - x0;
        let dx = if ddx < 0 { -ddx } else { ddx };
        let sx: i32 = if x0 < x1 { 1 } else { -1 };

        let ddy = y1 - y0;
        let dy = -(if ddy < 0 { -ddy } else { ddy });
        let sy: i32 = if y0 < y1 { 1 } else { -1 };

        let mut err = dx + dy;

        let ghost a = dx as int;
        let ghost b = -dy;
        let ghost mut i: int = 0;
        let ghost mut j: int = 0;
        let ghost mut done: Seq<(int, int)> = Seq::empty();
        let ghost start = target.bytes();
        let ghost w = target.fb_width();
        let ghost vp = target.view_rect();

        assert(err == a * (1 + j) - b * (1 + i)) by (nonlinear_arith)
            requires err == a - b, i == 0, j == 0;
        assert(all == done + line_walk(f, t, i, j, err as int));

        loop
            invariant_except_break
                a == abs(t.0 - f.0),
                b == abs(t.1 - f.1),
                dx == a,
                dy == -b,
                sx == (if f.0 < t.0 { 1int } else { -1int }),
                sy == (if f.1 < t.1 { 1int } else { -1int }),
                x1 == t.0,
                y1 == t.1,
                0 <= i <= a,
                0 <= j <= b,
                (x0 as int, y0 as int) == line_point(f, t, i, j),
                err == a * (1 + j) - b * (1 + i),
                all == done + line_walk(f, t, i, j, err as int),
                walk_fits(f, t, i, j, err as int),
                w == old(target).fb_width(),
                vp == old(target).view_rect(),
                start == old(target).bytes(),
                target.fb_width() == w,
                target.view_rect() == vp,
                target.bytes().len() == start.len(),
                target.bytes() == plot_all(start, w, vp, done, colour@),
                forall|k: int| 0 <= k < all.len() ==> can_plot(start.len(), w, vp, #[trigger] all[k]),
                *final(target.fb()) == *final(old(target).fb()),
                final(target.fb().slice())@ == final(old(target).fb().slice())@,
            ensures
                target.fb_width() == w,
                target.view_rect() == vp,
                target.bytes() == plot_all(start, w, vp, all, colour@),
                *final(target.fb()) == *final(old(target).fb()),
                final(target.fb().slice())@ == final(old(target).fb().slice())@,
            decreases (a - i) + (b - j),
        {
            let ghost here = line_walk(f, t, i, j, err as int);
            assert(here[0] == (x0 as int, y0 as int));
            assert(all[done.len() as int] == here[0]);
            target.put(x0, y0, colour);
            proof {
                let before = done;
                done = done.push(here[0]);
                assert(done.drop_last() =~= before);
            }

            if x0 == x1 && y0 == y1 {
                assert(i == a && j == b);
                assert(here =~= seq![line_point(f, t, i, j)]);
                assert(all =~= done);
                break;
            }
            proof {
                lemma_no_overshoot(a, b, i, j, err as int);
                lemma_err_step(a, b, i, j, err as int);
            }

            let e2 = err * 2;
            let ghost old_err = err as int;

            if e2 >= dy {
                err += dy;
                x0 += sx;
            }
            if e2 <= dx {
                err += dx;
                y0 += sy;
            }
            proof {
                let di: int = if step_x(a, b, old_err) { 1 } else { 0 };
                let dj: int = if step_y(a, b, old_err) { 1 } else { 0 };
                assert(here == seq![line_point(f, t, i, j)] + line_walk(f, t, i + di, j + dj, next_err(a, b, old_err)));
                assert(all =~= done + line_walk(f, t, i + di, j + dj, next_err(a, b, old_err)));
                i = i + di;
                j = j + dj;
            }
        }
    }
}

} // verus!
