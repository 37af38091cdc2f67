use vstd::prelude::*;
use font8x8::{UnicodeFonts, BASIC_FONTS};
use crate::raster::{fits_i32, SoftwareRenderer};
use crate::target::{can_plot, plot, plot_all, RenderTarget};

verus! {

/// The eight rows of the 8x8 bitmap that font8x8's Basic Latin table
/// holds for character `c`; bit `k` of a row is column `k`.
pub uninterp spec fn basic_glyph(c: char) -> Seq<u8>;

/// Looks `c` up with `font8x8::BASIC_FONTS.get(c)`. Its table holds one
/// glyph for each of U+0000..=U+007F, sorted by character, and the lookup
/// is a binary search in it: a glyph comes back exactly for those
/// characters, and it is the table's entry for `c`.
#[verifier::external_body]
fn basic_font_get(c: char) -> (r: Option<[u8; 8]>)
    ensures
        r is Some <==> (c as int) < 128,
        r matches Some(g) ==> g@ == basic_glyph(c),
{
    BASIC_FONTS.get(c)
}

/// Whether column `col` of a glyph row is lit.
pub open spec fn bit_set(row: u8, col: u32) -> bool {
    (row >> col) & 1u8 == 1u8
}

/// The lit pixels among the first `n` cells of glyph `g` drawn with its
/// top-left corner at `(x, y)`, row by row.
pub open spec fn glyph_cells(g: Seq<u8>, x: int, y: int, n: int) -> Seq<(int, int)>
    decreases n,
{
    if n <= 0 {
        Seq::empty()
    } else {
        let prev = glyph_cells(g, x, y, n - 1);
        let row = (n - 1) / 8;
        let col = (n - 1) % 8;
        if bit_set(g[row], col as u32) {
            prev.push((x + col, y + row))
        } else {
            prev
        }
    }
}

/// The pixels that character `c` lights at `(x, y)`; characters outside
/// Basic Latin light none.
pub open spec fn char_cells(c: char, x: int, y: int) -> Seq<(int, int)> {
    if (c as int) < 128 {
        glyph_cells(basic_glyph(c), x, y, 64)
    } else {
        Seq::empty()
    }
}

/// The pixels that `text` lights, its characters 8 pixels apart from `(x, y)` on.
pub open spec fn text_cells(text: Seq<char>, x: int, y: int) -> Seq<(int, int)>
    decreases text.len(),
{
    if text.len() == 0 {
        Seq::empty()
    } else {
        text_cells(text.drop_last(), x, y) + char_cells(text.last(), x + 8 * (text.len() - 1), y)
    }
}

/// Whether every pixel of `cells` has `i32` coordinates and may be set.
pub open spec fn cells_drawable(cells: Seq<(int, int)>, len: nat, width: u32, vp: crate::viewport::Viewport) -> bool {
    forall|k: int|
        0 <= k < cells.len() ==> {
            &&& fits_i32(#[trigger] cells[k].0)
            &&& fits_i32(cells[k].1)
            &&& can_plot(len, width, vp, cells[k])
        }
}

/// Whether the horizontal offsets of the `n` characters of a text drawn
/// from column `x` stay within `i32`.
pub open spec fn text_offsets_fit(n: int, x: int) -> bool {
    n == 0 || (8 * (n - 1) <= i32::MAX && x + 8 * (n - 1) <= i32::MAX)
}

proof fn lemma_glyph_cells_prefix(g: Seq<u8>, x: int, y: int, n: int, m: int)
    requires
        0 <= n <= m,
    ensures
        glyph_cells(g, x, y, n).len() <= glyph_cells(g, x, y, m).len(),
        glyph_cells(g, x, y, m).subrange(0, glyph_cells(g, x, y, n).len() as int) == glyph_cells(g, x, y, n),
    decreases m - n,
{
    if n < m {
        lemma_glyph_cells_prefix(g, x, y, n, m - 1);
        let a = glyph_cells(g, x, y, n);
        let b = glyph_cells(g, x, y, m - 1);
        let c = glyph_cells(g, x, y, m);
        assert(c.subrange(0, b.len() as int) =~= b);
        assert(c.subrange(0, a.len() as int) =~= b.subrange(0, a.len() as int));
    } else {
        assert(glyph_cells(g, x, y, m).subrange(0, glyph_cells(g, x, y, m).len() as int) =~= glyph_cells(g, x, y, m));
    }
}

proof fn lemma_plot_all_len(bytes: Seq<u8>, width: u32, vp: crate::viewport::Viewport, s: Seq<(int, int)>, colour: Seq<u8>)
    ensures
        plot_all(bytes, width, vp, s, colour).len() == bytes.len(),
    decreases s.len(),
{
    if s.len() > 0 {
        lemma_plot_all_len(bytes, width, vp, s.drop_last(), colour);
    }
}

/// Setting the pixels of `s1 + s2` is setting those of `s1`, then those of `s2`.
pub proof fn lemma_plot_all_append(
    bytes: Seq<u8>,
    width: u32,
    vp: crate::viewport::Viewport,
    s1: Seq<(int, int)>,
    s2: Seq<(int, int)>,
    colour: Seq<u8>,
)
    ensures
        plot_all(bytes, width, vp, s1 + s2, colour) == plot_all(plot_all(bytes, width, vp, s1, colour), width, vp, s2, colour),
    decreases s2.len(),
{
    if s2.len() == 0 {
        assert(s1 + s2 =~= s1);
    } else {
        lemma_plot_all_append(bytes, width, vp, s1, s2.drop_last(), colour);
        assert((s1 + s2).drop_last() =~= s1 + s2.drop_last());
    }
}

/// The pixels of the first `n` characters come first among those of the text.
proof fn lemma_text_cells_prefix(text: Seq<char>, x: int, y: int, n: int)
    requires
        0 <= n <= text.len(),
    ensures
        text_cells(text.take(n), x, y).len() <= text_cells(text, x, y).len(),
        forall|k: int| 0 <= k < text_cells(text.take(n), x, y).len()
            ==> #[trigger] text_cells(text, x, y)[k] == text_cells(text.take(n), x, y)[k],
        n < text.len() ==> text_cells(text.take(n + 1), x, y).len() <= text_cells(text, x, y).len(),
        n < text.len() ==> forall|k: int| 0 <= k < text_cells(text.take(n + 1), x, y).len()
            ==> #[trigger] text_cells(text, x, y)[k] == text_cells(text.take(n + 1), x, y)[k],
    decreases text.len() - n,
{
    if n == text.len() {
        assert(text.take(n) =~= text);
    } else {
        lemma_text_cells_prefix(text, x, y, n + 1);
        assert(text.take(n + 1).drop_last() =~= text.take(n));
    }
}

proof fn lemma_drawable_append(s1: Seq<(int, int)>, s2: Seq<(int, int)>, len: nat, width: u32, vp: crate::viewport::Viewport)
    ensures
        cells_drawable(s1 + s2, len, width, vp) == (cells_drawable(s1, len, width, vp) && cells_drawable(s2, len, width, vp)),
{
    let s = s1 + s2;
    if cells_drawable(s1, len, width, vp) && cells_drawable(s2, len, width, vp) {
        assert forall|k: int| 0 <= k < s.len() implies {
            &&& fits_i32(#[trigger] s[k].0)
            &&& fits_i32(s[k].1)
            &&& can_plot(len, width, vp, s[k])
        } by {
            if k < s1.len() {
                assert(s[k] == s1[k]);
                assert(fits_i32(s1[k].0));
            } else {
                assert(s[k] == s2[k - s1.len()]);
                assert(fits_i32(s2[k - s1.len()].0));
            }
        }
    }
    if cells_drawable(s, len, width, vp) {
        assert forall|k: int| 0 <= k < s1.len() implies {
            &&& fits_i32(#[trigger] s1[k].0)
            &&& fits_i32(s1[k].1)
            &&& can_plot(len, width, vp, s1[k])
        } by {
            assert(s[k] == s1[k]);
            assert(fits_i32(s[k].0));
        }
        assert forall|k: int| 0 <= k < s2.len() implies {
            &&& fits_i32(#[trigger] s2[k].0)
            &&& fits_i32(s2[k].1)
            &&& can_plot(len, width, vp, s2[k])
        } by {
            assert(s[k + s1.len()] == s2[k]);
            assert(fits_i32(s[k + s1.len()].0));
        }
    }
}

/// Whether the lit pixels of glyph `glyph` at `(x, y)` all have `i32`
/// coordinates and may be set.
fn glyph_drawable(target: &RenderTarget, glyph: &[u8; 8], x: i32, y: i32) -> (r: bool)
    ensures
        r == cells_drawable(glyph_cells(glyph@, x as int, y as int, 64), target.bytes().len(), target.fb_width(), target.view_rect()),
{
    let ghost g = glyph@;
    let ghost len = target.bytes().len();
    let ghost w = target.fb_width();
    let ghost vp = target.view_rect();
    let mut n: usize = 0;
    while n < 64
        invariant
            0 <= n <= 64,
            g == glyph@,
            len == target.bytes().len(),
            w == target.fb_width(),
            vp == target.view_rect(),
            cells_drawable(glyph_cells(g, x as int, y as int, n as int), len, w, vp),
        decreases 64 - n,
    {
        let row = n / 8;
        let col = n % 8;
        let ghost prev = glyph_cells(g, x as int, y as int, n as int);
        proof {
            lemma_glyph_cells_prefix(g, x as int, y as int, n as int, n + 1);
            lemma_glyph_cells_prefix(g, x as int, y as int, n + 1, 64);
        }
        if (glyph[row] >> (col as u32)) & 1 == 1 {
            let px: i64 = x as i64 + col as i64;
            let py: i64 = y as i64 + row as i64;
            let ghost cell = (px as int, py as int);
            assert(glyph_cells(g, x as int, y as int, n + 1) == prev.push(cell));
            let ghost full = glyph_cells(g, x as int, y as int, 64);
            assert(full.subrange(0, prev.len() as int + 1) == prev.push(cell));
            assert(full.subrange(0, prev.len() as int + 1)[prev.len() as int] == cell);
            assert(full[prev.len() as int] == cell);
            if px > i32::MAX as i64 || py > i32::MAX as i64 {
                assert(!fits_i32(full[prev.len() as int].0) || !fits_i32(full[prev.len() as int].1));
                return false;
            }
            if !target.can_put(px as i32, py as i32) {
                assert(!can_plot(len, w, vp, full[prev.len() as int]));
                return false;
            }
            proof {
                lemma_drawable_append(prev, seq![cell], len, w, vp);
                assert(prev.push(cell) =~= prev + seq![cell]);
                assert(seq![cell][0] == cell);
            }
        } else {
            assert(glyph_cells(g, x as int, y as int, n + 1) == prev);
        }
        n += 1;
    }
    true
}

/// Whether `text` drawn at `(x, y)` keeps its offsets within `i32` and
/// lights only pixels that may be set.
fn text_drawable(target: &RenderTarget, text: &str, x: i32, y: i32) -> (r: bool)
    ensures
        r == (text_offsets_fit(text@.len() as int, x as int) && cells_drawable(
            text_cells(text@, x as int, y as int),
            target.bytes().len(),
            target.fb_width(),
            target.view_rect(),
        )),
{
    let ghost len = target.bytes().len();
    let ghost w = target.fb_width();
    let ghost vp = target.view_rect();
    let mut i: usize = 0;
    for c in it: text.chars()
        invariant
            i == it.index(),
            it.seq() == text@,
            len == target.bytes().len(),
            w == target.fb_width(),
            vp == target.view_rect(),
            text_offsets_fit(i as int, x as int),
            cells_drawable(text_cells(text@.take(i as int), x as int, y as int), len, w, vp),
    {
        proof {
            assert(text@.take(i + 1).drop_last() =~= text@.take(i as int));
            assert(text@.take(i + 1).last() == c);
            lemma_text_cells_prefix(text@, x as int, y as int, i as int);
        }
        if i > 0x0fff_ffff || x as i64 + 8 * (i as i64) > i32::MAX as i64 {
            assert(!text_offsets_fit(text@.len() as int, x as int));
            return false;
        }
        let cx: i32 = x + 8 * (i as i32);
        let ghost done = text_cells(text@.take(i as int), x as int, y as int);
        let ghost cur = char_cells(c, cx as int, y as int);
        assert(text_cells(text@.take(i + 1), x as int, y as int) == done + cur);
        proof {
            lemma_drawable_append(done, cur, len, w, vp);
        }
        match basic_font_get(c) {
            Some(glyph) => {
                assert(cur == glyph_cells(glyph@, cx as int, y as int, 64));
                if !glyph_drawable(target, &glyph, cx, y) {
                    assert(!cells_drawable(cur, len, w, vp));
                    proof {
                        let all = text_cells(text@, x as int, y as int);
                        let k = choose|k: int| 0 <= k < cur.len() && !({
                            &&& fits_i32(#[trigger] cur[k].0)
                            &&& fits_i32(cur[k].1)
                            &&& can_plot(len, w, vp, cur[k])
                        });
                        assert(all[done.len() + k] == cur[k]);
                    }
                    return false;
                }
            },
            None => {
                assert(cur =~= Seq::<(int, int)>::empty());
            },
        }
        i += 1;
    }
    assert(text@.take(i as int) =~= text@);
    true
}

/// `cells` moved right by `dx` and down by `dy`.
pub open spec fn shifted(cells: Seq<(int, int)>, dx: int, dy: int) -> Seq<(int, int)> {
    cells.map_values(|p: (int, int)| (p.0 + dx, p.1 + dy))
}

proof fn lemma_glyph_cells_shift(g: Seq<u8>, x: int, y: int, n: int, dx: int, dy: int)
    ensures
        glyph_cells(g, x + dx, y + dy, n) == shifted(glyph_cells(g, x, y, n), dx, dy),
    decreases n,
{
    if n > 0 {
        lemma_glyph_cells_shift(g, x, y, n - 1, dx, dy);
        let prev = glyph_cells(g, x, y, n - 1);
        let row = (n - 1) / 8;
        let col = (n - 1) % 8;
        if bit_set(g[row], col as u32) {
            assert(shifted(prev.push((x + col, y + row)), dx, dy) =~= shifted(prev, dx, dy).push(
                (x + dx + col, y + dy + row),
            ));
        }
    } else {
        assert(shifted(Seq::<(int, int)>::empty(), dx, dy) =~= Seq::<(int, int)>::empty());
    }
}

proof fn lemma_glyph_cells_bounds(g: Seq<u8>, x: int, y: int, n: int)
    requires
        n <= 64,
    ensures
        forall|k: int|
            0 <= k < glyph_cells(g, x, y, n).len() ==> x <= (#[trigger] glyph_cells(g, x, y, n)[k]).0 < x + 8 && y
                <= glyph_cells(g, x, y, n)[k].1 < y + 8,
    decreases n,
{
    if n > 0 {
        lemma_glyph_cells_bounds(g, x, y, n - 1);
        let prev = glyph_cells(g, x, y, n - 1);
        assert(0 <= (n - 1) / 8 < 8 && 0 <= (n - 1) % 8 < 8) by (nonlinear_arith)
            requires 0 < n <= 64;
        assert forall|k: int| 0 <= k < glyph_cells(g, x, y, n).len() implies x <= (#[trigger] glyph_cells(
            g,
            x,
            y,
            n,
        )[k]).0 < x + 8 && y <= glyph_cells(g, x, y, n)[k].1 < y + 8 by {
            if k < prev.len() {
                assert(glyph_cells(g, x, y, n)[k] == prev[k]);
            }
        }
    }
}

/// Drawing a text `dx` pixels further right and `dy` further down lights
/// the same pixels, moved by `dx` and `dy`.
pub proof fn lemma_text_shift(text: Seq<char>, x: int, y: int, dx: int, dy: int)
    ensures
        text_cells(text, x + dx, y + dy) == shifted(text_cells(text, x, y), dx, dy),
    decreases text.len(),
{
    if text.len() > 0 {
        lemma_text_shift(text.drop_last(), x, y, dx, dy);
        let c = text.last();
        let cx = x + 8 * (text.len() - 1);
        if (c as int) < 128 {
            lemma_glyph_cells_shift(basic_glyph(c), cx, y, 64, dx, dy);
            assert(x + dx + 8 * (text.len() - 1) == cx + dx);
        } else {
            assert(shifted(Seq::<(int, int)>::empty(), dx, dy) =~= Seq::<(int, int)>::empty());
        }
        assert(shifted(text_cells(text.drop_last(), x, y) + char_cells(c, cx, y), dx, dy) =~= shifted(
            text_cells(text.drop_last(), x, y),
            dx,
            dy,
        ) + shifted(char_cells(c, cx, y), dx, dy));
    } else {
        assert(shifted(Seq::<(int, int)>::empty(), dx, dy) =~= Seq::<(int, int)>::empty());
    }
}

/// Every pixel that a text drawn at `(x, y)` lights lies in the rows `y`
/// to `y + 7`, and in the columns of its own character: character `i`
/// lights only columns `x + 8 i` to `x + 8 i + 7`.
pub proof fn lemma_text_bounds(text: Seq<char>, x: int, y: int)
    ensures
        forall|k: int|
            0 <= k < text_cells(text, x, y).len() ==> x <= (#[trigger] text_cells(text, x, y)[k]).0 < x + 8
                * text.len() && y <= text_cells(text, x, y)[k].1 < y + 8,
        text.len() > 0 ==> forall|k: int|
            0 <= k < char_cells(text.last(), x + 8 * (text.len() - 1), y).len() ==> x + 8 * (text.len() - 1)
                <= (#[trigger] char_cells(text.last(), x + 8 * (text.len() - 1), y)[k]).0 < x + 8 * text.len(),
    decreases text.len(),
{
    if text.len() > 0 {
        lemma_text_bounds(text.drop_last(), x, y);
        let c = text.last();
        let cx = x + 8 * (text.len() - 1);
        let prev = text_cells(text.drop_last(), x, y);
        let cur = char_cells(c, cx, y);
        if (c as int) < 128 {
            lemma_glyph_cells_bounds(basic_glyph(c), cx, y, 64);
        }
        assert forall|k: int| 0 <= k < text_cells(text, x, y).len() implies x <= (#[trigger] text_cells(
            text,
            x,
            y,
        )[k]).0 < x + 8 * text.len() && y <= text_cells(text, x, y)[k].1 < y + 8 by {
            if k < prev.len() {
                assert(text_cells(text, x, y)[k] == prev[k]);
            } else {
                assert(text_cells(text, x, y)[k] == cur[k - prev.len()]);
            }
        }
    }
}

impl SoftwareRenderer {
    /// Draws the glyph of `c` with its top-left corner at `(x, y)`.
    fn draw_char(&mut self, target: &mut RenderTarget, c: char, x: i32, y: i32, colour: [u8; 4])
        requires
            cells_drawable(
                char_cells(c, x as int, y as int),
                old(target).bytes().len(),
                old(target).fb_width(),
                old(target).view_rect(),
            ),
        ensures
            final(target).bytes() == plot_all(
                old(target).bytes(),
                old(target).fb_width(),
                old(target).view_rect(),
                char_cells(c, x as int, y as int),
                colour@,
            ),
            final(target).fb_width() == old(target).fb_width(),
            final(target).view_rect() == old(target).view_rect(),
            *final(final(target).fb()) == *final(old(target).fb()),
            final(final(target).fb().slice())@ == final(old(target).fb().slice())@,
    {
        let ghost start = target.bytes();
        let ghost w = target.fb_width();
        let ghost vp = target.view_rect();
        if let Some(glyph) = basic_font_get(c) {
            let ghost g = glyph@;
            let ghost all = glyph_cells(g, x as int, y as int, 64);
            assert(all == char_cells(c, x as int, y as int));
            let mut row: usize = 0;
            while row < 8
                invariant
                    0 <= row <= 8,
                    g == glyph@,
                    all == glyph_cells(g, x as int, y as int, 64),
                    cells_drawable(all, start.len(), w, vp),
                    target.fb_width() == w,
                    target.view_rect() == vp,
                    target.bytes().len() == start.len(),
                    target.bytes() == plot_all(start, w, vp, glyph_cells(g, x as int, y as int, row * 8), colour@),
                    *final(target.fb()) == *final(old(target).fb()),
                    final(target.fb().slice())@ == final(old(target).fb().slice())@,
                decreases 8 - row,
            {
                let bits = glyph[row];
                let mut col: i32 = 0;
                while col < 8
                    invariant
                        0 <= row < 8,
                        0 <= col <= 8,
                        bits == g[row as int],
                        g == glyph@,
                        all == glyph_cells(g, x as int, y as int, 64),
                        cells_drawable(all, start.len(), w, vp),
                        target.fb_width() == w,
                        target.view_rect() == vp,
                        target.bytes().len() == start.len(),
                        target.bytes() == plot_all(start, w, vp, glyph_cells(g, x as int, y as int, row * 8 + col), colour@),
                        *final(target.fb()) == *final(old(target).fb()),
                        final(target.fb().slice())@ == final(old(target).fb().slice())@,
                    decreases 8 - col,
                {
                    let ghost n = row * 8 + col;
                    let ghost prev = glyph_cells(g, x as int, y as int, n);
                    assert((n + 1 - 1) / 8 == row && (n + 1 - 1) % 8 == col) by (nonlinear_arith)
                        requires n == row * 8 + col, 0 <= col < 8;
                    proof {
                        lemma_glyph_cells_prefix(g, x as int, y as int, n, n + 1);
                        lemma_glyph_cells_prefix(g, x as int, y as int, n + 1, 64);
                    }
                    if (bits >> (col as u32)) & 1 == 1 {
                        assert(glyph_cells(g, x as int, y as int, n + 1) == prev.push((x + col, y + row)));
                        assert(all[prev.len() as int] == glyph_cells(g, x as int, y as int, n + 1)[prev.len() as int]);
                        assert(fits_i32(all[prev.len() as int].0));
                        assert(fits_i32(all[prev.len() as int].1));
                        target.put(x + col, y + row as i32, colour);
                        assert(prev.push((x + col, y + row)).drop_last() =~= prev);
                    } else {
                        assert(glyph_cells(g, x as int, y as int, n + 1) == prev);
                    }
                    col += 1;
                }
                row += 1;
            }
        } else {
            assert(char_cells(c, x as int, y as int) =~= Seq::<(int, int)>::empty());
        }
    }

    /// Draws `text` from `(x, y)` on, one 8x8 glyph every 8 pixels.
    pub fn draw_text(&mut self, target: &mut RenderTarget, text: &str, x: i32, y: i32, colour: [u8; 4])
        requires
            text_offsets_fit(text@.len() as int, x as int),
            cells_drawable(
                text_cells(text@, x as int, y as int),
                old(target).bytes().len(),
                old(target).fb_width(),
                old(target).view_rect(),
            ),
        ensures
            final(target).bytes() == plot_all(
                old(target).bytes(),
                old(target).fb_width(),
                old(target).view_rect(),
                text_cells(text@, x as int, y as int),
                colour@,
            ),
            final(target).fb_width() == old(target).fb_width(),
            final(target).view_rect() == old(target).view_rect(),
            *final(final(target).fb()) == *final(old(target).fb()),
            final(final(target).fb().slice())@ == final(old(target).fb().slice())@,
    {
        let ghost start = target.bytes();
        let ghost w = target.fb_width();
        let ghost vp = target.view_rect();
        let ghost all = text_cells(text@, x as int, y as int);
        let mut i: usize = 0;
        for c in it: text.chars()
            invariant
                i == it.index(),
                it.seq() == text@,
                text_offsets_fit(text@.len() as int, x as int),
                all == text_cells(text@, x as int, y as int),
                cells_drawable(all, start.len(), w, vp),
                target.fb_width() == w,
                target.view_rect() == vp,
                target.bytes().len() == start.len(),
                target.bytes() == plot_all(start, w, vp, text_cells(text@.take(i as int), x as int, y as int), colour@),
                *final(target.fb()) == *final(old(target).fb()),
                final(target.fb().slice())@ == final(old(target).fb().slice())@,
        {
            let ghost done = text_cells(text@.take(i as int), x as int, y as int);
            let ghost cur = char_cells(c, x + 8 * i, y as int);
            proof {
                lemma_text_cells_prefix(text@, x as int, y as int, i as int);
                assert(text@.take(i + 1).drop_last() =~= text@.take(i as int));
                assert(text@.take(i + 1).last() == c);
                assert(text_cells(text@.take(i + 1), x as int, y as int) == done + cur);
                assert forall|k: int| 0 <= k < cur.len() implies {
                    &&& fits_i32(#[trigger] cur[k].0)
                    &&& fits_i32(cur[k].1)
                    &&& can_plot(start.len(), w, vp, cur[k])
                } by {
                    let m = done.len() + k;
                    assert(text_cells(text@.take(i + 1), x as int, y as int)[m] == cur[k]);
                    assert(all[m] == cur[k]);
                    assert(fits_i32(all[m].0));
                }
            }
            let cx = x + (i as i32 * 8);
            self.draw_char(target, c, cx, y, colour);
            proof {
                lemma_plot_all_append(start, w, vp, done, cur, colour@);
                lemma_plot_all_len(start, w, vp, done + cur, colour@);
            }
            i += 1;
        }
        assert(text@.take(i as int) =~= text@);
    }

    /// Draws `text` as `draw_text` does when every pixel it lights may be
    /// set and its offsets stay within `i32`; otherwise draws nothing.
    /// Returns whether it drew.
    pub fn draw_text_checked(&mut self, target: &mut RenderTarget, text: &str, x: i32, y: i32, colour: [u8; 4]) -> (drawn: bool)
        ensures
            drawn == (text_offsets_fit(text@.len() as int, x as int) && cells_drawable(
                text_cells(text@, x as int, y as int),
                old(target).bytes().len(),
                old(target).fb_width(),
                old(target).view_rect(),
            )),
            final(target).bytes() == if drawn {
                plot_all(
                    old(target).bytes(),
                    old(target).fb_width(),
                    old(target).view_rect(),
                    text_cells(text@, x as int, y as int),
                    colour@,
                )
            } else {
                old(target).bytes()
            },
            final(target).fb_width() == old(target).fb_width(),
            final(target).view_rect() == old(target).view_rect(),
            *final(final(target).fb()) == *final(old(target).fb()),
            final(final(target).fb().slice())@ == final(old(target).fb().slice())@,
    {
        if text_drawable(target, text, x, y) {
            self.draw_text(target, text, x, y, colour);
            true
        } else {
            false
        }
    }
}

} // verus!
