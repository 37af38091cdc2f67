use vstd::prelude::*;
use crate::raster::SoftwareRenderer;
use crate::viewport::{as_unsigned, Viewport};

verus! {

/// Byte offset of the first of the four bytes of pixel `(x, y)` in a
/// framebuffer `width` pixels wide; coordinates are read as `u32`.
pub open spec fn pixel_offset(width: u32, x: int, y: int) -> int {
    (as_unsigned(y) * width + as_unsigned(x)) * 4
}

/// `bytes` with the four bytes starting at `at` replaced by `colour`.
pub open spec fn paint(bytes: Seq<u8>, at: int, colour: Seq<u8>) -> Seq<u8> {
    Seq::new(bytes.len(), |k: int| if at <= k < at + 4 { colour[k - at] } else { bytes[k] })
}

/// The bytes after pixel `(x, y)` is set to `colour`: nothing changes
/// outside the viewport.
pub open spec fn plot(bytes: Seq<u8>, width: u32, vp: Viewport, p: (int, int), colour: Seq<u8>) -> Seq<u8> {
    if vp.holds(p.0, p.1) {
        paint(bytes, pixel_offset(width, p.0, p.1), colour)
    } else {
        bytes
    }
}

/// Whether setting pixel `p` stays within `len` bytes and the index
/// arithmetic stays within `u32`.
pub open spec fn can_plot(len: nat, width: u32, vp: Viewport, p: (int, int)) -> bool {
    vp.holds(p.0, p.1) ==> {
        &&& pixel_offset(width, p.0, p.1) <= u32::MAX
        &&& pixel_offset(width, p.0, p.1) + 4 <= len
    }
}

/// The bytes after the pixels of `pts` are set to `colour`, one after another.
pub open spec fn plot_all(bytes: Seq<u8>, width: u32, vp: Viewport, pts: Seq<(int, int)>, colour: Seq<u8>) -> Seq<u8>
    decreases pts.len(),
{
    if pts.len() == 0 {
        bytes
    } else {
        plot(plot_all(bytes, width, vp, pts.drop_last(), colour), width, vp, pts.last(), colour)
    }
}

/// Whether byte `k` belongs to pixel `p` and `p` lies in the viewport.
pub open spec fn covers(width: u32, vp: Viewport, p: (int, int), k: int) -> bool {
    vp.holds(p.0, p.1) && pixel_offset(width, p.0, p.1) <= k < pixel_offset(width, p.0, p.1) + 4
}

/// After the pixels of `pts` are set to `colour`, a byte that belongs to
/// one of them lying in the viewport holds the colour's component for its
/// place in the pixel; every other byte is as it was.
pub proof fn lemma_plot_all_bytes(bytes: Seq<u8>, width: u32, vp: Viewport, pts: Seq<(int, int)>, colour: Seq<u8>, k: int)
    requires
        0 <= k < bytes.len(),
        colour.len() == 4,
    ensures
        plot_all(bytes, width, vp, pts, colour).len() == bytes.len(),
        plot_all(bytes, width, vp, pts, colour)[k] == if exists|j: int| 0 <= j < pts.len() && covers(width, vp, #[trigger] pts[j], k) {
            colour[k % 4]
        } else {
            bytes[k]
        },
    decreases pts.len(),
{
    if pts.len() > 0 {
        let init = pts.drop_last();
        let p = pts.last();
        lemma_plot_all_bytes(bytes, width, vp, init, colour, k);
        let before = plot_all(bytes, width, vp, init, colour);
        if covers(width, vp, p, k) {
            let at = pixel_offset(width, p.0, p.1);
            assert(at % 4 == 0) by (nonlinear_arith)
                requires at == (as_unsigned(p.1) * width + as_unsigned(p.0)) * 4;
            assert(k - at == k % 4) by (nonlinear_arith)
                requires at % 4 == 0, at <= k < at + 4;
            assert(pts[pts.len() - 1] == p);
        } else {
            if exists|j: int| 0 <= j < pts.len() && covers(width, vp, #[trigger] pts[j], k) {
                let j = choose|j: int| 0 <= j < pts.len() && covers(width, vp, #[trigger] pts[j], k);
                assert(j < pts.len() - 1);
                assert(init[j] == pts[j]);
            }
            if exists|j: int| 0 <= j < init.len() && covers(width, vp, #[trigger] init[j], k) {
                let j = choose|j: int| 0 <= j < init.len() && covers(width, vp, #[trigger] init[j], k);
                assert(pts[j] == init[j]);
            }
        }
    }
}

/// An RGBA framebuffer: four bytes per pixel, row after row.
pub struct Framebuffer<'a> {
    pixels: &'a mut [u8],
    width: u32,
    height: u32,
}

impl<'a> Framebuffer<'a> {
    pub closed spec fn bytes(&self) -> Seq<u8> {
        self.pixels@
    }

    pub closed spec fn width_spec(&self) -> u32 {
        self.width
    }

    pub closed spec fn height_spec(&self) -> u32 {
        self.height
    }

    /// The slice that the framebuffer writes to.
    pub closed spec fn slice(&self) -> &'a mut [u8] {
        self.pixels
    }

    pub fn new(pixels: &'a mut [u8], width: u32, height: u32) -> (r: Self)
        ensures
            r.bytes() == old(pixels)@,
            r.width_spec() == width,
            r.height_spec() == height,
            final(pixels)@ == final(r.slice())@,
    {
        Self { pixels, width, height }
    }
}

/// A framebuffer seen through a viewport.
pub struct RenderTarget<'a> {
    framebuffer: &'a mut Framebuffer<'a>,
    viewport: Viewport,
}

impl<'a> RenderTarget<'a> {
    pub closed spec fn bytes(&self) -> Seq<u8> {
        self.framebuffer.bytes()
    }

    pub closed spec fn fb_width(&self) -> u32 {
        self.framebuffer.width_spec()
    }

    pub closed spec fn view_rect(&self) -> Viewport {
        self.viewport
    }

    pub closed spec fn fb(&self) -> &'a mut Framebuffer<'a> {
        self.framebuffer
    }

    pub fn new(framebuffer: &'a mut Framebuffer<'a>, viewport: Viewport) -> (r: Self)
        ensures
            r.bytes() == old(framebuffer).bytes(),
            r.fb_width() == old(framebuffer).width_spec(),
            r.view_rect() == viewport,
            *final(framebuffer) == *final(r.fb()),
            final(r.fb().slice())@ == final(old(framebuffer).slice())@,
    {
        Self { framebuffer, viewport }
    }

    /// The viewport of the target.
    pub fn viewport(&self) -> (r: Viewport)
        ensures
            r == self.view_rect(),
    {
        self.viewport
    }

    /// The byte offset of pixel `(x, y)`: `(y * width + x) * 4`.
    pub fn idx(&self, x: u32, y: u32) -> (r: usize)
        requires
            (y * self.fb_width() + x) * 4 <= u32::MAX,
        ensures
            r == (y * self.fb_width() + x) * 4,
    {
        ((y * self.framebuffer.width + x) * 4) as usize
    }

    /// Whether `put` may be called on pixel `(x, y)`: either it lies outside
    /// the viewport, or its four bytes lie within the framebuffer.
    pub fn can_put(&self, x: i32, y: i32) -> (r: bool)
        ensures
            r == can_plot(self.bytes().len(), self.fb_width(), self.view_rect(), (x as int, y as int)),
    {
        if !self.viewport.contains(x, y) {
            return true;
        }
        proof {
            assert((x as u32) as int == if x >= 0 { x as int } else { x + 0x1_0000_0000 }) by (bit_vector);
            assert((y as u32) as int == if y >= 0 { y as int } else { y + 0x1_0000_0000 }) by (bit_vector);
        }
        let xu = x as u32 as u64;
        let yu = y as u32 as u64;
        let w = self.framebuffer.width as u64;
        assert(yu * w <= 0xffff_fffe_0000_0001u64) by (nonlinear_arith)
            requires yu <= 0xffff_ffffu64, w <= 0xffff_ffffu64;
        let base = yu * w + xu;
        if base > 0x3fff_ffff {
            return false;
        }
        let offset = base * 4;
        offset + 4 <= self.framebuffer.pixels.len() as u64
    }

    /// Sets pixel `(x, y)` to `colour` when it lies in the viewport.
    pub fn put(&mut self, x: i32, y: i32, colour: [u8; 4])
        requires
            can_plot(old(self).bytes().len(), old(self).fb_width(), old(self).view_rect(), (x as int, y as int)),
        ensures
            final(self).bytes() == plot(old(self).bytes(), old(self).fb_width(), old(self).view_rect(), (x as int, y as int), colour@),
            final(self).fb_width() == old(self).fb_width(),
            final(self).view_rect() == old(self).view_rect(),
            *final(final(self).fb()) == *final(old(self).fb()),
            final(final(self).fb().slice())@ == final(old(self).fb().slice())@,
    {
        if !self.viewport.contains(x, y) {
            return;
        }
        proof {
            assert((x as u32) as int == if x >= 0 { x as int } else { x + 0x1_0000_0000 }) by (bit_vector);
            assert((y as u32) as int == if y >= 0 { y as int } else { y + 0x1_0000_0000 }) by (bit_vector);
        }
        let i = self.idx(x as u32, y as u32);
        let ghost before = self.bytes();
        self.framebuffer.pixels[i + 0] = colour[0];
        self.framebuffer.pixels[i + 1] = colour[1];
        self.framebuffer.pixels[i + 2] = colour[2];
        self.framebuffer.pixels[i + 3] = colour[3];
        assert(self.bytes() =~= paint(before, i as int, colour@));
    }
}


/// The bytes after every whole pixel is set to `colour`; the bytes of a
/// trailing partial pixel stay as they are.
pub open spec fn filled(bytes: Seq<u8>, colour: Seq<u8>) -> Seq<u8> {
    Seq::new(bytes.len(), |k: int| if k < bytes.len() - bytes.len() % 4 { colour[k % 4] } else { bytes[k] })
}

/// Clearing sets the four bytes of every whole pixel, the last one
/// included, to the colour, and leaves the bytes of a trailing partial
/// pixel as they were.
pub proof fn lemma_filled_pixels(bytes: Seq<u8>, colour: Seq<u8>)
    requires
        colour.len() == 4,
    ensures
        filled(bytes, colour).len() == bytes.len(),
        forall|p: int, r: int|
            0 <= p < bytes.len() / 4 && 0 <= r < 4 ==> #[trigger] filled(bytes, colour)[4 * p + r] == colour[r],
        forall|k: int| 4 * (bytes.len() / 4) <= k < bytes.len() ==> #[trigger] filled(bytes, colour)[k] == bytes[k],
{
    let n = bytes.len() as int;
    assert forall|p: int, r: int| 0 <= p < n / 4 && 0 <= r < 4 implies #[trigger] filled(bytes, colour)[4 * p + r]
        == colour[r] by {
        assert(4 * p + r < n - n % 4 && (4 * p + r) % 4 == r && 0 <= 4 * p + r) by (nonlinear_arith)
            requires 0 <= p < n / 4, 0 <= r < 4, n >= 0;
    }
    assert forall|k: int| 4 * (n / 4) <= k < n implies #[trigger] filled(bytes, colour)[k] == bytes[k] by {
        assert(!(k < n - n % 4)) by (nonlinear_arith)
            requires 4 * (n / 4) <= k, n >= 0;
    }
}

impl SoftwareRenderer {
    /// Sets every pixel of the framebuffer, inside the viewport or not, to `colour`.
    pub fn clear(&self, target: &mut RenderTarget, colour: [u8; 4])
        ensures
            final(target).bytes() == filled(old(target).bytes(), colour@),
            final(target).fb_width() == old(target).fb_width(),
            final(target).view_rect() == old(target).view_rect(),
            *final(final(target).fb()) == *final(old(target).fb()),
            final(final(target).fb().slice())@ == final(old(target).fb().slice())@,
    {
        let ghost start = target.bytes();
        let len = target.framebuffer.pixels.len();
        let mut k: usize = 0;
        while len - k >= 4
            invariant
                len == start.len(),
                k <= len,
                k % 4 == 0,
                target.fb_width() == old(target).fb_width(),
                target.view_rect() == old(target).view_rect(),
                target.bytes() == Seq::new(len as nat, |m: int| if m < k { colour@[m % 4] } else { start[m] }),
                *final(target.fb()) == *final(old(target).fb()),
                final(target.fb().slice())@ == final(old(target).fb().slice())@,
            decreases len - k,
        {
            let ghost before = target.bytes();
            target.framebuffer.pixels[k] = colour[0];
            target.framebuffer.pixels[k + 1] = colour[1];
            target.framebuffer.pixels[k + 2] = colour[2];
            target.framebuffer.pixels[k + 3] = colour[3];
            assert forall|m: int| k <= m < k + 4 implies #[trigger] target.bytes()[m] == colour@[m % 4] by {
                assert((k + 1) % 4 == 1 && (k + 2) % 4 == 2 && (k + 3) % 4 == 3) by (nonlinear_arith)
                    requires k % 4 == 0;
            }
            k = k + 4;
            assert(target.bytes() =~= Seq::new(len as nat, |m: int| if m < k { colour@[m % 4] } else { start[m] }));
        }
        assert(k == len - len % 4) by (nonlinear_arith)
            requires k % 4 == 0, k <= len, len - k < 4;
        assert(target.bytes() =~= filled(start, colour@));
    }
}

} // verus!
