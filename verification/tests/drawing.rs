use font8x8::UnicodeFonts;
use renderer::{CullMode, Framebuffer, RenderTarget, SoftwareRenderer, Viewport};

const RED: [u8; 4] = [255, 0, 0, 255];

fn lit(pixels: &[u8], width: usize, x: usize, y: usize) -> bool {
    let i = (y * width + x) * 4;
    pixels[i..i + 4] == RED
}

fn lit_pixels(pixels: &[u8], width: usize, height: usize) -> Vec<(usize, usize)> {
    let mut out = Vec::new();
    for y in 0..height {
        for x in 0..width {
            if lit(pixels, width, x, y) {
                out.push((x, y));
            }
        }
    }
    out
}

#[test]
fn viewport_measures() {
    let vp = Viewport::new(2, 10, -3, 4);
    assert_eq!(vp.width(), 8);
    assert_eq!(vp.height(), 7);
    assert!(vp.contains(2, -3));
    assert!(!vp.contains(10, 0));
    assert!(!vp.contains(5, 4));
    assert_eq!(vp.bounds(), (2, 10, -3, 4));
    let swapped = Viewport::new(5, 3, 0, 0);
    assert_eq!(swapped.width(), u32::MAX - 1);
}

#[test]
fn idx_is_byte_offset() {
    let mut data = vec![0u8; 4 * 6 * 2];
    let mut fb = Framebuffer::new(&mut data, 6, 2);
    let target = RenderTarget::new(&mut fb, Viewport::new(0, 6, 0, 2));
    assert_eq!(target.idx(0, 0), 0);
    assert_eq!(target.idx(5, 1), 44);
    assert!(target.can_put(5, 1));
    assert!(target.can_put(6, 1));
    assert!(target.can_put(-1, 0));
}

#[test]
fn put_only_inside_viewport() {
    let mut data = vec![0u8; 4 * 4 * 4];
    {
        let mut fb = Framebuffer::new(&mut data, 4, 4);
        let mut target = RenderTarget::new(&mut fb, Viewport::new(1, 3, 1, 3));
        let mut r = SoftwareRenderer::new();
        r.draw_line(&mut target, (0, 0), (3, 3), RED);
    }
    assert_eq!(lit_pixels(&data, 4, 4), vec![(1, 1), (2, 2)]);
}

#[test]
fn line_pixels_in_order() {
    let mut data = vec![0u8; 4 * 8 * 8];
    {
        let mut fb = Framebuffer::new(&mut data, 8, 8);
        let mut target = RenderTarget::new(&mut fb, Viewport::new(0, 8, 0, 8));
        let mut r = SoftwareRenderer::new();
        r.draw_line(&mut target, (4, 4), (1, 0), RED);
    }
    let mut got = lit_pixels(&data, 8, 8);
    got.sort();
    let mut want = vec![(4, 4), (3, 3), (2, 2), (2, 1), (1, 0)];
    want.sort();
    assert_eq!(got, want);
}

#[test]
fn shallow_line_and_single_point() {
    let mut data = vec![0u8; 4 * 8 * 2];
    {
        let mut fb = Framebuffer::new(&mut data, 8, 2);
        let mut target = RenderTarget::new(&mut fb, Viewport::new(0, 8, 0, 2));
        let mut r = SoftwareRenderer::new();
        r.draw_line(&mut target, (0, 0), (3, 1), RED);
        r.draw_line(&mut target, (6, 0), (6, 0), RED);
    }
    assert_eq!(lit_pixels(&data, 8, 2), vec![(0, 0), (1, 0), (6, 0), (2, 1), (3, 1)]);
}

#[test]
fn clear_fills_whole_pixels() {
    let mut data = vec![7u8; 4 * 3 + 2];
    {
        let mut fb = Framebuffer::new(&mut data, 3, 1);
        let mut target = RenderTarget::new(&mut fb, Viewport::new(1, 2, 0, 1));
        SoftwareRenderer::new().clear(&mut target, [1, 2, 3, 4]);
    }
    assert_eq!(data, vec![1, 2, 3, 4, 1, 2, 3, 4, 1, 2, 3, 4, 7, 7]);
}

#[test]
fn text_draws_font_glyphs() {
    let mut data = vec![0u8; 4 * 24 * 8];
    {
        let mut fb = Framebuffer::new(&mut data, 24, 8);
        let mut target = RenderTarget::new(&mut fb, Viewport::new(0, 24, 0, 8));
        let mut r = SoftwareRenderer::new();
        r.draw_text(&mut target, "A\u{e9}B", 0, 0, RED);
    }
    let mut want = Vec::new();
    for (i, c) in ['A', '\u{e9}', 'B'].iter().enumerate() {
        if let Some(g) = font8x8::BASIC_FONTS.get(*c) {
            for (row, bits) in g.iter().enumerate() {
                for col in 0..8 {
                    if (bits >> col) & 1 == 1 {
                        want.push((i * 8 + col, row));
                    }
                }
            }
        }
    }
    want.sort_by_key(|&(x, y)| (y, x));
    assert!(!want.is_empty());
    assert_eq!(lit_pixels(&data, 24, 8), want);
    assert!(lit(&data, 24, 2, 0) && lit(&data, 24, 3, 0));
}

#[test]
fn checked_text_refuses_unaddressable_pixels() {
    let mut data = vec![0u8; 4 * 8 * 4];
    {
        let mut fb = Framebuffer::new(&mut data, 8, 4);
        let mut target = RenderTarget::new(&mut fb, Viewport::new(0, 8, 0, 8));
        let mut r = SoftwareRenderer::new();
        assert!(!r.draw_text_checked(&mut target, "A", 0, 0, RED));
        assert!(r.draw_text_checked(&mut target, " ", 0, 0, RED));
    }
    assert!(data.iter().all(|&b| b == 0));
    let mut data = vec![0u8; 4 * 8 * 8];
    {
        let mut fb = Framebuffer::new(&mut data, 8, 8);
        let mut target = RenderTarget::new(&mut fb, Viewport::new(0, 8, 0, 8));
        assert!(SoftwareRenderer::new().draw_text_checked(&mut target, "A", 0, 0, RED));
    }
    assert!(lit(&data, 8, 2, 0));
}

#[test]
fn fill_covered_box() {
    let mut data = vec![0u8; 4 * 5 * 5];
    {
        let mut fb = Framebuffer::new(&mut data, 5, 5);
        let mut target = RenderTarget::new(&mut fb, Viewport::new(0, 5, 0, 5));
        let mut r = SoftwareRenderer::new();
        let covered = [true, false, false, true, true, false];
        r.fill_covered(&mut target, 1, 3, 2, 3, &covered, RED);
        r.fill_covered(&mut target, 4, 3, 0, 0, &[], RED);
    }
    assert_eq!(lit_pixels(&data, 5, 5), vec![(1, 2), (1, 3), (2, 3)]);
}

#[test]
fn clamp_box_to_viewport() {
    let vp = Viewport::new(0, 100, 10, 50);
    assert_eq!(vp.clamp_box(-5, 200, 20, 30), (0, 99, 20, 30));
    assert_eq!(vp.clamp_box(5, 7, -1, 80), (5, 7, 10, 49));
}

#[test]
fn cull_mode_winding() {
    assert!(CullMode::Off.swaps_winding(true));
    assert!(CullMode::Clockwise.swaps_winding(true));
    assert!(!CullMode::CounterClockwise.swaps_winding(true));
    assert!(!CullMode::Clockwise.swaps_winding(false));
    assert!(matches!(CullMode::default(), CullMode::Clockwise));
}

#[test]
fn line_drawable_matches_memory() {
    let mut data = vec![0u8; 4 * 4 * 2];
    let mut fb = Framebuffer::new(&mut data, 4, 2);
    let target = RenderTarget::new(&mut fb, Viewport::new(0, 4, 0, 4));
    assert!(renderer::raster::line_drawable(&target, (0, 0), (3, 1)));
    assert!(!renderer::raster::line_drawable(&target, (0, 0), (0, 3)));
    assert!(renderer::raster::line_drawable(&target, (-5, -5), (-1, -1)));
    assert!(!renderer::raster::line_drawable(&target, (i32::MIN, 0), (1, 0)));
}

#[test]
fn huge_diagonal_line_arithmetic_fits() {
    let mut data = vec![0u8; 4];
    let mut fb = Framebuffer::new(&mut data, 1, 1);
    let target = RenderTarget::new(&mut fb, Viewport::new(0, 0, 0, 0));
    assert!(renderer::raster::line_drawable(&target, (0, 0), (100_000, 100_000)));
    assert!(!renderer::raster::line_drawable(&target, (0, 0), (1_500_000_000, 0)));
}

#[test]
fn line_pixels_within_half_a_pixel() {
    let (w, h) = (40usize, 20usize);
    let mut data = vec![0u8; 4 * w * h];
    let (from, to) = ((2i64, 17i64), (37i64, 3i64));
    {
        let mut fb = Framebuffer::new(&mut data, w as u32, h as u32);
        let mut target = RenderTarget::new(&mut fb, Viewport::new(0, w as i32, 0, h as i32));
        SoftwareRenderer::new().draw_line(&mut target, (2, 17), (37, 3), RED);
    }
    let (a, b) = ((to.0 - from.0).abs(), (to.1 - from.1).abs());
    let lit = lit_pixels(&data, w, h);
    assert_eq!(lit.len() as i64, a.max(b) + 1);
    for (x, y) in lit {
        let off = a * (y as i64 - from.1).abs() - b * (x as i64 - from.0).abs();
        assert!(2 * off.abs() <= a.max(b), "({}, {})", x, y);
    }
}
