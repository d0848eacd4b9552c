use nodio::icon::{icon_rgba, icon_rgba_sized, IconSize, ICON_SIZE};
use nodio::raster::{paint, Disk, UNIT};

/// A disk painted in floating point, with coordinates in pixels.
fn paint_float(rgba: &mut [u8], w: u32, h: u32, cx: f32, cy: f32, radius: f32) {
    let x0 = (cx - radius - 1.0).max(0.0) as u32;
    let x1 = ((cx + radius + 2.0).min(w as f32)) as u32;
    let y0 = (cy - radius - 1.0).max(0.0) as u32;
    let y1 = ((cy + radius + 2.0).min(h as f32)) as u32;
    for py in y0..y1 {
        for px in x0..x1 {
            let dx = px as f32 + 0.5 - cx;
            let dy = py as f32 + 0.5 - cy;
            let dist = (dx * dx + dy * dy).sqrt();
            let a = ((radius - dist + 0.5).clamp(0.0, 1.0) * 255.0) as u8;
            if a == 0 {
                continue;
            }
            let i = ((py * w + px) * 4) as usize;
            if a > rgba[i + 3] {
                rgba[i] = 100;
                rgba[i + 1] = 210;
                rgba[i + 2] = 255;
                rgba[i + 3] = a;
            }
        }
    }
}

/// The icon in floating point.
fn icon_float(size: u32) -> Vec<u8> {
    let s = size as f32 / 32.0;
    let middle = size as f32 / 2.0;
    let mut rgba = vec![0u8; (size * size * 4) as usize];
    paint_float(&mut rgba, size, size, 5.5 * s, middle, 4.5 * s);
    paint_float(&mut rgba, size, size, 26.5 * s, middle, 4.5 * s);
    for step in 0..=120_u32 {
        let t = step as f32 / 120.0;
        let wx = (9.5 + t * 13.0) * s;
        let wy = middle + 5.0 * s * (t * std::f32::consts::PI * 3.0).sin();
        paint_float(&mut rgba, size, size, wx, wy, 1.5 * s.max(0.75));
    }
    rgba
}

const SIZES: [IconSize; 3] = [IconSize::Small, IconSize::Normal, IconSize::Large];

fn alpha(rgba: &[u8], size: usize, x: usize, y: usize) -> u8 {
    rgba[4 * (y * size + x) + 3]
}

#[test]
fn icon_is_the_float_rendering() {
    assert_eq!(icon_rgba(), icon_float(32));
}

#[test]
fn icon_is_the_float_rendering_at_other_sizes() {
    for size in SIZES {
        assert_eq!(icon_rgba_sized(size), icon_float(size.pixels()), "{:?}", size);
    }
}

#[test]
fn icon_has_32_by_32_pixels_of_four_bytes() {
    assert_eq!(icon_rgba().len(), 4096);
    assert_eq!(icon_rgba_sized(IconSize::Normal), icon_rgba());
    assert_eq!(ICON_SIZE, 32);
    assert_eq!(SIZES.map(|size| size.pixels()), [16, 32, 48]);
    assert_eq!(icon_rgba_sized(IconSize::Small).len(), 1024);
    assert_eq!(icon_rgba_sized(IconSize::Large).len(), 9216);
}

#[test]
fn icon_known_pixels() {
    let rgba = icon_rgba();
    // Corner: nothing.
    assert_eq!(rgba[0..4], [0, 0, 0, 0]);
    // Middle of the left node: full ink.
    let i = 4 * (16 * 32 + 5);
    assert_eq!(rgba[i..i + 4], [100, 210, 255, 255]);
    // Above the left node, half a pixel past the rim: 0.5 of 255, cut off.
    assert_eq!(alpha(&rgba, 32, 5, 11), 127);
    assert_eq!(alpha(&rgba, 32, 5, 10), 0);
}

#[test]
fn icon_is_mirror_symmetric() {
    for icon in SIZES {
        let size = icon.pixels() as usize;
        let rgba = icon_rgba_sized(icon);
        for y in 0..size {
            for x in 0..size {
                let a = 4 * (y * size + x);
                let b = 4 * (y * size + size - 1 - x);
                assert_eq!(rgba[a..a + 4], rgba[b..b + 4]);
            }
        }
    }
}

#[test]
fn icon_pixels_are_ink_or_clear() {
    for pixel in icon_rgba().chunks(4) {
        if pixel[3] == 0 {
            assert_eq!(pixel, [0, 0, 0, 0]);
        } else {
            assert_eq!(pixel[..3], [100, 210, 255]);
        }
    }
}

#[test]
fn painting_twice_changes_nothing() {
    let disk = Disk { cx: 4 * UNIT, cy: 3 * UNIT + UNIT / 3, radius: 2 * UNIT };
    let mut once = vec![0u8; 8 * 8 * 4];
    paint(&mut once, 8, 8, disk);
    let mut twice = once.clone();
    paint(&mut twice, 8, 8, disk);
    assert_eq!(once, twice);
    assert_ne!(once, vec![0u8; 8 * 8 * 4]);
}

#[test]
fn painting_order_does_not_matter() {
    let a = Disk { cx: 3 * UNIT, cy: 3 * UNIT, radius: 2 * UNIT };
    let b = Disk { cx: 5 * UNIT, cy: 4 * UNIT, radius: 2 * UNIT + UNIT / 2 };
    let mut ab = vec![0u8; 8 * 8 * 4];
    paint(&mut ab, 8, 8, a);
    paint(&mut ab, 8, 8, b);
    let mut ba = vec![0u8; 8 * 8 * 4];
    paint(&mut ba, 8, 8, b);
    paint(&mut ba, 8, 8, a);
    assert_eq!(ab, ba);
}

#[test]
fn painting_keeps_stronger_ink() {
    let disk = Disk { cx: UNIT / 2, cy: UNIT / 2, radius: 0 };
    // A point on the pixel's centre covers half of it.
    let mut canvas = vec![0u8; 4];
    paint(&mut canvas, 1, 1, disk);
    assert_eq!(canvas, vec![100, 210, 255, 127]);
    let mut canvas = vec![1u8, 2, 3, 127];
    paint(&mut canvas, 1, 1, disk);
    assert_eq!(canvas, vec![1, 2, 3, 127]);
    let mut canvas = vec![1u8, 2, 3, 126];
    paint(&mut canvas, 1, 1, disk);
    assert_eq!(canvas, vec![100, 210, 255, 127]);
}

#[test]
fn painting_is_clipped_at_the_edges() {
    let mut canvas = vec![0u8; 4 * 3 * 4];
    paint(&mut canvas, 4, 3, Disk { cx: -20 * UNIT, cy: UNIT, radius: 3 * UNIT });
    paint(&mut canvas, 4, 3, Disk { cx: 2 * UNIT, cy: 90 * UNIT, radius: 3 * UNIT });
    assert_eq!(canvas, vec![0u8; 4 * 3 * 4]);
    paint(&mut canvas, 4, 3, Disk { cx: 0, cy: 0, radius: 2 * UNIT });
    let mut float = vec![0u8; 4 * 3 * 4];
    paint_float(&mut float, 4, 3, 0.0, 0.0, 2.0);
    assert_eq!(canvas, float);
    let mut empty: Vec<u8> = Vec::new();
    paint(&mut empty, 0, 5, Disk { cx: 0, cy: 0, radius: UNIT });
    assert_eq!(empty, Vec::<u8>::new());
}
